//! The decisions of the resource pages.
use vstd::prelude::*;
use vstd::utf8::*;
use vstd::string::StringSliceAdditionalSpecFns;
use crate::app::login::controller::{text_reply, to_resources};
use crate::bytes::parse_unsigned;
use crate::http::request::{QueryMap, qmap_get};
use crate::http::response::{Response, StatusCode};
use crate::storage::error::{StoreError, store_message};
use crate::util::parse_u32;
use crate::app::resource::model::Resource;
use crate::bytes::{decimal, lemma_decimal_ascii};
use crate::storage::error::number_string;
use crate::templates::{
    ResourceCardView, ResourceResourceView, render_resource_card, render_resource_resource,
    resource_card_bytes, resource_resource_bytes,
};
use crate::text::lemma_ascii_utf8;
use crate::htmlc::compiler::push_text;

verus! {

/// What the resource list is asked to show.
#[derive(Debug, Clone, Copy, PartialEq, Eq, Structural)]
pub enum Listing {
    /// Every resource: no `id` parameter.
    All,
    /// The resource of one id.
    One(u32),
    /// An `id` parameter that is not a positive `u32`.
    Invalid,
}

/// The listing a query asks for: without `id` all resources; with an `id`
/// that reads as a `u32` above zero that one; otherwise none.
pub open spec fn listing_spec(q: Seq<(Seq<u8>, Seq<u8>)>) -> Listing {
    match qmap_get(q, "id".spec_bytes()) {
        None => Listing::All,
        Some(v) => match parse_unsigned(v, u32::MAX as nat) {
            Some(n) => if n > 0 {
                Listing::One(n as u32)
            } else {
                Listing::Invalid
            },
            None => Listing::Invalid,
        },
    }
}

/// Reads the listing that a query asks for (see `listing_spec`).
pub fn requested_listing(query: &QueryMap) -> (r: Listing)
    ensures
        r == listing_spec(query@),
{
    match query.get("id") {
        None => Listing::All,
        Some(value) => match parse_u32(value) {
            Some(id) => if id > 0 {
                Listing::One(id)
            } else {
                Listing::Invalid
            },
            None => Listing::Invalid,
        },
    }
}

/// The reply to a store error on the resource pages: a missing id is a 404
/// `Resource not found`, any other error a 500 with the error's message.
pub open spec fn store_error_spec(e: StoreError) -> crate::http::response::ResponseModel {
    match e {
        StoreError::StorageIndexIdNotFound => text_reply(
            StatusCode::NotFound,
            "Resource not found".spec_bytes(),
        ),
        _ => text_reply(StatusCode::InternalServerError, encode_utf8(store_message(e))),
    }
}

/// Answers a store error (see `store_error_spec`).
pub fn store_error_reply(e: &StoreError) -> (r: Response)
    ensures
        r@ == store_error_spec(*e),
{
    match e {
        StoreError::StorageIndexIdNotFound => Response::text_plain(
            StatusCode::NotFound,
            "Resource not found",
        ),
        _ => Response::text_plain(StatusCode::InternalServerError, e.message().as_str()),
    }
}

/// The redirect back to the resource list once a change is stored.
pub fn resources_redirect() -> (r: Response)
    ensures
        r@ == to_resources(),
{
    proof {
        crate::app::login::controller::lemma_redirect_headers();
    }
    match Response::see_other("/resources") {
        Ok(response) => response,
        Err(e) => Response::html(StatusCode::InternalServerError, e.message().as_str()),
    }
}

/// An HTML reply with a status and a body.
pub open spec fn html_reply(status: StatusCode, body: Seq<u8>) -> crate::http::response::ResponseModel {
    crate::http::response::ResponseModel {
        status,
        headers: seq![("Content-Type".spec_bytes(), "text/html; charset=utf-8".spec_bytes())],
        body,
    }
}

/// The number a new resource is created with: the field read as a `u32`, or
/// 0 when it does not read as one.
pub fn created_number(number: &str) -> (r: u32)
    ensures
        match parse_unsigned(number.spec_bytes(), u32::MAX as nat) {
            Some(n) => r == n,
            None => r == 0,
        },
{
    match parse_u32(number) {
        Some(n) => n,
        None => 0,
    }
}

/// The id a delete form names; a 400 `Invalid resourse id` when it does not
/// read as a `u32`.
pub fn deleted_id(id: &str) -> (r: Result<u32, Response>)
    ensures
        match parse_unsigned(id.spec_bytes(), u32::MAX as nat) {
            Some(n) => r == Ok::<u32, Response>(n as u32),
            None => r matches Err(x) && x@ == text_reply(
                StatusCode::BadRequest,
                "Invalid resourse id".spec_bytes(),
            ),
        },
{
    match parse_u32(id) {
        Some(n) => Ok(n),
        None => Err(Response::text_plain(StatusCode::BadRequest, "Invalid resourse id")),
    }
}

/// The id and number an update form names; the id is read first, and a field
/// that does not read as a `u32` is a 400 `Error parsing id` or `Error
/// parsing number`.
pub fn updated_fields(id: &str, number: &str) -> (r: Result<(u32, u32), Response>)
    ensures
        match parse_unsigned(id.spec_bytes(), u32::MAX as nat) {
            None => r matches Err(x) && x@ == html_reply(
                StatusCode::BadRequest,
                "Error parsing id".spec_bytes(),
            ),
            Some(i) => match parse_unsigned(number.spec_bytes(), u32::MAX as nat) {
                None => r matches Err(x) && x@ == html_reply(
                    StatusCode::BadRequest,
                    "Error parsing number".spec_bytes(),
                ),
                Some(n) => r == Ok::<(u32, u32), Response>((i as u32, n as u32)),
            },
        },
{
    let i = match parse_u32(id) {
        Some(i) => i,
        None => {
            return Err(Response::html(StatusCode::BadRequest, "Error parsing id"));
        },
    };
    match parse_u32(number) {
        Some(n) => Ok((i, n)),
        None => Err(Response::html(StatusCode::BadRequest, "Error parsing number")),
    }
}

/// The cards of `rs` in order, each with its id, name and number.
pub open spec fn cards_bytes(rs: Seq<Resource>) -> Seq<u8>
    decreases rs.len(),
{
    if rs.len() == 0 {
        Seq::<u8>::empty()
    } else {
        cards_bytes(rs.drop_last()) + resource_card_bytes(
            decimal(rs.last().id as nat),
            rs.last()@.name,
            decimal(rs.last().number as nat),
        )
    }
}

/// The card of one resource.
pub open spec fn card_of(r: Resource) -> Seq<u8> {
    resource_card_bytes(decimal(r.id as nat), r@.name, decimal(r.number as nat))
}

/// Cards keep the listing's order: the cards of two listings one after the
/// other are the cards of the first, then those of the second.
pub proof fn lemma_cards_in_listing_order(rs: Seq<Resource>, qs: Seq<Resource>)
    ensures
        cards_bytes(rs + qs) == cards_bytes(rs) + cards_bytes(qs),
    decreases qs.len(),
{
    if qs.len() == 0 {
        assert(rs + qs =~= rs);
    } else {
        let q0 = qs.drop_last();
        lemma_cards_in_listing_order(rs, q0);
        assert((rs + qs).drop_last() =~= rs + q0);
        assert((rs + qs).last() == qs.last());
    }
}

/// The listing shows one card per resource, the card of resource `i` after
/// the cards of the resources before it and before the cards of those after.
pub proof fn lemma_card_position(rs: Seq<Resource>, i: int)
    requires
        0 <= i < rs.len(),
    ensures
        cards_bytes(rs) == cards_bytes(rs.subrange(0, i)) + card_of(rs[i]) + cards_bytes(
            rs.subrange(i + 1, rs.len() as int),
        ),
{
    let pre = rs.subrange(0, i);
    let one = seq![rs[i]];
    let post = rs.subrange(i + 1, rs.len() as int);
    assert(rs =~= pre + one + post);
    lemma_cards_in_listing_order(pre + one, post);
    lemma_cards_in_listing_order(pre, one);
    assert(one.drop_last() =~= Seq::<Resource>::empty());
    assert(cards_bytes(one) == cards_bytes(Seq::<Resource>::empty()) + card_of(rs[i]));
    assert(cards_bytes(one) =~= card_of(rs[i]));
}

/// What the resource list shows where there is no resource.
pub open spec fn empty_state_bytes() -> Seq<u8> {
    "<p class=\"empty-state\">No resources yet. Create one using the form.</p>".spec_bytes()
}

/// The resource list page for `rs`: their number as the total, and their
/// cards, or the empty-state note when there are none.
pub open spec fn resource_page_bytes(rs: Seq<Resource>) -> Seq<u8> {
    resource_resource_bytes(
        if rs.len() == 0 {
            empty_state_bytes()
        } else {
            cards_bytes(rs)
        },
        decimal(rs.len()),
    )
}

/// The decimal text of `n` as a string.
fn decimal_string(n: u64) -> (r: String)
    ensures
        r@.len() == decimal(n as nat).len(),
        encode_utf8(r@) == decimal(n as nat),
{
    let r = number_string(n);
    proof {
        lemma_decimal_ascii(n as nat);
        lemma_ascii_utf8(decimal(n as nat));
    }
    r
}

/// The HTML of the resource list page (see `resource_page_bytes`).
pub fn resource_page(resources: &[Resource]) -> (html: String)
    ensures
        encode_utf8(html@) == resource_page_bytes(resources@),
{
    let mut cards = String::new();
    let mut i: usize = 0;
    assert(resources@.subrange(0, 0) =~= Seq::<Resource>::empty());
    while i < resources.len()
        invariant
            i <= resources@.len(),
            encode_utf8(cards@) == cards_bytes(resources@.subrange(0, i as int)),
        decreases resources@.len() - i,
    {
        let r = &resources[i];
        let id = decimal_string(r.id as u64);
        let number = decimal_string(r.number as u64);
        render_resource_card(
            &mut cards,
            ResourceCardView { id: id.as_str(), name: r.name.as_str(), number: number.as_str() },
        );
        assert(resources@.subrange(0, i + 1).drop_last() =~= resources@.subrange(0, i as int));
        i += 1;
    }
    assert(resources@.subrange(0, i as int) =~= resources@);
    if resources.len() == 0 {
        push_text(&mut cards, "<p class=\"empty-state\">No resources yet. Create one using the form.</p>");
    }
    let total = decimal_string(resources.len() as u64);
    let mut html = String::new();
    render_resource_resource(
        &mut html,
        ResourceResourceView { list_resource: cards.as_str(), total: total.as_str() },
    );
    html
}

} // verus!
