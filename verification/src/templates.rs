//! The pages, as the template compiler writes render functions: literal
//! HTML appended as it stands, variables escaped (see `escape_html`), and a
//! raw variable appended as it stands.
use vstd::prelude::*;
use vstd::utf8::*;
use vstd::string::StringSliceAdditionalSpecFns;
use crate::htmlc::compiler::push_text;
use crate::util::{escape_bytes, escape_html};

verus! {

/// The login page.
pub open spec fn auth_login_bytes() -> Seq<u8> {
    "<!doctype html><html><body><h1>Login</h1><form method=\"post\" action=\"/login\"><input name=\"username\"><input name=\"password\" type=\"password\"><button>Login</button></form></body></html>".spec_bytes()
}

/// The registration page.
pub open spec fn auth_register_bytes() -> Seq<u8> {
    "<!doctype html><html><body><h1>Register</h1><form method=\"post\" action=\"/register\"><input name=\"username\"><input name=\"password\" type=\"password\"><button>Register</button></form></body></html>".spec_bytes()
}

/// Appends the login page.
pub fn render_auth_login(out: &mut String)
    ensures
        encode_utf8(final(out)@) == encode_utf8(old(out)@) + auth_login_bytes(),
{
    push_text(
        out,
        "<!doctype html><html><body><h1>Login</h1><form method=\"post\" action=\"/login\"><input name=\"username\"><input name=\"password\" type=\"password\"><button>Login</button></form></body></html>",
    );
}

/// Appends the registration page.
pub fn render_auth_register(out: &mut String)
    ensures
        encode_utf8(final(out)@) == encode_utf8(old(out)@) + auth_register_bytes(),
{
    push_text(
        out,
        "<!doctype html><html><body><h1>Register</h1><form method=\"post\" action=\"/register\"><input name=\"username\"><input name=\"password\" type=\"password\"><button>Register</button></form></body></html>",
    );
}

/// The variables of a resource card.
pub struct ResourceCardView<'a> {
    pub id: &'a str,
    pub name: &'a str,
    pub number: &'a str,
}

/// A resource card: the name as a heading, then the id and the number, each
/// escaped.
pub open spec fn resource_card_bytes(id: Seq<u8>, name: Seq<u8>, number: Seq<u8>) -> Seq<u8> {
    "<article class=\"resource-card\"><h3>".spec_bytes() + escape_bytes(name)
        + "</h3><p>#".spec_bytes() + escape_bytes(id) + " &middot; ".spec_bytes()
        + escape_bytes(number) + "</p></article>".spec_bytes()
}

/// Appends a resource card.
pub fn render_resource_card(out: &mut String, view: ResourceCardView)
    ensures
        encode_utf8(final(out)@) == encode_utf8(old(out)@) + resource_card_bytes(
            view.id.spec_bytes(),
            view.name.spec_bytes(),
            view.number.spec_bytes(),
        ),
{
    let ghost start = encode_utf8(out@);
    push_text(out, "<article class=\"resource-card\"><h3>");
    escape_html(view.name, out);
    push_text(out, "</h3><p>#");
    escape_html(view.id, out);
    push_text(out, " &middot; ");
    escape_html(view.number, out);
    push_text(out, "</p></article>");
    assert(encode_utf8(out@) =~= start + resource_card_bytes(
        view.id.spec_bytes(),
        view.name.spec_bytes(),
        view.number.spec_bytes(),
    ));
}

/// The variables of the resource list page.
pub struct ResourceResourceView<'a> {
    pub list_resource: &'a str,
    pub total: &'a str,
}

/// The resource list page: a search form by id, the total (escaped), then
/// the list as it stands.
pub open spec fn resource_resource_bytes(list_resource: Seq<u8>, total: Seq<u8>) -> Seq<u8> {
    "<!doctype html><html><body><h1>Resources</h1><form method=\"GET\" action=\"/resources\"><input name=\"id\"><button>Find</button></form><p>Total: ".spec_bytes()
        + escape_bytes(total) + "</p>".spec_bytes() + list_resource
        + "</body></html>".spec_bytes()
}

/// Appends the resource list page.
pub fn render_resource_resource(out: &mut String, view: ResourceResourceView)
    ensures
        encode_utf8(final(out)@) == encode_utf8(old(out)@) + resource_resource_bytes(
            view.list_resource.spec_bytes(),
            view.total.spec_bytes(),
        ),
{
    let ghost start = encode_utf8(out@);
    push_text(
        out,
        "<!doctype html><html><body><h1>Resources</h1><form method=\"GET\" action=\"/resources\"><input name=\"id\"><button>Find</button></form><p>Total: ",
    );
    escape_html(view.total, out);
    push_text(out, "</p>");
    push_text(out, view.list_resource);
    push_text(out, "</body></html>");
    assert(encode_utf8(out@) =~= start + resource_resource_bytes(
        view.list_resource.spec_bytes(),
        view.total.spec_bytes(),
    ));
}

} // verus!
