//! Parsed HTTP/1.1 requests: method, target, path and query, headers, body,
//! and the form fields and cookies carried in them.
use vstd::prelude::*;
use vstd::utf8::*;
use vstd::string::StringSliceAdditionalSpecFns;
use crate::bytes::{
    bytes_eq_exec, eq_ignore_case, eq_ignore_case_exec, find_byte, find_first,
    lemma_split_at_sep, lemma_split_last_extend, lemma_split_nonempty, lemma_split_prefix_stable,
    lemma_valid_subrange, split_bytes, trim, trim_range,
};
use crate::util::{decode_form, form_decode_bytes};
use crate::http::error::HttpError;
use crate::http::cookie::{cookie_pairs, parse_cookie};
use crate::http::head::{
    body_check, check_body, entries_view, head_spec, header_get, map_get, parse_head, HeadError,
};
use crate::text::{str_from_utf8, sub_str};

verus! {

/// The methods this server accepts.
#[derive(Debug, Clone, Copy, PartialEq, Eq, Structural)]
pub enum HttpMethod {
    Get,
    Post,
}

// ---------------------------------------------------------------------------
// Maps with exact keys, later entries replacing earlier ones
// ---------------------------------------------------------------------------

/// Index of the entry whose key is `key`.
pub open spec fn qmap_find(m: Seq<(Seq<u8>, Seq<u8>)>, key: Seq<u8>) -> Option<int>
    decreases m.len(),
{
    if m.len() == 0 {
        None
    } else if m[0].0 == key {
        Some(0)
    } else {
        match qmap_find(m.subrange(1, m.len() as int), key) {
            Some(k) => Some(k + 1),
            None => None,
        }
    }
}

/// `m` with `key` set to `value` (a map insert: an existing key gets the new
/// value, a new key is appended).
pub open spec fn qmap_insert(m: Seq<(Seq<u8>, Seq<u8>)>, key: Seq<u8>, value: Seq<u8>) -> Seq<
    (Seq<u8>, Seq<u8>),
> {
    match qmap_find(m, key) {
        Some(k) => m.update(k, (key, value)),
        None => m.push((key, value)),
    }
}

/// The value stored under `key`.
pub open spec fn qmap_get(m: Seq<(Seq<u8>, Seq<u8>)>, key: Seq<u8>) -> Option<Seq<u8>> {
    match qmap_find(m, key) {
        Some(k) => Some(m[k].1),
        None => None,
    }
}

pub proof fn lemma_qmap_find_bound(m: Seq<(Seq<u8>, Seq<u8>)>, key: Seq<u8>)
    ensures
        qmap_find(m, key) matches Some(k) ==> 0 <= k < m.len() && m[k].0 == key,
        qmap_find(m, key) is None ==> forall|k: int| 0 <= k < m.len() ==> (#[trigger] m[k]).0 != key,
    decreases m.len(),
{
    if m.len() > 0 && m[0].0 != key {
        let t = m.subrange(1, m.len() as int);
        lemma_qmap_find_bound(t, key);
        assert forall|k: int| 0 <= k < m.len() && qmap_find(m, key) is None implies (#[trigger] m[
            k]).0 != key by {
            if k > 0 {
                assert(m[k] == t[k - 1]);
            }
        }
    }
}

/// The index of the entry keyed `key` in `entries`.
fn qmap_find_exec(entries: &Vec<(&str, &str)>, key: &[u8]) -> (r: Option<usize>)
    ensures
        match r {
            Some(k) => qmap_find(entries_view(entries@), key@) == Some(k as int),
            None => qmap_find(entries_view(entries@), key@) is None,
        },
{
    let ghost m = entries_view(entries@);
    let mut k: usize = 0;
    assert(m.subrange(0, m.len() as int) =~= m);
    while k < entries.len()
        invariant
            k <= entries@.len(),
            m == entries_view(entries@),
            qmap_find(m, key@) == match qmap_find(m.subrange(k as int, m.len() as int), key@) {
                Some(i) => Some(i + k),
                None => None,
            },
        decreases entries@.len() - k,
    {
        let eb = entries[k].0.as_bytes();
        let ghost rest = m.subrange(k as int, m.len() as int);
        assert(rest[0] == m[k as int]);
        if bytes_eq_exec(eb, key) {
            return Some(k);
        }
        assert(rest.subrange(1, rest.len() as int) =~= m.subrange(k + 1, m.len() as int));
        k += 1;
    }
    assert(m.subrange(k as int, m.len() as int).len() == 0);
    None
}

/// Sets `key` to `value` (see `qmap_insert`).
fn qmap_insert_exec<'a>(entries: &mut Vec<(&'a str, &'a str)>, key: &'a str, value: &'a str)
    ensures
        entries_view(final(entries)@) == qmap_insert(
            entries_view(old(entries)@),
            key.spec_bytes(),
            value.spec_bytes(),
        ),
{
    let ghost m = entries_view(entries@);
    match qmap_find_exec(entries, key.as_bytes()) {
        Some(k) => {
            proof {
                lemma_qmap_find_bound(m, key.spec_bytes());
            }
            entries.set(k, (key, value));
            assert(entries_view(entries@) =~= m.update(
                k as int,
                (key.spec_bytes(), value.spec_bytes()),
            ));
        },
        None => {
            entries.push((key, value));
            assert(entries_view(entries@) =~= m.push((key.spec_bytes(), value.spec_bytes())));
        },
    }
}

// ---------------------------------------------------------------------------
// The query string
// ---------------------------------------------------------------------------

/// One `key=value` parameter: split at the first `=`; the key must not be
/// empty. Nothing is decoded.
pub open spec fn query_piece(p: Seq<u8>) -> Option<(Seq<u8>, Seq<u8>)> {
    match find_first(p, 61) {
        Some(e) => if e > 0 {
            Some((p.subrange(0, e), p.subrange(e + 1, p.len() as int)))
        } else {
            None
        },
        None => None,
    }
}

/// The parameters read in order into a map, later keys replacing earlier
/// ones; `None` as soon as one is malformed.
pub open spec fn query_fold(ps: Seq<Seq<u8>>) -> Option<Seq<(Seq<u8>, Seq<u8>)>>
    decreases ps.len(),
{
    if ps.len() == 0 {
        Some(seq![])
    } else {
        match query_fold(ps.drop_last()) {
            None => None,
            Some(m) => match query_piece(ps.last()) {
                None => None,
                Some((k, v)) => Some(qmap_insert(m, k, v)),
            },
        }
    }
}

/// A target split into path and query map: without `?` the whole target is
/// the path; otherwise everything after the first `?` is split at `&` into
/// parameters, and an empty query, an empty key or a missing `=` refuses it.
pub open spec fn query_spec(t: Seq<u8>) -> Option<(Seq<u8>, Seq<(Seq<u8>, Seq<u8>)>)> {
    match find_first(t, 63) {
        None => Some((t, seq![])),
        Some(q) => match query_fold(split_bytes(t.subrange(q + 1, t.len() as int), 38)) {
            None => None,
            Some(m) => Some((t.subrange(0, q), m)),
        },
    }
}

proof fn lemma_query_fold_none(ps: Seq<Seq<u8>>, k: int)
    requires
        0 <= k <= ps.len(),
        query_fold(ps.subrange(0, k)) is None,
    ensures
        query_fold(ps) is None,
    decreases ps.len(),
{
    if k < ps.len() {
        assert(ps.drop_last().subrange(0, k) =~= ps.subrange(0, k));
        lemma_query_fold_none(ps.drop_last(), k);
    } else {
        assert(ps.subrange(0, k) =~= ps);
    }
}

/// One parameter `b[lo..hi]` (see `query_piece`).
fn query_piece_exec<'a>(b: &'a [u8], lo: usize, hi: usize) -> (r: Option<(&'a str, &'a str)>)
    requires
        lo <= hi <= b@.len(),
        valid_utf8(b@.subrange(lo as int, hi as int)),
    ensures
        match r {
            Some((k, v)) => query_piece(b@.subrange(lo as int, hi as int)) == Some(
                (k.spec_bytes(), v.spec_bytes()),
            ),
            None => query_piece(b@.subrange(lo as int, hi as int)) is None,
        },
{
    let ghost p = b@.subrange(lo as int, hi as int);
    match find_byte(b, lo, hi, 61) {
        Some(e) => {
            if e == lo {
                return None;
            }
            proof {
                lemma_valid_subrange(p, 0, e - lo);
                lemma_valid_subrange(p, e - lo + 1, p.len() as int);
                assert(p.subrange(0, e - lo) =~= b@.subrange(lo as int, e as int));
                assert(p.subrange(e - lo + 1, p.len() as int) =~= b@.subrange(e + 1, hi as int));
            }
            let k = sub_str(b, lo, e);
            let v = sub_str(b, e + 1, hi);
            Some((k, v))
        },
        None => None,
    }
}

/// The parameters of `b[lo..hi]`, split at `&` (see `query_fold`).
fn query_pairs<'a>(b: &'a [u8], lo: usize, hi: usize) -> (r: Option<Vec<(&'a str, &'a str)>>)
    requires
        lo <= hi <= b@.len(),
        valid_utf8(b@.subrange(lo as int, hi as int)),
    ensures
        match r {
            Some(v) => query_fold(split_bytes(b@.subrange(lo as int, hi as int), 38)) == Some(
                entries_view(v@),
            ),
            None => query_fold(split_bytes(b@.subrange(lo as int, hi as int), 38)) is None,
        },
{
    let ghost d = b@.subrange(lo as int, hi as int);
    let n = hi - lo;
    let mut entries: Vec<(&'a str, &'a str)> = Vec::new();
    let mut seg: usize = 0;
    let mut j: usize = 0;
    proof {
        assert(d.subrange(0, 0) =~= Seq::<u8>::empty());
        assert(split_bytes(Seq::<u8>::empty(), 38).drop_last() =~= Seq::<Seq<u8>>::empty());
        assert(entries_view(entries@) =~= Seq::<(Seq<u8>, Seq<u8>)>::empty());
    }
    while j < n
        invariant
            lo <= hi <= b@.len(),
            n == hi - lo,
            d == b@.subrange(lo as int, hi as int),
            valid_utf8(d),
            seg <= j <= n,
            seg == 0 || d[seg - 1] == 38,
            split_bytes(d.subrange(0, j as int), 38).last() == d.subrange(seg as int, j as int),
            query_fold(split_bytes(d.subrange(0, j as int), 38).drop_last()) == Some(
                entries_view(entries@),
            ),
        decreases n - j,
    {
        proof {
            lemma_split_nonempty(d.subrange(0, j as int), 38);
        }
        if b[lo + j] == 38 {
            let ghost prev = split_bytes(d.subrange(0, j as int), 38);
            proof {
                lemma_split_at_sep(d, 38, j as int);
                assert(prev.push(Seq::<u8>::empty()).drop_last() =~= prev);
                assert(prev =~= prev.drop_last().push(prev.last()));
                lemma_valid_subrange(d, seg as int, j as int);
                assert(b@.subrange(lo + seg, lo + j) =~= d.subrange(seg as int, j as int));
            }
            match query_piece_exec(b, lo + seg, lo + j) {
                Some((k, v)) => {
                    qmap_insert_exec(&mut entries, k, v);
                },
                None => {
                    proof {
                        lemma_split_prefix_stable(d, 38, j + 1, n as int);
                        assert(d.subrange(0, n as int) =~= d);
                        let all = split_bytes(d, 38);
                        assert(all.subrange(0, prev.len() as int) =~= prev);
                        lemma_query_fold_none(all, prev.len() as int);
                    }
                    return None;
                },
            }
            seg = j + 1;
            j += 1;
            assert(d.subrange(seg as int, j as int) =~= Seq::<u8>::empty());
        } else {
            proof {
                lemma_split_last_extend(d, 38, seg as int, j as int);
                let p1 = split_bytes(d.subrange(0, j + 1), 38);
                let p0 = split_bytes(d.subrange(0, j as int), 38);
                assert(p1.drop_last() =~= p0.drop_last());
            }
            j += 1;
        }
    }
    let ghost all = split_bytes(d, 38);
    proof {
        assert(d.subrange(0, n as int) =~= d);
        lemma_split_nonempty(d, 38);
        assert(all =~= all.drop_last().push(all.last()));
        lemma_valid_subrange(d, seg as int, n as int);
        assert(b@.subrange(lo + seg, hi as int) =~= d.subrange(seg as int, n as int));
    }
    match query_piece_exec(b, lo + seg, hi) {
        Some((k, v)) => {
            qmap_insert_exec(&mut entries, k, v);
            Some(entries)
        },
        None => None,
    }
}

/// The parameters of a request target, keyed exactly; later keys replace
/// earlier ones.
pub struct QueryMap<'buf> {
    entries: Vec<(&'buf str, &'buf str)>,
}

impl<'buf> View for QueryMap<'buf> {
    type V = Seq<(Seq<u8>, Seq<u8>)>;

    closed spec fn view(&self) -> Seq<(Seq<u8>, Seq<u8>)> {
        entries_view(self.entries@)
    }
}

impl<'buf> QueryMap<'buf> {
    /// The value of parameter `key`.
    pub fn get(&self, key: &str) -> (r: Option<&&'buf str>)
        ensures
            match r {
                Some(v) => qmap_get(self@, key.spec_bytes()) == Some(v.spec_bytes()),
                None => qmap_get(self@, key.spec_bytes()) is None,
            },
    {
        match qmap_find_exec(&self.entries, key.as_bytes()) {
            Some(k) => {
                proof {
                    lemma_qmap_find_bound(self@, key.spec_bytes());
                }
                Some(&self.entries[k].1)
            },
            None => None,
        }
    }

    /// Whether there are no parameters.
    pub fn is_empty(&self) -> (r: bool)
        ensures
            r == (self@.len() == 0),
    {
        self.entries.len() == 0
    }

    /// The number of distinct parameters.
    pub fn len(&self) -> (r: usize)
        ensures
            r == self@.len(),
    {
        self.entries.len()
    }
}

/// Splits a target into path and query map (see `query_spec`).
fn parse_query<'a>(target: &'a str) -> (r: Option<(&'a str, Vec<(&'a str, &'a str)>)>)
    ensures
        match r {
            Some((p, v)) => query_spec(target.spec_bytes()) == Some((p.spec_bytes(), entries_view(v@))),
            None => query_spec(target.spec_bytes()) is None,
        },
{
    let tb = target.as_bytes();
    let n = tb.len();
    proof {
        encode_utf8_valid_utf8(target@);
        assert(tb@.subrange(0, n as int) =~= tb@);
    }
    match find_byte(tb, 0, n, 63) {
        None => {
            let v: Vec<(&'a str, &'a str)> = Vec::new();
            assert(entries_view(v@) =~= Seq::<(Seq<u8>, Seq<u8>)>::empty());
            Some((target, v))
        },
        Some(q) => {
            proof {
                lemma_valid_subrange(tb@, 0, q as int);
                lemma_valid_subrange(tb@, q + 1, n as int);
            }
            match query_pairs(tb, q + 1, n) {
                Some(v) => {
                    let path = sub_str(tb, 0, q);
                    Some((path, v))
                },
                None => None,
            }
        },
    }
}

// ---------------------------------------------------------------------------
// Requests
// ---------------------------------------------------------------------------

/// What a request says.
pub struct RequestModel {
    pub method: HttpMethod,
    pub target: Seq<u8>,
    pub version: Seq<u8>,
    pub headers: Seq<(Seq<u8>, Seq<u8>)>,
    pub body: Seq<u8>,
    pub query: Seq<(Seq<u8>, Seq<u8>)>,
    pub path: Seq<u8>,
}

pub open spec fn http_error(e: HeadError) -> HttpError {
    match e {
        HeadError::InvalidUtf8 => HttpError::InvalidUtf8,
        HeadError::MethodParseError => HttpError::MethodParseError,
        HeadError::ContentLengthParseIntError => HttpError::ContentLengthParseIntError,
        HeadError::RequestHeaderInvalid => HttpError::RequestHeaderInvalid,
        HeadError::RequestLineInvalid => HttpError::RequestLineInvalid,
        HeadError::RequestHttpVersionInvalid => HttpError::RequestHttpVersionInvalid,
        HeadError::ContentLengthSizeError => HttpError::ContentLengthSizeError,
    }
}

fn to_http_error(e: HeadError) -> (r: HttpError)
    ensures
        r == http_error(e),
{
    match e {
        HeadError::InvalidUtf8 => HttpError::InvalidUtf8,
        HeadError::MethodParseError => HttpError::MethodParseError,
        HeadError::ContentLengthParseIntError => HttpError::ContentLengthParseIntError,
        HeadError::RequestHeaderInvalid => HttpError::RequestHeaderInvalid,
        HeadError::RequestLineInvalid => HttpError::RequestLineInvalid,
        HeadError::RequestHttpVersionInvalid => HttpError::RequestHttpVersionInvalid,
        HeadError::ContentLengthSizeError => HttpError::ContentLengthSizeError,
    }
}

pub open spec fn method_of(code: u8) -> HttpMethod {
    if code == 0 {
        HttpMethod::Get
    } else {
        HttpMethod::Post
    }
}

/// A request read from its bytes, checked in this order: the head (framing,
/// request line, headers, version `HTTP/1.1`; see `head_spec`), the query of
/// the target (`RequestRouteInvalid`), then the body, which must be exactly as
/// long as `Content-Length` says, and empty without one.
pub open spec fn parse_spec(d: Seq<u8>) -> Result<RequestModel, HttpError> {
    match head_spec(d, false) {
        Err(e) => Err(http_error(e)),
        Ok(h) => match query_spec(h.target) {
            None => Err(HttpError::RequestRouteInvalid),
            Some((path, q)) => match body_check(d.len() as int, h.content_length, h.body_start) {
                Err(e) => Err(http_error(e)),
                Ok(_) => Ok(
                    RequestModel {
                        method: method_of(h.method),
                        target: h.target,
                        version: h.version,
                        headers: h.headers,
                        body: d.subrange(h.body_start, d.len() as int),
                        query: q,
                        path,
                    },
                ),
            },
        },
    }
}

/// The method of an accepted request is the one its request line names:
/// `GET` or `POST`, each to its own method.
pub proof fn lemma_parsed_method_is_named(d: Seq<u8>)
    ensures
        parse_spec(d) matches Ok(r) ==> {
            &&& (r.method == HttpMethod::Get <==> crate::request::method_word(d)
                == "GET".spec_bytes())
            &&& (r.method == HttpMethod::Post <==> crate::request::method_word(d)
                == "POST".spec_bytes())
        },
{
    crate::request::lemma_method_names();
    if let Ok(h) = head_spec(d, false) {
        let (rl, hb) = crate::http::head::frame(d)->0;
        let ts = crate::http::head::tokens(d.subrange(0, rl));
        assert(ts.len() > 0);
        assert(crate::http::head::method_code(ts[0], false) == Some(h.method));
    }
}

/// `Cookie` in ASCII.
pub open spec fn cookie_header_name() -> Seq<u8> {
    seq![67u8, 111u8, 111u8, 107u8, 105u8, 101u8]
}

/// The value of cookie `name` in a header map: the `Cookie` header (the last
/// one, any case) read as pairs; `None` when it is missing or malformed,
/// otherwise the first pair named exactly `name`.
pub open spec fn cookie_value_spec(headers: Seq<(Seq<u8>, Seq<u8>)>, name: Seq<u8>) -> Option<
    Seq<u8>,
> {
    match map_get(headers, cookie_header_name()) {
        None => None,
        Some(v) => match cookie_pairs(v) {
            None => None,
            Some(ps) => qmap_get(ps, name),
        },
    }
}

/// A parsed request, borrowing from the bytes it was read from.
pub struct Request<'buf> {
    method: HttpMethod,
    target_path: &'buf str,
    version: &'buf str,
    headers: Vec<(&'buf str, &'buf str)>,
    body: &'buf [u8],
    query: QueryMap<'buf>,
    path: &'buf str,
}

impl<'buf> View for Request<'buf> {
    type V = RequestModel;

    closed spec fn view(&self) -> RequestModel {
        RequestModel {
            method: self.method,
            target: self.target_path.spec_bytes(),
            version: self.version.spec_bytes(),
            headers: entries_view(self.headers@),
            body: self.body@,
            query: self.query@,
            path: self.path.spec_bytes(),
        }
    }
}

impl<'buf> Request<'buf> {
    pub fn method(&self) -> (r: &HttpMethod)
        ensures
            *r == self@.method,
    {
        &self.method
    }

    pub fn target_path(&self) -> (r: &str)
        ensures
            r.spec_bytes() == self@.target,
    {
        self.target_path
    }

    pub fn version(&self) -> (r: &str)
        ensures
            r.spec_bytes() == self@.version,
    {
        self.version
    }

    pub fn body(&self) -> (r: &[u8])
        ensures
            r@ == self@.body,
    {
        self.body
    }

    pub fn query(&self) -> (r: &QueryMap<'buf>)
        ensures
            r@ == self@.query,
    {
        &self.query
    }

    pub fn path(&self) -> (r: &str)
        ensures
            r.spec_bytes() == self@.path,
    {
        self.path
    }

    /// The value of header `name`, matched without regard to ASCII case.
    pub fn get_header(&self, name: &str) -> (r: Option<&str>)
        ensures
            match r {
                Some(v) => map_get(self@.headers, name.spec_bytes()) == Some(v.spec_bytes()),
                None => map_get(self@.headers, name.spec_bytes()) is None,
            },
    {
        header_get(&self.headers, name)
    }

    /// Reads a request from its bytes (see `parse_spec`).
    pub fn parse(data_buffer: &'buf [u8]) -> (r: Result<Request<'buf>, HttpError>)
        ensures
            match r {
                Ok(req) => parse_spec(data_buffer@) == Ok::<RequestModel, HttpError>(req@),
                Err(e) => parse_spec(data_buffer@) == Err::<RequestModel, HttpError>(e),
            },
    {
        let head = match parse_head(data_buffer, false) {
            Ok(h) => h,
            Err(e) => {
                return Err(to_http_error(e));
            },
        };
        let (path, entries) = match parse_query(head.target) {
            Some(x) => x,
            None => {
                return Err(HttpError::RequestRouteInvalid);
            },
        };
        let n = data_buffer.len();
        match check_body(n, head.content_length, head.body_start) {
            Ok(()) => {},
            Err(e) => {
                return Err(to_http_error(e));
            },
        }
        let body = &data_buffer[head.body_start..n];
        proof {
            assert(head.method == 0 || head.method == 1);
        }
        let method = if head.method == 0 {
            HttpMethod::Get
        } else {
            HttpMethod::Post
        };
        let req = Request {
            method,
            target_path: head.target,
            version: head.version,
            headers: head.headers,
            body,
            query: QueryMap { entries },
            path,
        };
        Ok(req)
    }

    /// The value of cookie `name` (see `cookie_value_spec`), as an owned string.
    pub fn get_cookie_value(&self, name: &str) -> (r: Option<String>)
        ensures
            match r {
                Some(s) => cookie_value_spec(self@.headers, name.spec_bytes()) == Some(
                    encode_utf8(s@),
                ),
                None => cookie_value_spec(self@.headers, name.spec_bytes()) is None,
            },
    {
        proof {
            reveal_strlit("Cookie");
            vstd::utf8::is_ascii_chars_encode_utf8("Cookie"@);
            assert("Cookie".spec_bytes() =~= cookie_header_name());
        }
        let header = match header_get(&self.headers, "Cookie") {
            Some(v) => v,
            None => {
                return None;
            },
        };
        let pairs = match parse_cookie(header) {
            Ok(p) => p,
            Err(_) => {
                return None;
            },
        };
        let ghost ps = cookie_pairs(header.spec_bytes())->0;
        assert(entries_view(pairs@) =~= ps);
        match qmap_find_exec(&pairs, name.as_bytes()) {
            Some(k) => {
                proof {
                    lemma_qmap_find_bound(ps, name.spec_bytes());
                }
                let v = pairs[k].1;
                Some(v.to_owned())
            },
            None => None,
        }
    }
}

// ---------------------------------------------------------------------------
// Form bodies
// ---------------------------------------------------------------------------

/// `Content-Type` in ASCII.
pub open spec fn content_type_name() -> Seq<u8> {
    seq![67u8, 111u8, 110u8, 116u8, 101u8, 110u8, 116u8, 45u8, 84u8, 121u8, 112u8, 101u8]
}

/// `application/x-www-form-urlencoded` in ASCII.
pub open spec fn form_media_type() -> Seq<u8> {
    seq![
        97u8, 112u8, 112u8, 108u8, 105u8, 99u8, 97u8, 116u8, 105u8, 111u8, 110u8, 47u8,
        120u8, 45u8, 119u8, 119u8, 119u8, 45u8, 102u8, 111u8, 114u8, 109u8, 45u8,
        117u8, 114u8, 108u8, 101u8, 110u8, 99u8, 111u8, 100u8, 101u8, 100u8,
    ]
}

/// A content type up to its first `;` (its parameters dropped).
pub open spec fn media_type(ct: Seq<u8>) -> Seq<u8> {
    match find_first(ct, 59) {
        Some(i) => ct.subrange(0, i),
        None => ct,
    }
}

/// A form name or value decoded (see `form_decode_bytes`), when the result is
/// valid UTF-8.
pub open spec fn form_text(b: Seq<u8>) -> Option<Seq<u8>> {
    match form_decode_bytes(b) {
        Some(x) => if valid_utf8(x) {
            Some(x)
        } else {
            None
        },
        None => None,
    }
}

/// One `name=value` field of a form body: split at the first `=`; the name
/// must not be empty; both parts decoded.
pub open spec fn form_piece(p: Seq<u8>) -> Result<(Seq<u8>, Seq<u8>), HttpError> {
    match find_first(p, 61) {
        None => Err(HttpError::FormParseError),
        Some(e) => if e == 0 {
            Err(HttpError::FormFieldMissingName)
        } else {
            match form_text(p.subrange(0, e)) {
                None => Err(HttpError::FormParseError),
                Some(n) => match form_text(p.subrange(e + 1, p.len() as int)) {
                    None => Err(HttpError::FormParseError),
                    Some(v) => Ok((n, v)),
                },
            }
        },
    }
}

/// The fields read in order into a map keyed by decoded name, later fields
/// replacing earlier ones; the first malformed field refuses the form.
pub open spec fn form_fold(ps: Seq<Seq<u8>>) -> Result<Seq<(Seq<u8>, Seq<u8>)>, HttpError>
    decreases ps.len(),
{
    if ps.len() == 0 {
        Ok(seq![])
    } else {
        match form_fold(ps.drop_last()) {
            Err(e) => Err(e),
            Ok(m) => match form_piece(ps.last()) {
                Err(e) => Err(e),
                Ok((k, v)) => Ok(qmap_insert(m, k, v)),
            },
        }
    }
}

/// The form a request carries: its `Content-Type` must name
/// `application/x-www-form-urlencoded` (any case, parameters and white space
/// ignored), its body must be UTF-8, and the trimmed body is split at `&` into
/// fields.
pub open spec fn form_spec(r: RequestModel) -> Result<Seq<(Seq<u8>, Seq<u8>)>, HttpError> {
    match map_get(r.headers, content_type_name()) {
        None => Err(HttpError::FormParseError),
        Some(ct) => if !eq_ignore_case(trim(media_type(ct), true), form_media_type()) {
            Err(HttpError::FormParseError)
        } else if !valid_utf8(r.body) {
            Err(HttpError::InvalidUtf8)
        } else {
            form_fold(split_bytes(trim(r.body, true), 38))
        },
    }
}

/// The values of `fields` taken in order out of form map `m`, each taken
/// field leaving the map; `Err(i)` when field `i` is not (or no longer) there.
pub open spec fn extract_spec(m: Seq<(Seq<u8>, Seq<u8>)>, fields: Seq<Seq<u8>>) -> Result<
    Seq<Seq<u8>>,
    int,
>
    decreases fields.len(),
{
    if fields.len() == 0 {
        Ok(seq![])
    } else {
        match qmap_find(m, fields[0]) {
            None => Err(0),
            Some(k) => match extract_spec(m.remove(k), fields.drop_first()) {
                Ok(vs) => Ok(seq![m[k].1] + vs),
                Err(i) => Err(i + 1),
            },
        }
    }
}

pub open spec fn strings_view(v: Seq<String>) -> Seq<Seq<u8>> {
    Seq::new(v.len(), |i: int| encode_utf8(v[i]@))
}

pub open spec fn strs_view(v: Seq<&str>) -> Seq<Seq<u8>> {
    Seq::new(v.len(), |i: int| v[i].spec_bytes())
}

pub open spec fn fentries_view(v: Seq<(String, String)>) -> Seq<(Seq<u8>, Seq<u8>)> {
    Seq::new(v.len(), |i: int| (encode_utf8(v[i].0@), encode_utf8(v[i].1@)))
}

proof fn lemma_form_fold_err(ps: Seq<Seq<u8>>, k: int)
    requires
        0 <= k <= ps.len(),
        form_fold(ps.subrange(0, k)) is Err,
    ensures
        form_fold(ps) == form_fold(ps.subrange(0, k)),
    decreases ps.len(),
{
    if k < ps.len() {
        assert(ps.drop_last().subrange(0, k) =~= ps.subrange(0, k));
        lemma_form_fold_err(ps.drop_last(), k);
    } else {
        assert(ps.subrange(0, k) =~= ps);
    }
}

/// The index of the field named `key`.
fn fmap_find_exec(entries: &Vec<(String, String)>, key: &[u8]) -> (r: Option<usize>)
    ensures
        match r {
            Some(k) => qmap_find(fentries_view(entries@), key@) == Some(k as int),
            None => qmap_find(fentries_view(entries@), key@) is None,
        },
{
    let ghost m = fentries_view(entries@);
    let mut k: usize = 0;
    assert(m.subrange(0, m.len() as int) =~= m);
    while k < entries.len()
        invariant
            k <= entries@.len(),
            m == fentries_view(entries@),
            qmap_find(m, key@) == match qmap_find(m.subrange(k as int, m.len() as int), key@) {
                Some(i) => Some(i + k),
                None => None,
            },
        decreases entries@.len() - k,
    {
        let eb = entries[k].0.as_str().as_bytes();
        let ghost rest = m.subrange(k as int, m.len() as int);
        assert(rest[0] == m[k as int]);
        if bytes_eq_exec(eb, key) {
            return Some(k);
        }
        assert(rest.subrange(1, rest.len() as int) =~= m.subrange(k + 1, m.len() as int));
        k += 1;
    }
    assert(m.subrange(k as int, m.len() as int).len() == 0);
    None
}

/// Sets field `key` to `value`.
fn fmap_insert_exec(entries: &mut Vec<(String, String)>, key: String, value: String)
    ensures
        fentries_view(final(entries)@) == qmap_insert(
            fentries_view(old(entries)@),
            encode_utf8(key@),
            encode_utf8(value@),
        ),
{
    let ghost m = fentries_view(entries@);
    match fmap_find_exec(entries, key.as_str().as_bytes()) {
        Some(k) => {
            proof {
                lemma_qmap_find_bound(m, encode_utf8(key@));
            }
            let ghost kv = key@;
            let ghost vv = value@;
            entries.set(k, (key, value));
            assert(fentries_view(entries@) =~= m.update(
                k as int,
                (encode_utf8(kv), encode_utf8(vv)),
            ));
        },
        None => {
            let ghost kv = key@;
            let ghost vv = value@;
            entries.push((key, value));
            assert(fentries_view(entries@) =~= m.push((encode_utf8(kv), encode_utf8(vv))));
        },
    }
}

/// Decodes a form name or value `b[lo..hi]` (see `form_text`).
fn form_text_exec(b: &[u8], lo: usize, hi: usize) -> (r: Result<String, HttpError>)
    requires
        lo <= hi <= b@.len(),
    ensures
        match r {
            Ok(s) => form_text(b@.subrange(lo as int, hi as int)) == Some(encode_utf8(s@)),
            Err(e) => form_text(b@.subrange(lo as int, hi as int)) is None && e
                == HttpError::FormParseError,
        },
{
    let r = decode_form(&b[lo..hi]);
    proof {
        if r is Ok {
            decode_utf8_encode_utf8(form_decode_bytes(b@.subrange(lo as int, hi as int))->0);
        }
    }
    r
}

/// One field `b[lo..hi]` (see `form_piece`).
fn form_piece_exec(b: &[u8], lo: usize, hi: usize) -> (r: Result<(String, String), HttpError>)
    requires
        lo <= hi <= b@.len(),
    ensures
        match r {
            Ok((n, v)) => form_piece(b@.subrange(lo as int, hi as int)) == Ok::<
                (Seq<u8>, Seq<u8>),
                HttpError,
            >((encode_utf8(n@), encode_utf8(v@))),
            Err(e) => form_piece(b@.subrange(lo as int, hi as int)) == Err::<
                (Seq<u8>, Seq<u8>),
                HttpError,
            >(e),
        },
{
    let ghost p = b@.subrange(lo as int, hi as int);
    match find_byte(b, lo, hi, 61) {
        None => Err(HttpError::FormParseError),
        Some(e) => {
            if e == lo {
                return Err(HttpError::FormFieldMissingName);
            }
            assert(p.subrange(0, e - lo) =~= b@.subrange(lo as int, e as int));
            assert(p.subrange(e - lo + 1, p.len() as int) =~= b@.subrange(e + 1, hi as int));
            let name = match form_text_exec(b, lo, e) {
                Ok(s) => s,
                Err(err) => {
                    return Err(err);
                },
            };
            let value = match form_text_exec(b, e + 1, hi) {
                Ok(s) => s,
                Err(err) => {
                    return Err(err);
                },
            };
            Ok((name, value))
        },
    }
}

/// The fields of `b[lo..hi]`, split at `&` (see `form_fold`).
fn form_fields(b: &[u8], lo: usize, hi: usize) -> (r: Result<Vec<(String, String)>, HttpError>)
    requires
        lo <= hi <= b@.len(),
    ensures
        match r {
            Ok(v) => form_fold(split_bytes(b@.subrange(lo as int, hi as int), 38)) == Ok::<
                Seq<(Seq<u8>, Seq<u8>)>,
                HttpError,
            >(fentries_view(v@)),
            Err(e) => form_fold(split_bytes(b@.subrange(lo as int, hi as int), 38)) == Err::<
                Seq<(Seq<u8>, Seq<u8>)>,
                HttpError,
            >(e),
        },
{
    let ghost d = b@.subrange(lo as int, hi as int);
    let n = hi - lo;
    let mut entries: Vec<(String, String)> = Vec::new();
    let mut seg: usize = 0;
    let mut j: usize = 0;
    proof {
        assert(d.subrange(0, 0) =~= Seq::<u8>::empty());
        assert(split_bytes(Seq::<u8>::empty(), 38).drop_last() =~= Seq::<Seq<u8>>::empty());
        assert(fentries_view(entries@) =~= Seq::<(Seq<u8>, Seq<u8>)>::empty());
    }
    while j < n
        invariant
            lo <= hi <= b@.len(),
            n == hi - lo,
            d == b@.subrange(lo as int, hi as int),
            seg <= j <= n,
            split_bytes(d.subrange(0, j as int), 38).last() == d.subrange(seg as int, j as int),
            form_fold(split_bytes(d.subrange(0, j as int), 38).drop_last()) == Ok::<
                Seq<(Seq<u8>, Seq<u8>)>,
                HttpError,
            >(fentries_view(entries@)),
        decreases n - j,
    {
        proof {
            lemma_split_nonempty(d.subrange(0, j as int), 38);
        }
        if b[lo + j] == 38 {
            let ghost prev = split_bytes(d.subrange(0, j as int), 38);
            proof {
                lemma_split_at_sep(d, 38, j as int);
                assert(prev.push(Seq::<u8>::empty()).drop_last() =~= prev);
                assert(prev =~= prev.drop_last().push(prev.last()));
                assert(b@.subrange(lo + seg, lo + j) =~= d.subrange(seg as int, j as int));
            }
            match form_piece_exec(b, lo + seg, lo + j) {
                Ok((k, v)) => {
                    fmap_insert_exec(&mut entries, k, v);
                },
                Err(e) => {
                    proof {
                        lemma_split_prefix_stable(d, 38, j + 1, n as int);
                        assert(d.subrange(0, n as int) =~= d);
                        let all = split_bytes(d, 38);
                        assert(all.subrange(0, prev.len() as int) =~= prev);
                        lemma_form_fold_err(all, prev.len() as int);
                    }
                    return Err(e);
                },
            }
            seg = j + 1;
            j += 1;
            assert(d.subrange(seg as int, j as int) =~= Seq::<u8>::empty());
        } else {
            proof {
                lemma_split_last_extend(d, 38, seg as int, j as int);
                let p1 = split_bytes(d.subrange(0, j + 1), 38);
                let p0 = split_bytes(d.subrange(0, j as int), 38);
                assert(p1.drop_last() =~= p0.drop_last());
            }
            j += 1;
        }
    }
    let ghost all = split_bytes(d, 38);
    proof {
        assert(d.subrange(0, n as int) =~= d);
        lemma_split_nonempty(d, 38);
        assert(all =~= all.drop_last().push(all.last()));
        assert(b@.subrange(lo + seg, hi as int) =~= d.subrange(seg as int, n as int));
    }
    match form_piece_exec(b, lo + seg, hi) {
        Ok((k, v)) => {
            fmap_insert_exec(&mut entries, k, v);
            Ok(entries)
        },
        Err(e) => Err(e),
    }
}

/// `[T; N]` holding the items of `v` in order (`<[T; N]>::try_from`).
#[verifier::external_body]
fn vec_into_array<T, const N: usize>(v: Vec<T>) -> (r: [T; N])
    requires
        v@.len() == N,
    ensures
        r@ == v@,
{
    let a: Option<[T; N]> = v.try_into().ok();
    a.unwrap()
}

impl<'buf> Request<'buf> {
    /// The form this request carries (see `form_spec`).
    fn parse_form(&self) -> (r: Result<Vec<(String, String)>, HttpError>)
        ensures
            match r {
                Ok(v) => form_spec(self@) == Ok::<Seq<(Seq<u8>, Seq<u8>)>, HttpError>(
                    fentries_view(v@),
                ),
                Err(e) => form_spec(self@) == Err::<Seq<(Seq<u8>, Seq<u8>)>, HttpError>(e),
            },
    {
        proof {
            reveal_strlit("Content-Type");
            vstd::utf8::is_ascii_chars_encode_utf8("Content-Type"@);
            assert("Content-Type".spec_bytes() =~= content_type_name());
            reveal_strlit("application/x-www-form-urlencoded");
            vstd::utf8::is_ascii_chars_encode_utf8("application/x-www-form-urlencoded"@);
            assert("application/x-www-form-urlencoded".spec_bytes() =~= form_media_type());
        }
        let ct = match header_get(&self.headers, "Content-Type") {
            Some(v) => v,
            None => {
                return Err(HttpError::FormParseError);
            },
        };
        let cb = ct.as_bytes();
        let cn = cb.len();
        assert(cb@.subrange(0, cn as int) =~= cb@);
        let end = match find_byte(cb, 0, cn, 59) {
            Some(i) => i,
            None => cn,
        };
        assert(cb@.subrange(0, end as int) == media_type(cb@));
        let (ms, me) = trim_range(cb, 0, end, true);
        if !eq_ignore_case_exec(&cb[ms..me], "application/x-www-form-urlencoded".as_bytes()) {
            return Err(HttpError::FormParseError);
        }
        let body = self.body;
        if str_from_utf8(body).is_err() {
            return Err(HttpError::InvalidUtf8);
        }
        let bn = body.len();
        assert(body@.subrange(0, bn as int) =~= body@);
        let (bs, be) = trim_range(body, 0, bn, true);
        form_fields(body, bs, be)
    }

    /// The values of form `fields`, in the order asked (see `form_spec` and
    /// `extract_spec`); a field that is missing, or asked twice, is reported
    /// by name.
    fn extract_fields(&self, fields: &[&str]) -> (r: Result<Vec<String>, HttpError>)
        ensures
            match r {
                Ok(v) => form_spec(self@) matches Ok(m) && extract_spec(m, strs_view(fields@))
                    == Ok::<Seq<Seq<u8>>, int>(strings_view(v@)),
                Err(HttpError::FormMissingField(f)) => form_spec(self@) matches Ok(m)
                    && extract_spec(m, strs_view(fields@)) matches Err(i) && 0 <= i < fields@.len()
                    && f@ == fields@[i]@,
                Err(e) => form_spec(self@) == Err::<Seq<(Seq<u8>, Seq<u8>)>, HttpError>(e),
            },
    {
        let mut map = match self.parse_form() {
            Ok(m) => m,
            Err(e) => {
                proof {
                    lemma_form_errors(self@);
                }
                return Err(e);
            },
        };
        let ghost m0 = fentries_view(map@);
        let ghost fs = strs_view(fields@);
        let mut values: Vec<String> = Vec::new();
        let mut i: usize = 0;
        assert(fs.subrange(0, fs.len() as int) =~= fs);
        assert(strings_view(values@) =~= Seq::<Seq<u8>>::empty());
        while i < fields.len()
            invariant
                i <= fields@.len(),
                fs == strs_view(fields@),
                form_spec(self@) == Ok::<Seq<(Seq<u8>, Seq<u8>)>, HttpError>(m0),
                extract_spec(m0, fs) == match extract_spec(
                    fentries_view(map@),
                    fs.subrange(i as int, fs.len() as int),
                ) {
                    Ok(vs) => Ok(strings_view(values@) + vs),
                    Err(j) => Err(j + i),
                },
            decreases fields@.len() - i,
        {
            let field = fields[i];
            let ghost cur = fentries_view(map@);
            let ghost rest = fs.subrange(i as int, fs.len() as int);
            assert(rest[0] == field.spec_bytes());
            assert(rest.drop_first() =~= fs.subrange(i + 1, fs.len() as int));
            match fmap_find_exec(&map, field.as_bytes()) {
                Some(k) => {
                    proof {
                        lemma_qmap_find_bound(cur, field.spec_bytes());
                    }
                    let (_, value) = map.remove(k);
                    assert(fentries_view(map@) =~= cur.remove(k as int));
                    let ghost before = strings_view(values@);
                    let ghost vb = encode_utf8(value@);
                    assert(vb == cur[k as int].1);
                    values.push(value);
                    proof {
                        assert(strings_view(values@) =~= before.push(vb));
                        assert forall|vs: Seq<Seq<u8>>| #[trigger] (before + (seq![vb] + vs))
                            =~= before.push(vb) + vs by {}
                    }
                },
                None => {
                    return Err(HttpError::FormMissingField(field.to_owned()));
                },
            }
            i += 1;
        }
        assert(fs.subrange(i as int, fs.len() as int) =~= Seq::<Seq<u8>>::empty());
        assert(strings_view(values@) + Seq::<Seq<u8>>::empty() =~= strings_view(values@));
        Ok(values)
    }

    /// The values of form `fields`, in the order asked (see `extract_fields`).
    pub fn extract_form<const N: usize>(&self, fields: [&str; N]) -> (r: Result<
        [String; N],
        HttpError,
    >)
        ensures
            match r {
                Ok(a) => form_spec(self@) matches Ok(m) && extract_spec(m, strs_view(fields@))
                    == Ok::<Seq<Seq<u8>>, int>(strings_view(a@)),
                Err(HttpError::FormMissingField(f)) => form_spec(self@) matches Ok(m)
                    && extract_spec(m, strs_view(fields@)) matches Err(i) && 0 <= i < N && f@
                    == fields@[i]@,
                Err(e) => form_spec(self@) == Err::<Seq<(Seq<u8>, Seq<u8>)>, HttpError>(e),
            },
    {
        let fs: &[&str] = &fields;
        match self.extract_fields(fs) {
            Ok(values) => {
                proof {
                    lemma_extract_len(
                        form_spec(self@)->Ok_0,
                        strs_view(fields@),
                    );
                }
                let a: [String; N] = vec_into_array(values);
                Ok(a)
            },
            Err(e) => Err(e),
        }
    }
}

proof fn lemma_form_fold_errors(ps: Seq<Seq<u8>>)
    ensures
        form_fold(ps) matches Err(e) ==> e == HttpError::FormParseError || e
            == HttpError::FormFieldMissingName,
    decreases ps.len(),
{
    if ps.len() > 0 {
        lemma_form_fold_errors(ps.drop_last());
    }
}

/// A form is never refused for a missing field: that only happens when
/// fields are taken out of it.
proof fn lemma_form_errors(r: RequestModel)
    ensures
        form_spec(r) matches Err(e) ==> e !is FormMissingField,
{
    lemma_form_fold_errors(split_bytes(trim(r.body, true), 38));
}

proof fn lemma_extract_len(m: Seq<(Seq<u8>, Seq<u8>)>, fields: Seq<Seq<u8>>)
    ensures
        extract_spec(m, fields) matches Ok(vs) ==> vs.len() == fields.len(),
        extract_spec(m, fields) matches Err(i) ==> 0 <= i < fields.len(),
    decreases fields.len(),
{
    if fields.len() > 0 {
        match qmap_find(m, fields[0]) {
            None => {},
            Some(k) => {
                lemma_extract_len(m.remove(k), fields.drop_first());
            },
        }
    }
}

// ---------------------------------------------------------------------------
// Laws
// ---------------------------------------------------------------------------

/// A key set last reads back with the value it was set to, and setting it
/// changes no other key: so a repeated query parameter or form field keeps
/// its last value.
pub proof fn lemma_last_value_wins(m: Seq<(Seq<u8>, Seq<u8>)>, k: Seq<u8>, v: Seq<u8>, other: Seq<u8>)
    requires
        other != k,
    ensures
        qmap_get(qmap_insert(m, k, v), k) == Some(v),
        qmap_get(qmap_insert(m, k, v), other) == qmap_get(m, other),
{
    lemma_qmap_find_bound(m, k);
    let m2 = qmap_insert(m, k, v);
    lemma_qmap_find_bound(m2, k);
    lemma_qmap_find_bound(m2, other);
    lemma_qmap_find_bound(m, other);
    lemma_first_match(m2, k);
    lemma_first_match(m2, other);
    lemma_first_match(m, other);
    lemma_first_match(m, k);
    match qmap_find(m, k) {
        Some(i) => {
            assert(m2 == m.update(i, (k, v)));
            assert(m2[i].0 == k);
        },
        None => {
            assert(m2 == m.push((k, v)));
            assert(m2[m.len() as int].0 == k);
        },
    }
    assert forall|l: int| 0 <= l < m.len() && m[l].0 != k implies m2[l] == m[l] by {}
    assert forall|l: int| 0 <= l < m2.len() && (#[trigger] m2[l]).0 == other implies l < m.len()
        && m[l] == m2[l] by {}
    match qmap_find(m, other) {
        Some(j) => {
            assert(m2[j] == m[j]);
            assert forall|l: int| 0 <= l < j implies (#[trigger] m2[l]).0 != other by {
                assert(m[l].0 != other);
            }
        },
        None => {
            if qmap_find(m2, other) is Some {
                let j = qmap_find(m2, other)->0;
                assert(m2[j].0 == other);
                assert(m[j].0 == other);
            }
        },
    }
}

/// `qmap_find` gives the first entry with the key.
proof fn lemma_first_match(m: Seq<(Seq<u8>, Seq<u8>)>, k: Seq<u8>)
    ensures
        qmap_find(m, k) matches Some(i) ==> forall|j: int| 0 <= j < i ==> (#[trigger] m[j]).0 != k,
        qmap_find(m, k) is None ==> forall|j: int| 0 <= j < m.len() ==> (#[trigger] m[j]).0 != k,
        forall|i: int|
            0 <= i < m.len() && (#[trigger] m[i]).0 == k && (forall|j: int|
                0 <= j < i ==> (#[trigger] m[j]).0 != k) ==> qmap_find(m, k) == Some(i),
    decreases m.len(),
{
    lemma_qmap_find_bound(m, k);
    if m.len() > 0 && m[0].0 != k {
        let t = m.subrange(1, m.len() as int);
        lemma_first_match(t, k);
        assert forall|j: int| 0 <= j < m.len() && qmap_find(m, k) is None implies (#[trigger] m[
            j]).0 != k by {
            if j > 0 {
                assert(m[j] == t[j - 1]);
            }
        }
        assert forall|i: int|
            0 <= i < m.len() && (#[trigger] m[i]).0 == k && (forall|j: int|
                0 <= j < i ==> (#[trigger] m[j]).0 != k) implies qmap_find(m, k) == Some(i) by {
            assert(i > 0);
            assert(t[i - 1] == m[i]);
            assert forall|j: int| 0 <= j < i - 1 implies (#[trigger] t[j]).0 != k by {
                assert(t[j] == m[j + 1]);
            }
        }
        assert forall|j: int|
            0 <= j < qmap_find(m, k)->0 && qmap_find(m, k) is Some implies (#[trigger] m[j]).0
            != k by {
            if j > 0 {
                assert(m[j] == t[j - 1]);
            }
        }
    }
}

/// Of several pairs with one name, the first is the one read: a `Cookie`
/// header naming a cookie twice gives its first value.
pub proof fn lemma_first_value_read(m: Seq<(Seq<u8>, Seq<u8>)>, k: Seq<u8>, i: int)
    requires
        0 <= i < m.len(),
        m[i].0 == k,
        forall|j: int| 0 <= j < i ==> (#[trigger] m[j]).0 != k,
    ensures
        qmap_get(m, k) == Some(m[i].1),
{
    lemma_first_match(m, k);
}

/// A request that is accepted is an `HTTP/1.1` request whose path starts
/// its target, and its body is empty unless a `Content-Length` was given.
pub proof fn lemma_accepted_request(d: Seq<u8>)
    ensures
        parse_spec(d) matches Ok(r) ==> r.version == crate::http::head::http11() && r.path.len()
            <= r.target.len() && r.target.subrange(0, r.path.len() as int) == r.path,
{
    if let Ok(h) = head_spec(d, false) {
        match find_first(h.target, 63) {
            None => {
                assert(h.target.subrange(0, h.target.len() as int) =~= h.target);
            },
            Some(q) => {
                crate::bytes::lemma_find_first_bound(h.target, 63);
                assert(h.target.subrange(0, q).subrange(0, q) =~= h.target.subrange(0, q));
            },
        }
    }
}

/// The body of an accepted request is exactly as long as its
/// `Content-Length` header says (its number once trimmed of white space),
/// and empty without one.
pub proof fn lemma_body_matches_content_length(d: Seq<u8>)
    ensures
        parse_spec(d) matches Ok(r) ==> match map_get(
            r.headers,
            crate::http::head::content_length_name(),
        ) {
            Some(v) => crate::bytes::parse_unsigned(crate::bytes::trim(v, true), usize::MAX as nat)
                == Some(r.body.len()),
            None => r.body.len() == 0,
        },
{
    if let Ok(h) = head_spec(d, false) {
        crate::http::head::lemma_scan_bounds(d, 0, 0);
        let (rl, hb) = crate::http::head::frame(d)->0;
        let block = d.subrange(rl + 2, hb);
        let lines = crate::http::head::split_crlf(block);
        crate::http::head::lemma_declared_length(lines);
        assert(crate::http::head::headers_spec(block) == Ok::<
            (Option<nat>, Seq<(Seq<u8>, Seq<u8>)>),
            crate::http::head::HeadError,
        >((h.content_length, h.headers)));
        assert(crate::http::head::headers_fold(lines) == Ok::<
            (Option<nat>, Seq<(Seq<u8>, Seq<u8>)>),
            crate::http::head::HeadError,
        >((h.content_length, h.headers)));
        assert(0 <= h.body_start <= d.len());
    }
}

} // verus!
