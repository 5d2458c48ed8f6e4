//! HTTP/1.1 responses: status, headers and body, and their bytes on the wire.
use vstd::prelude::*;
use vstd::utf8::*;
use vstd::string::StringSliceAdditionalSpecFns;
use crate::bytes::{decimal, eq_ignore_case, eq_ignore_case_exec, push_decimal};
use crate::http::error::HttpError;
use crate::http::head::content_length_name;

verus! {

/// The statuses this server answers with.
#[derive(Debug, Clone, Copy, PartialEq, Eq, Structural)]
pub enum StatusCode {
    Okay,
    SeeOther,
    BadRequest,
    NotFound,
    MethodNotAllowed,
    InternalServerError,
}

pub open spec fn status_number(s: StatusCode) -> u16 {
    match s {
        StatusCode::Okay => 200,
        StatusCode::SeeOther => 303,
        StatusCode::BadRequest => 400,
        StatusCode::NotFound => 404,
        StatusCode::MethodNotAllowed => 405,
        StatusCode::InternalServerError => 500,
    }
}

pub open spec fn reason_text(s: StatusCode) -> Seq<u8> {
    match s {
        StatusCode::Okay => "OK".spec_bytes(),
        StatusCode::SeeOther => "See Other".spec_bytes(),
        StatusCode::BadRequest => "Bad Request".spec_bytes(),
        StatusCode::NotFound => "Not Found".spec_bytes(),
        StatusCode::MethodNotAllowed => "Method Not Allowed".spec_bytes(),
        StatusCode::InternalServerError => "Internal Server Error".spec_bytes(),
    }
}

/// Every status is sent with its registered number and reason phrase:
/// 200 OK, 303 See Other, 400 Bad Request, 404 Not Found, 405 Method Not
/// Allowed and 500 Internal Server Error.
pub proof fn lemma_status_registry(s: StatusCode)
    ensures
        s == StatusCode::Okay ==> status_number(s) == 200 && reason_text(s) == "OK".spec_bytes(),
        s == StatusCode::SeeOther ==> status_number(s) == 303 && reason_text(s)
            == "See Other".spec_bytes(),
        s == StatusCode::BadRequest ==> status_number(s) == 400 && reason_text(s)
            == "Bad Request".spec_bytes(),
        s == StatusCode::NotFound ==> status_number(s) == 404 && reason_text(s)
            == "Not Found".spec_bytes(),
        s == StatusCode::MethodNotAllowed ==> status_number(s) == 405 && reason_text(s)
            == "Method Not Allowed".spec_bytes(),
        s == StatusCode::InternalServerError ==> status_number(s) == 500 && reason_text(s)
            == "Internal Server Error".spec_bytes(),
{
}

impl StatusCode {
    /// The status number.
    pub fn as_u16(&self) -> (r: u16)
        ensures
            r == status_number(*self),
    {
        match self {
            StatusCode::Okay => 200,
            StatusCode::SeeOther => 303,
            StatusCode::BadRequest => 400,
            StatusCode::NotFound => 404,
            StatusCode::MethodNotAllowed => 405,
            StatusCode::InternalServerError => 500,
        }
    }

    /// The reason phrase of the status line.
    pub fn reason_phrase(&self) -> (r: &'static str)
        ensures
            r.spec_bytes() == reason_text(*self),
    {
        match self {
            StatusCode::Okay => "OK",
            StatusCode::SeeOther => "See Other",
            StatusCode::BadRequest => "Bad Request",
            StatusCode::NotFound => "Not Found",
            StatusCode::MethodNotAllowed => "Method Not Allowed",
            StatusCode::InternalServerError => "Internal Server Error",
        }
    }
}

/// A response to send.
pub struct Response {
    status_code: StatusCode,
    headers: Vec<(String, String)>,
    body_bytes: Vec<u8>,
}

/// What a response holds: its status, its headers in order (names and values
/// as UTF-8 bytes) and its body.
pub struct ResponseModel {
    pub status: StatusCode,
    pub headers: Seq<(Seq<u8>, Seq<u8>)>,
    pub body: Seq<u8>,
}

pub open spec fn owned_headers_view(v: Seq<(String, String)>) -> Seq<(Seq<u8>, Seq<u8>)> {
    Seq::new(v.len(), |i: int| (encode_utf8(v[i].0@), encode_utf8(v[i].1@)))
}

impl View for Response {
    type V = ResponseModel;

    closed spec fn view(&self) -> ResponseModel {
        ResponseModel {
            status: self.status_code,
            headers: owned_headers_view(self.headers@),
            body: self.body_bytes@,
        }
    }
}

/// The header lines of a response, each `name: value` and CRLF; a
/// `Content-Length` header set by hand is left out, since the serializer
/// writes its own.
pub open spec fn header_lines(hs: Seq<(Seq<u8>, Seq<u8>)>) -> Seq<u8>
    decreases hs.len(),
{
    if hs.len() == 0 {
        seq![]
    } else {
        let h = hs.last();
        header_lines(hs.drop_last()) + if eq_ignore_case(h.0, content_length_name()) {
            seq![]
        } else {
            h.0 + ": ".spec_bytes() + h.1 + "\r\n".spec_bytes()
        }
    }
}

/// The bytes of a response: the status line, the headers, `Content-Length`
/// with the body's length in bytes, `Connection: close`, a blank line, then
/// the body.
pub open spec fn wire_spec(r: ResponseModel) -> Seq<u8> {
    "HTTP/1.1 ".spec_bytes() + decimal(status_number(r.status) as nat) + " ".spec_bytes()
        + reason_text(r.status) + "\r\n".spec_bytes() + header_lines(r.headers)
        + "Content-Length: ".spec_bytes() + decimal(r.body.len()) + "\r\n".spec_bytes()
        + "Connection: close\r\n".spec_bytes() + "\r\n".spec_bytes() + r.body
}

/// A byte string holding CR or LF.
pub open spec fn has_line_break(b: Seq<u8>) -> bool {
    exists|i: int| 0 <= i < b.len() && (b[i] == 13 || b[i] == 10)
}

/// The headers whose value the serializer owns: `Content-Length`,
/// `Transfer-Encoding` and `Connection`, in any case.
pub open spec fn framing_header(n: Seq<u8>) -> bool {
    eq_ignore_case(n, content_length_name()) || eq_ignore_case(n, "Transfer-Encoding".spec_bytes())
        || eq_ignore_case(n, "Connection".spec_bytes())
}

/// ASCII text without CR or LF encodes to bytes with no line break.
pub proof fn lemma_no_line_break(s: Seq<char>)
    requires
        forall|i: int|
            0 <= i < s.len() ==> '\0' <= #[trigger] s[i] <= '\u{7f}' && s[i] != '\r' && s[i]
                != '\n',
    ensures
        !has_line_break(encode_utf8(s)),
{
    is_ascii_chars_encode_utf8(s);
    if has_line_break(encode_utf8(s)) {
        let i = choose|i: int|
            0 <= i < encode_utf8(s).len() && (encode_utf8(s)[i] == 13 || encode_utf8(s)[i] == 10);
        assert(s[i] as u8 == encode_utf8(s)[i]);
    }
}

/// Bytes joined end to end hold a line break exactly when one of the parts does.
pub proof fn lemma_line_break_concat(a: Seq<u8>, b: Seq<u8>)
    ensures
        has_line_break(a + b) == (has_line_break(a) || has_line_break(b)),
{
    if has_line_break(a) {
        let i = choose|i: int| 0 <= i < a.len() && (a[i] == 13 || a[i] == 10);
        assert((a + b)[i] == a[i]);
    }
    if has_line_break(b) {
        let i = choose|i: int| 0 <= i < b.len() && (b[i] == 13 || b[i] == 10);
        assert((a + b)[a.len() + i] == b[i]);
    }
    if has_line_break(a + b) {
        let i = choose|i: int| 0 <= i < (a + b).len() && ((a + b)[i] == 13 || (a + b)[i] == 10);
        if i < a.len() {
            assert(a[i] == (a + b)[i]);
        } else {
            assert(b[i - a.len()] == (a + b)[i]);
        }
    }
}

/// What adding or setting header `n: v` is refused with, if anything: a line
/// break anywhere gives `RequestHeaderInvalid`; a framing header gives
/// `RequestAddInvalidHeader` with its name.
pub open spec fn header_refused(n: Seq<u8>, v: Seq<u8>) -> bool {
    has_line_break(n) || has_line_break(v) || framing_header(n)
}

fn push_bytes(out: &mut Vec<u8>, s: &[u8])
    ensures
        final(out)@ == old(out)@ + s@,
{
    let ghost start = out@;
    let mut i: usize = 0;
    while i < s.len()
        invariant
            i <= s@.len(),
            out@ == start + s@.subrange(0, i as int),
        decreases s@.len() - i,
    {
        out.push(s[i]);
        assert(s@.subrange(0, i + 1) =~= s@.subrange(0, i as int).push(s@[i as int]));
        i += 1;
    }
    assert(s@.subrange(0, i as int) =~= s@);
}

fn has_line_break_exec(b: &[u8]) -> (r: bool)
    ensures
        r == has_line_break(b@),
{
    let mut i: usize = 0;
    while i < b.len()
        invariant
            i <= b@.len(),
            forall|k: int| 0 <= k < i ==> b@[k] != 13 && b@[k] != 10,
        decreases b@.len() - i,
    {
        if b[i] == 13 || b[i] == 10 {
            return true;
        }
        i += 1;
    }
    false
}

/// Checks a header before it is stored (see `header_refused`).
fn check_header(name: &str, value: &str) -> (r: Result<(), HttpError>)
    ensures
        match r {
            Ok(()) => !header_refused(name.spec_bytes(), value.spec_bytes()),
            Err(e) => header_refused(name.spec_bytes(), value.spec_bytes()) && if has_line_break(
                name.spec_bytes(),
            ) || has_line_break(value.spec_bytes()) {
                e == HttpError::RequestHeaderInvalid
            } else {
                e matches HttpError::RequestAddInvalidHeader(s) && s@ == name@
            },
        },
{
    if has_line_break_exec(name.as_bytes()) || has_line_break_exec(value.as_bytes()) {
        return Err(HttpError::RequestHeaderInvalid);
    }
    let nb = name.as_bytes();
    if eq_ignore_case_exec(nb, "Content-Length".as_bytes()) || eq_ignore_case_exec(
        nb,
        "Transfer-Encoding".as_bytes(),
    ) || eq_ignore_case_exec(nb, "Connection".as_bytes()) {
        proof {
            reveal_strlit("Content-Length");
            vstd::utf8::is_ascii_chars_encode_utf8("Content-Length"@);
            assert("Content-Length".spec_bytes() =~= content_length_name());
        }
        return Err(HttpError::RequestAddInvalidHeader(name.to_owned()));
    }
    proof {
        reveal_strlit("Content-Length");
        vstd::utf8::is_ascii_chars_encode_utf8("Content-Length"@);
        assert("Content-Length".spec_bytes() =~= content_length_name());
    }
    Ok(())
}

/// The headers with every header named `n` (any case) given value `v`.
pub open spec fn set_values(hs: Seq<(Seq<u8>, Seq<u8>)>, n: Seq<u8>, v: Seq<u8>) -> Seq<
    (Seq<u8>, Seq<u8>),
> {
    Seq::new(
        hs.len(),
        |i: int|
            if eq_ignore_case(hs[i].0, n) {
                (hs[i].0, v)
            } else {
                hs[i]
            },
    )
}

/// Setting a header gives every header named `n` (any case) the value `v`:
/// the headers keep their number, order and names, and every header of
/// another name is left as it was.
pub proof fn lemma_set_header_values(hs: Seq<(Seq<u8>, Seq<u8>)>, n: Seq<u8>, v: Seq<u8>)
    ensures
        set_values(hs, n, v).len() == hs.len(),
        forall|i: int|
            0 <= i < hs.len() ==> (#[trigger] set_values(hs, n, v)[i]).0 == hs[i].0,
        forall|i: int|
            0 <= i < hs.len() && eq_ignore_case(hs[i].0, n) ==> (#[trigger] set_values(
                hs,
                n,
                v,
            )[i]).1 == v,
        forall|i: int|
            0 <= i < hs.len() && !eq_ignore_case(hs[i].0, n) ==> #[trigger] set_values(
                hs,
                n,
                v,
            )[i] == hs[i],
{
}

impl Response {
    /// A response with no headers.
    pub fn new(status_code: StatusCode, body_bytes: Vec<u8>) -> (r: Self)
        ensures
            r@.status == status_code,
            r@.headers == Seq::<(Seq<u8>, Seq<u8>)>::empty(),
            r@.body == body_bytes@,
    {
        let r = Response { status_code, headers: Vec::new(), body_bytes };
        assert(r@.headers =~= Seq::<(Seq<u8>, Seq<u8>)>::empty());
        r
    }

    /// The bytes to send (see `wire_spec`).
    pub fn to_bytes(&self) -> (r: Vec<u8>)
        ensures
            r@ == wire_spec(self@),
    {
        let ghost m = self@;
        let mut out: Vec<u8> = Vec::new();
        push_bytes(&mut out, "HTTP/1.1 ".as_bytes());
        push_decimal(&mut out, self.status_code.as_u16() as u64);
        push_bytes(&mut out, " ".as_bytes());
        push_bytes(&mut out, self.status_code.reason_phrase().as_bytes());
        push_bytes(&mut out, "\r\n".as_bytes());
        let ghost start = out@;
        proof {
            reveal_strlit("Content-Length");
            vstd::utf8::is_ascii_chars_encode_utf8("Content-Length"@);
            assert("Content-Length".spec_bytes() =~= content_length_name());
        }
        let mut i: usize = 0;
        assert(m.headers.subrange(0, 0) =~= Seq::<(Seq<u8>, Seq<u8>)>::empty());
        assert(start + header_lines(m.headers.subrange(0, 0)) =~= start);
        while i < self.headers.len()
            invariant
                i <= self.headers@.len(),
                m == self@,
                m.headers == owned_headers_view(self.headers@),
                "Content-Length".spec_bytes() == content_length_name(),
                out@ == start + header_lines(m.headers.subrange(0, i as int)),
            decreases self.headers@.len() - i,
        {
            assert(m.headers.subrange(0, i + 1).drop_last() =~= m.headers.subrange(0, i as int));
            let name = self.headers[i].0.as_str();
            let value = self.headers[i].1.as_str();
            if !eq_ignore_case_exec(name.as_bytes(), "Content-Length".as_bytes()) {
                push_bytes(&mut out, name.as_bytes());
                push_bytes(&mut out, ": ".as_bytes());
                push_bytes(&mut out, value.as_bytes());
                push_bytes(&mut out, "\r\n".as_bytes());
            }
            i += 1;
        }
        assert(m.headers.subrange(0, i as int) =~= m.headers);
        push_bytes(&mut out, "Content-Length: ".as_bytes());
        push_decimal(&mut out, self.body_bytes.len() as u64);
        push_bytes(&mut out, "\r\n".as_bytes());
        push_bytes(&mut out, "Connection: close\r\n".as_bytes());
        push_bytes(&mut out, "\r\n".as_bytes());
        push_bytes(&mut out, self.body_bytes.as_slice());
        out
    }

    /// Adds header `name: value` (see `header_refused`); a refused header
    /// leaves the response as it was.
    pub fn add_header(&mut self, name: &str, value: &str) -> (r: Result<(), HttpError>)
        ensures
            match r {
                Ok(()) => !header_refused(name.spec_bytes(), value.spec_bytes()) && final(self)@
                    == (ResponseModel {
                    headers: old(self)@.headers.push((name.spec_bytes(), value.spec_bytes())),
                    ..old(self)@
                }),
                Err(e) => header_refused(name.spec_bytes(), value.spec_bytes()) && final(self)@
                    == old(self)@ && if has_line_break(name.spec_bytes()) || has_line_break(
                    value.spec_bytes(),
                ) {
                    e == HttpError::RequestHeaderInvalid
                } else {
                    e matches HttpError::RequestAddInvalidHeader(s) && s@ == name@
                },
            },
    {
        match check_header(name, value) {
            Ok(()) => {},
            Err(e) => {
                return Err(e);
            },
        }
        let ghost before = self.headers@;
        self.headers.push((name.to_owned(), value.to_owned()));
        assert(owned_headers_view(self.headers@) =~= owned_headers_view(before).push(
            (name.spec_bytes(), value.spec_bytes()),
        ));
        Ok(())
    }

    /// Gives every header named `name` (any case) the value `value` (see
    /// `set_values`); the same checks as `add_header` apply.
    pub fn set_header(&mut self, name: &str, value: &str) -> (r: Result<(), HttpError>)
        ensures
            match r {
                Ok(()) => !header_refused(name.spec_bytes(), value.spec_bytes()) && final(self)@
                    == (ResponseModel {
                    headers: set_values(old(self)@.headers, name.spec_bytes(), value.spec_bytes()),
                    ..old(self)@
                }) && final(self)@.headers.len()
                    == old(self)@.headers.len() && (forall|i: int|
                    0 <= i < old(self)@.headers.len() && eq_ignore_case(
                        old(self)@.headers[i].0,
                        name.spec_bytes(),
                    ) ==> (#[trigger] final(self)@.headers[i]) == (
                        old(self)@.headers[i].0,
                        value.spec_bytes(),
                    )) && (forall|i: int|
                    0 <= i < old(self)@.headers.len() && !eq_ignore_case(
                        old(self)@.headers[i].0,
                        name.spec_bytes(),
                    ) ==> (#[trigger] final(self)@.headers[i]) == old(self)@.headers[i]),
                Err(e) => header_refused(name.spec_bytes(), value.spec_bytes()) && final(self)@
                    == old(self)@ && if has_line_break(name.spec_bytes()) || has_line_break(
                    value.spec_bytes(),
                ) {
                    e == HttpError::RequestHeaderInvalid
                } else {
                    e matches HttpError::RequestAddInvalidHeader(s) && s@ == name@
                },
            },
    {
        match check_header(name, value) {
            Ok(()) => {},
            Err(e) => {
                return Err(e);
            },
        }
        let ghost old_hs = owned_headers_view(self.headers@);
        let ghost target = set_values(old_hs, name.spec_bytes(), value.spec_bytes());
        let mut i: usize = 0;
        while i < self.headers.len()
            invariant
                i <= self.headers@.len(),
                self.status_code == old(self).status_code,
                self.body_bytes@ == old(self).body_bytes@,
                old_hs == owned_headers_view(old(self).headers@),
                old_hs.len() == self.headers@.len(),
                target == set_values(old_hs, name.spec_bytes(), value.spec_bytes()),
                forall|k: int|
                    0 <= k < self.headers@.len() ==> #[trigger] owned_headers_view(self.headers@)[k]
                        == if k < i {
                        target[k]
                    } else {
                        old_hs[k]
                    },
            decreases self.headers@.len() - i,
        {
            assert(owned_headers_view(self.headers@)[i as int] == old_hs[i as int]);
            if eq_ignore_case_exec(self.headers[i].0.as_str().as_bytes(), name.as_bytes()) {
                let kept = self.headers[i].0.as_str().to_owned();
                let ghost prev = self.headers@;
                assert(target[i as int] == (old_hs[i as int].0, value.spec_bytes()));
                self.headers.set(i, (kept, value.to_owned()));
                assert forall|k: int| 0 <= k < self.headers@.len() implies #[trigger] owned_headers_view(
                    self.headers@,
                )[k] == if k < i + 1 {
                    target[k]
                } else {
                    old_hs[k]
                } by {
                    if k != i {
                        assert(self.headers@[k] == prev[k]);
                        assert(owned_headers_view(prev)[k] == owned_headers_view(self.headers@)[k]);
                    }
                }
            } else {
                assert(target[i as int] == old_hs[i as int]);
            }
            i += 1;
        }
        assert(owned_headers_view(self.headers@) =~= target);
        proof {
            lemma_set_header_values(old_hs, name.spec_bytes(), value.spec_bytes());
        }
        Ok(())
    }

    /// A redirect to `location` (303, empty body, `Location` header); refused
    /// as `add_header` refuses the header.
    pub fn see_other(location: &str) -> (r: Result<Self, HttpError>)
        ensures
            match r {
                Ok(resp) => !header_refused("Location".spec_bytes(), location.spec_bytes())
                    && resp@ == (ResponseModel {
                    status: StatusCode::SeeOther,
                    headers: seq![("Location".spec_bytes(), location.spec_bytes())],
                    body: Seq::<u8>::empty(),
                }),
                Err(e) => header_refused("Location".spec_bytes(), location.spec_bytes()) && if has_line_break(
                    location.spec_bytes(),
                ) || has_line_break("Location".spec_bytes()) {
                    e == HttpError::RequestHeaderInvalid
                } else {
                    e matches HttpError::RequestAddInvalidHeader(s) && s@ == "Location"@
                },
            },
    {
        let mut response = Response::new(StatusCode::SeeOther, Vec::new());
        match response.add_header("Location", location) {
            Ok(()) => {
                assert(response@.headers =~= seq![("Location".spec_bytes(), location.spec_bytes())]);
                Ok(response)
            },
            Err(e) => Err(e),
        }
    }

    /// A response with only a `Content-Type` header.
    pub(crate) fn with_content_type(status_code: StatusCode, content_type: &str, body_bytes: Vec<
        u8,
    >) -> (r: Self)
        ensures
            r@.status == status_code,
            r@.headers == seq![("Content-Type".spec_bytes(), content_type.spec_bytes())],
            r@.body == body_bytes@,
    {
        let mut headers: Vec<(String, String)> = Vec::new();
        headers.push(("Content-Type".to_owned(), content_type.to_owned()));
        let r = Response { status_code, headers, body_bytes };
        assert(r@.headers =~= seq![("Content-Type".spec_bytes(), content_type.spec_bytes())]);
        r
    }

    /// An HTML response: `Content-Type: text/html; charset=utf-8` and the
    /// text as body.
    pub fn html(status_code: StatusCode, html: &str) -> (r: Self)
        ensures
            r@.status == status_code,
            r@.headers == seq![
                ("Content-Type".spec_bytes(), "text/html; charset=utf-8".spec_bytes()),
            ],
            r@.body == html.spec_bytes(),
    {
        let mut headers: Vec<(String, String)> = Vec::new();
        headers.push(("Content-Type".to_owned(), "text/html; charset=utf-8".to_owned()));
        let body_bytes = vstd::slice::slice_to_vec(html.as_bytes());
        let r = Response { status_code, headers, body_bytes };
        assert(r@.headers =~= seq![
            ("Content-Type".spec_bytes(), "text/html; charset=utf-8".spec_bytes()),
        ]);
        r
    }

    /// A plain-text response: `Content-Type: text/plain` and the text as body.
    pub fn text_plain(status_code: StatusCode, text: &str) -> (r: Self)
        ensures
            r@.status == status_code,
            r@.headers == seq![("Content-Type".spec_bytes(), "text/plain".spec_bytes())],
            r@.body == text.spec_bytes(),
    {
        let mut headers: Vec<(String, String)> = Vec::new();
        headers.push(("Content-Type".to_owned(), "text/plain".to_owned()));
        let body_bytes = vstd::slice::slice_to_vec(text.as_bytes());
        let r = Response { status_code, headers, body_bytes };
        assert(r@.headers =~= seq![("Content-Type".spec_bytes(), "text/plain".spec_bytes())]);
        r
    }
}

} // verus!
