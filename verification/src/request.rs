//! A request reader that knows five methods and keeps the query in the
//! target.
use vstd::prelude::*;
use vstd::string::StringSliceAdditionalSpecFns;
use crate::error::AppError;
use crate::http::head::{
    body_check, check_body, entries_view, frame, head_spec, header_get, map_get, method_code,
    opt_nat, parse_head, tokens, HeadError,
};

verus! {

/// The methods this reader accepts.
#[derive(Debug, Clone, Copy, PartialEq, Eq, Structural)]
pub enum HttpMethod {
    Get,
    Post,
    Put,
    Patch,
    Delete,
}

/// Method, target and version.
pub struct RequestLine<'a> {
    pub method: HttpMethod,
    pub target_path: &'a str,
    pub version: &'a str,
}

/// A parsed request, borrowing from the bytes it was read from.
pub struct Request<'a> {
    pub request_line: RequestLine<'a>,
    pub content_length: Option<usize>,
    pub headers: Vec<(&'a str, &'a str)>,
    pub body: &'a [u8],
}

/// What a request says.
pub struct ParsedModel {
    pub method: HttpMethod,
    pub target: Seq<u8>,
    pub version: Seq<u8>,
    pub content_length: Option<nat>,
    pub headers: Seq<(Seq<u8>, Seq<u8>)>,
    pub body: Seq<u8>,
}

pub open spec fn app_error(e: HeadError) -> AppError {
    match e {
        HeadError::InvalidUtf8 => AppError::InvalidUtf8,
        HeadError::MethodParseError => AppError::MethodParseError,
        HeadError::ContentLengthParseIntError => AppError::ContentLengthParseIntError,
        HeadError::RequestHeaderInvalid => AppError::RequestHeaderInvalid,
        HeadError::RequestLineInvalid => AppError::RequestLineInvalid,
        HeadError::RequestHttpVersionInvalid => AppError::RequestHttpVersionInvalid,
        HeadError::ContentLengthSizeError => AppError::ContentLengthSizeError,
    }
}

fn to_app_error(e: HeadError) -> (r: AppError)
    ensures
        r == app_error(e),
{
    match e {
        HeadError::InvalidUtf8 => AppError::InvalidUtf8,
        HeadError::MethodParseError => AppError::MethodParseError,
        HeadError::ContentLengthParseIntError => AppError::ContentLengthParseIntError,
        HeadError::RequestHeaderInvalid => AppError::RequestHeaderInvalid,
        HeadError::RequestLineInvalid => AppError::RequestLineInvalid,
        HeadError::RequestHttpVersionInvalid => AppError::RequestHttpVersionInvalid,
        HeadError::ContentLengthSizeError => AppError::ContentLengthSizeError,
    }
}

pub open spec fn method_of(code: u8) -> HttpMethod {
    if code == 0 {
        HttpMethod::Get
    } else if code == 1 {
        HttpMethod::Post
    } else if code == 2 {
        HttpMethod::Put
    } else if code == 3 {
        HttpMethod::Patch
    } else {
        HttpMethod::Delete
    }
}

/// A request read from its bytes: the head (see `head_spec`, with the five
/// methods), then the body, which must be exactly as long as `Content-Length`
/// says, and empty without one.
pub open spec fn parse_spec(d: Seq<u8>) -> Result<ParsedModel, AppError> {
    match head_spec(d, true) {
        Err(e) => Err(app_error(e)),
        Ok(h) => match body_check(d.len() as int, h.content_length, h.body_start) {
            Err(e) => Err(app_error(e)),
            Ok(_) => Ok(
                ParsedModel {
                    method: method_of(h.method),
                    target: h.target,
                    version: h.version,
                    content_length: h.content_length,
                    headers: h.headers,
                    body: d.subrange(h.body_start, d.len() as int),
                },
            ),
        },
    }
}

/// The first word of the request line of `d`.
pub open spec fn method_word(d: Seq<u8>) -> Seq<u8> {
    match frame(d) {
        Some((rl, _)) => tokens(d.subrange(0, rl))[0],
        None => Seq::<u8>::empty(),
    }
}

/// The bytes of the five method names.
pub(crate) proof fn lemma_method_names()
    ensures
        "GET".spec_bytes() == seq![71u8, 69u8, 84u8],
        "POST".spec_bytes() == seq![80u8, 79u8, 83u8, 84u8],
        "PUT".spec_bytes() == seq![80u8, 85u8, 84u8],
        "PATCH".spec_bytes() == seq![80u8, 65u8, 84u8, 67u8, 72u8],
        "DELETE".spec_bytes() == seq![68u8, 69u8, 76u8, 69u8, 84u8, 69u8],
{
    reveal_strlit("GET");
    reveal_strlit("POST");
    reveal_strlit("PUT");
    reveal_strlit("PATCH");
    reveal_strlit("DELETE");
    vstd::utf8::is_ascii_chars_encode_utf8("GET"@);
    vstd::utf8::is_ascii_chars_encode_utf8("POST"@);
    vstd::utf8::is_ascii_chars_encode_utf8("PUT"@);
    vstd::utf8::is_ascii_chars_encode_utf8("PATCH"@);
    vstd::utf8::is_ascii_chars_encode_utf8("DELETE"@);
    assert("GET".spec_bytes() =~= seq![71u8, 69u8, 84u8]);
    assert("POST".spec_bytes() =~= seq![80u8, 79u8, 83u8, 84u8]);
    assert("PUT".spec_bytes() =~= seq![80u8, 85u8, 84u8]);
    assert("PATCH".spec_bytes() =~= seq![80u8, 65u8, 84u8, 67u8, 72u8]);
    assert("DELETE".spec_bytes() =~= seq![68u8, 69u8, 76u8, 69u8, 84u8, 69u8]);
}

/// The method of an accepted request is the one its request line names:
/// `GET`, `POST`, `PUT`, `PATCH` or `DELETE`, each to its own method.
pub proof fn lemma_parsed_method_is_named(d: Seq<u8>)
    ensures
        parse_spec(d) matches Ok(r) ==> {
            &&& (r.method == HttpMethod::Get <==> method_word(d) == "GET".spec_bytes())
            &&& (r.method == HttpMethod::Post <==> method_word(d) == "POST".spec_bytes())
            &&& (r.method == HttpMethod::Put <==> method_word(d) == "PUT".spec_bytes())
            &&& (r.method == HttpMethod::Patch <==> method_word(d) == "PATCH".spec_bytes())
            &&& (r.method == HttpMethod::Delete <==> method_word(d) == "DELETE".spec_bytes())
        },
{
    lemma_method_names();
    if let Ok(h) = head_spec(d, true) {
        let (rl, hb) = frame(d)->0;
        let ts = tokens(d.subrange(0, rl));
        assert(ts.len() > 0);
        assert(method_code(ts[0], true) == Some(h.method));
    }
}

impl<'a> View for Request<'a> {
    type V = ParsedModel;

    open spec fn view(&self) -> ParsedModel {
        ParsedModel {
            method: self.request_line.method,
            target: self.request_line.target_path.spec_bytes(),
            version: self.request_line.version.spec_bytes(),
            content_length: opt_nat(self.content_length),
            headers: entries_view(self.headers@),
            body: self.body@,
        }
    }
}

impl<'a> Request<'a> {
    /// Reads a request from its bytes (see `parse_spec`).
    pub fn parse(data_buffer: &'a [u8]) -> (r: Result<Request<'a>, AppError>)
        ensures
            match r {
                Ok(req) => parse_spec(data_buffer@) == Ok::<ParsedModel, AppError>(req@),
                Err(e) => parse_spec(data_buffer@) == Err::<ParsedModel, AppError>(e),
            },
            r matches Ok(req) ==> {
                let w = method_word(data_buffer@);
                &&& (req@.method == HttpMethod::Get <==> w == "GET".spec_bytes())
                &&& (req@.method == HttpMethod::Post <==> w == "POST".spec_bytes())
                &&& (req@.method == HttpMethod::Put <==> w == "PUT".spec_bytes())
                &&& (req@.method == HttpMethod::Patch <==> w == "PATCH".spec_bytes())
                &&& (req@.method == HttpMethod::Delete <==> w == "DELETE".spec_bytes())
            },
    {
        proof {
            lemma_parsed_method_is_named(data_buffer@);
        }
        let head = match parse_head(data_buffer, true) {
            Ok(h) => h,
            Err(e) => {
                return Err(to_app_error(e));
            },
        };
        let n = data_buffer.len();
        match check_body(n, head.content_length, head.body_start) {
            Ok(()) => {},
            Err(e) => {
                return Err(to_app_error(e));
            },
        }
        let body = &data_buffer[head.body_start..n];
        let method = if head.method == 0 {
            HttpMethod::Get
        } else if head.method == 1 {
            HttpMethod::Post
        } else if head.method == 2 {
            HttpMethod::Put
        } else if head.method == 3 {
            HttpMethod::Patch
        } else {
            HttpMethod::Delete
        };
        let request_line = RequestLine { method, target_path: head.target, version: head.version };
        Ok(Request { request_line, content_length: head.content_length, headers: head.headers, body })
    }

    /// The value of header `name`, matched without regard to ASCII case.
    pub fn get_header(&self, name: &str) -> (r: Option<&str>)
        ensures
            match r {
                Some(v) => map_get(self@.headers, name.spec_bytes()) == Some(v.spec_bytes()),
                None => map_get(self@.headers, name.spec_bytes()) is None,
            },
    {
        header_get(&self.headers, name)
    }
}

} // verus!
