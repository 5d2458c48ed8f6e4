//! Errors of the HTTP layer.
use vstd::prelude::*;
use crate::storage::error::join;

verus! {

/// Why a request, a response header, a cookie or a form was refused.
#[derive(Debug)]
pub enum HttpError {
    InvalidUtf8,
    MethodParseError,
    ContentLengthParseIntError,
    ContentLengthSizeError,
    RequestHeaderInvalid,
    RequestLineInvalid,
    RequestHttpVersionInvalid,
    RequestRouteInvalid,
    FormParseError,
    FormFieldMissingName,
    FormFieldMissingValue,
    FormMissingField(String),
    RequestAddInvalidHeader(String),
    InvalidCookie,
}

/// The message that reports an error.
pub open spec fn http_message(e: HttpError) -> Seq<char> {
    match e {
        HttpError::InvalidUtf8 => "Invalid UTF-8 in headers"@,
        HttpError::MethodParseError => "Invalid Http Method"@,
        HttpError::ContentLengthParseIntError => "Invalid Content Length"@,
        HttpError::ContentLengthSizeError => "Content Length Size Error"@,
        HttpError::RequestHeaderInvalid => "Invalid Header"@,
        HttpError::RequestLineInvalid => "Invalid Request Line"@,
        HttpError::RequestHttpVersionInvalid => "Invalid Http Version"@,
        HttpError::RequestRouteInvalid => "Invalid Route Url"@,
        HttpError::FormParseError => "Invalid Form"@,
        HttpError::FormFieldMissingName => "Form field without a name"@,
        HttpError::FormFieldMissingValue => "Form field without a value"@,
        HttpError::FormMissingField(f) => "Missing form field: "@ + f@,
        HttpError::RequestAddInvalidHeader(n) => "Header set by the server: "@ + n@,
        HttpError::InvalidCookie => "Invalid Cookie"@,
    }
}

impl HttpError {
    /// The message that reports this error (see `http_message`).
    pub fn message(&self) -> (r: String)
        ensures
            r@ == http_message(*self),
    {
        match self {
            HttpError::InvalidUtf8 => "Invalid UTF-8 in headers".to_owned(),
            HttpError::MethodParseError => "Invalid Http Method".to_owned(),
            HttpError::ContentLengthParseIntError => "Invalid Content Length".to_owned(),
            HttpError::ContentLengthSizeError => "Content Length Size Error".to_owned(),
            HttpError::RequestHeaderInvalid => "Invalid Header".to_owned(),
            HttpError::RequestLineInvalid => "Invalid Request Line".to_owned(),
            HttpError::RequestHttpVersionInvalid => "Invalid Http Version".to_owned(),
            HttpError::RequestRouteInvalid => "Invalid Route Url".to_owned(),
            HttpError::FormParseError => "Invalid Form".to_owned(),
            HttpError::FormFieldMissingName => "Form field without a name".to_owned(),
            HttpError::FormFieldMissingValue => "Form field without a value".to_owned(),
            HttpError::FormMissingField(f) => join("Missing form field: ", f.as_str()),
            HttpError::RequestAddInvalidHeader(n) => join("Header set by the server: ", n.as_str()),
            HttpError::InvalidCookie => "Invalid Cookie".to_owned(),
        }
    }
}

} // verus!
