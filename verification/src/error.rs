//! Errors of the request reader.
use vstd::prelude::*;

verus! {

/// Why a request was refused.
#[derive(Debug, Clone, Copy, PartialEq, Eq, Structural)]
pub enum AppError {
    InvalidUtf8,
    MethodParseError,
    ContentLengthParseIntError,
    ContentLengthSizeError,
    RequestHeaderInvalid,
    RequestLineInvalid,
    RequestHttpVersionInvalid,
}

/// The message that reports an error.
pub open spec fn app_message(e: AppError) -> Seq<char> {
    match e {
        AppError::InvalidUtf8 => "Invalid UTF-8 in headers"@,
        AppError::MethodParseError => "Invalid Http Method"@,
        AppError::ContentLengthParseIntError => "Invalid Content Length"@,
        AppError::ContentLengthSizeError => "Content Length Size Error"@,
        AppError::RequestHeaderInvalid => "Invalid Header"@,
        AppError::RequestLineInvalid => "Invalid Request Line"@,
        AppError::RequestHttpVersionInvalid => "Invalid Http Version"@,
    }
}

impl AppError {
    /// The message that reports this error (see `app_message`).
    pub fn message(&self) -> (r: String)
        ensures
            r@ == app_message(*self),
    {
        match self {
            AppError::InvalidUtf8 => "Invalid UTF-8 in headers".to_owned(),
            AppError::MethodParseError => "Invalid Http Method".to_owned(),
            AppError::ContentLengthParseIntError => "Invalid Content Length".to_owned(),
            AppError::ContentLengthSizeError => "Content Length Size Error".to_owned(),
            AppError::RequestHeaderInvalid => "Invalid Header".to_owned(),
            AppError::RequestLineInvalid => "Invalid Request Line".to_owned(),
            AppError::RequestHttpVersionInvalid => "Invalid Http Version".to_owned(),
        }
    }
}

} // verus!
