//! Why a template was refused.
use vstd::prelude::*;

verus! {

/// Why a template was refused.
#[derive(Debug, Clone, Copy, PartialEq, Eq, Structural)]
pub enum TemplateError {
    /// `{}` or a variable of white space only.
    EmptyVariable,
    /// An opening brace without its closing brace, a brace opened inside a
    /// variable, or a closing brace without an opening one.
    UnCloseVariable,
    /// A variable name that is not a Rust identifier.
    InvalidVariable,
    /// An operation after `:` other than `escape`.
    InvalidOperation,
}

/// The message that reports an error.
pub open spec fn template_message(e: TemplateError) -> Seq<char> {
    match e {
        TemplateError::EmptyVariable => "Empty variable between {}"@,
        TemplateError::UnCloseVariable => "Missing variable closing }"@,
        TemplateError::InvalidVariable => "Invalid Variable"@,
        TemplateError::InvalidOperation => "Invalid Operation"@,
    }
}

impl TemplateError {
    /// The message that reports this error (see `template_message`).
    pub fn message(&self) -> (r: String)
        ensures
            r@ == template_message(*self),
    {
        match self {
            TemplateError::EmptyVariable => "Empty variable between {}".to_owned(),
            TemplateError::UnCloseVariable => "Missing variable closing }".to_owned(),
            TemplateError::InvalidVariable => "Invalid Variable".to_owned(),
            TemplateError::InvalidOperation => "Invalid Operation".to_owned(),
        }
    }
}

} // verus!
