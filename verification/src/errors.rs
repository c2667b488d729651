//! The error type of the library.

use vstd::prelude::*;
use vstd::string::*;

verus! {

/// What can go wrong.
#[derive(Debug, PartialEq)]
pub enum DjangoRustError {
    /// A template is malformed or cannot be resolved.
    TemplateError(String),
    /// Markup cannot be turned into a tree.
    VdomError(String),
}

impl DjangoRustError {
    /// The text that the error carries.
    pub open spec fn message(self) -> Seq<char> {
        match self {
            DjangoRustError::TemplateError(m) => m@,
            DjangoRustError::VdomError(m) => m@,
        }
    }

    /// The error as a line of text: its kind, then what it carries.
    pub fn to_string(&self) -> (s: String)
        ensures
            s@ == match *self {
                DjangoRustError::TemplateError(m) => "Template error: "@ + m@,
                DjangoRustError::VdomError(m) => "VDOM error: "@ + m@,
            },
    {
        match self {
            DjangoRustError::TemplateError(m) => String::from_str("Template error: ").concat(
                m.as_str(),
            ),
            DjangoRustError::VdomError(m) => String::from_str("VDOM error: ").concat(m.as_str()),
        }
    }
}

} // verus!
