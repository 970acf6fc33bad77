//! Error type for the document model.

use vstd::prelude::*;

verus! {

/// Errors raised when interpreting document content.
#[derive(Debug, PartialEq)]
pub enum OxmlError {
    /// An element that was not expected here.
    UnexpectedElement(String),
    /// A required element is missing.
    MissingElement(String),
    /// An attribute or element value is not valid.
    InvalidValue(String),
    /// The XML itself could not be read.
    Xml(String),
    /// A number could not be read.
    ParseInt(String),
}

} // verus!
