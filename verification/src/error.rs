//! The failures that the operations report.

use vstd::prelude::*;

verus! {

/// Why an operation on a part was given up.
#[derive(Debug)]
pub enum DocxError {
    /// The part is not well-formed XML: the byte offset up to which it was read.
    MalformedMarkup { offset: u64 },
    /// The regular expression was not accepted: its text.
    InvalidPattern { pattern: String },
    /// A style name is not among the styles of the package: the names that are, sorted.
    UnknownStyle { known: Vec<String> },
    /// The package lacks a part that the operation needs: its path.
    MissingPart { path: String },
    /// The package registers no extension for a content type that the operation needs.
    Undeclared { content_type: String },
    /// A part lies in no directory, so that no part can hold its relationships: its path.
    Unplaced { path: String },
    /// An element of the styles part lacks an attribute: the attribute's name.
    MissingAttribute { name: String },
}

} // verus!
