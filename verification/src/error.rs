//! Why resolving a request can fail.

use vstd::prelude::*;

verus! {

/// The ways in which a request fails to resolve to a file or a directory.
#[derive(Debug, Clone, PartialEq, Eq)]
pub enum ResolutionError {
    /// The request path is not percent-encoded UTF-8.
    DecodeError,
    /// Nothing exists at the path.
    NotFound,
    /// The path exists but could not be read.
    IoError(String),
    /// The metadata of an entry could not be read.
    MetadataError(String),
}

impl ResolutionError {
    /// The text of `message`.
    pub open spec fn message_text(self) -> Seq<char> {
        match self {
            ResolutionError::DecodeError => "malformed request path"@,
            ResolutionError::NotFound => "not found"@,
            ResolutionError::IoError(detail) => "i/o error: "@ + detail@,
            ResolutionError::MetadataError(detail) => "metadata error: "@ + detail@,
        }
    }

    /// A line of text that describes the error, for a log.
    pub fn message(&self) -> (text: String)
        ensures
            text@ == self.message_text(),
    {
        match self {
            ResolutionError::DecodeError => String::from_str("malformed request path"),
            ResolutionError::NotFound => String::from_str("not found"),
            ResolutionError::IoError(detail) => String::from_str("i/o error: ").concat(
                detail.as_str(),
            ),
            ResolutionError::MetadataError(detail) => String::from_str("metadata error: ").concat(
                detail.as_str(),
            ),
        }
    }
}

} // verus!
