//! The error vocabulary shared by the document and completion operations.

use vstd::prelude::*;

verus! {

/// Everything that can go wrong while synchronizing a document or
/// resolving a completion request. Every variant is recoverable at the
/// request boundary: the caller reports it and keeps serving.
#[derive(Debug)]
pub enum CoreError {
    /// An operation referenced a document identifier that is not open.
    DocumentNotFound,
    /// An edit range is inconsistent with the current buffer bounds; the
    /// buffer is left unchanged.
    MalformedEdit,
    /// A line index lies beyond the buffer's current line count.
    LineOutOfRange,
    /// The document identifier yields no usable origin directory.
    NoOriginDirectory,
    /// The target directory could not be listed; carries the underlying
    /// cause as reported by the filesystem.
    DirectoryUnavailable(String),
}

impl CoreError {
    /// A human-readable description, for surfacing to the editor as a
    /// diagnostic message.
    pub fn message(&self) -> (r: String)
        ensures
            r@.len() > 0,
    {
        match self {
            CoreError::DocumentNotFound => document_not_found_message(),
            CoreError::MalformedEdit => malformed_edit_message(),
            CoreError::LineOutOfRange => line_out_of_range_message(),
            CoreError::NoOriginDirectory => no_origin_message(),
            CoreError::DirectoryUnavailable(cause) => directory_unavailable_message(cause),
        }
    }
}

fn document_not_found_message() -> (r: String)
    ensures
        r@.len() > 0,
{
    let r = String::from_str("the document is not opened on the server");
    proof {
        reveal_strlit("the document is not opened on the server");
    }
    r
}

fn malformed_edit_message() -> (r: String)
    ensures
        r@.len() > 0,
{
    let r = String::from_str("the edit range does not fit the current document");
    proof {
        reveal_strlit("the edit range does not fit the current document");
    }
    r
}

fn line_out_of_range_message() -> (r: String)
    ensures
        r@.len() > 0,
{
    let r = String::from_str("the requested line lies beyond the document");
    proof {
        reveal_strlit("the requested line lies beyond the document");
    }
    r
}

fn no_origin_message() -> (r: String)
    ensures
        r@.len() > 0,
{
    let r = String::from_str("the document identifier has no origin directory");
    proof {
        reveal_strlit("the document identifier has no origin directory");
    }
    r
}

fn directory_unavailable_message(cause: &String) -> (r: String)
    ensures
        r@.len() > 0,
{
    let mut r = String::from_str("the directory cannot be listed: ");
    proof {
        reveal_strlit("the directory cannot be listed: ");
    }
    r.append(cause.as_str());
    r
}

} // verus!
