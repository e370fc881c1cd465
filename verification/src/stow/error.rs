//! The errors of stow operations.
use vstd::prelude::*;
use crate::text::concat;

verus! {

/// Why a stow operation failed.
pub enum StowError {
    /// The package directory does not exist.
    SourceNotFound(String),
    /// The target directory does not exist.
    TargetNotFound(String),
    /// Something in the target directory stands in the way.
    Conflict { message: String, path: String, existing: Option<String> },
    /// The file system refused access.
    PermissionDenied(String),
    /// A file-system call failed (the text of its error).
    Io(String),
    /// A path could not be used.
    InvalidPath(String),
}

/// An error as plain values, variant by variant.
pub enum StowErrorView {
    SourceNotFound(Seq<char>),
    TargetNotFound(Seq<char>),
    Conflict { message: Seq<char>, path: Seq<char>, existing: Option<Seq<char>> },
    PermissionDenied(Seq<char>),
    Io(Seq<char>),
    InvalidPath(Seq<char>),
}

/// The text of an optional string.
pub open spec fn opt_view(o: Option<String>) -> Option<Seq<char>> {
    match o {
        Some(s) => Some(s@),
        None => None,
    }
}

impl View for StowError {
    type V = StowErrorView;

    open spec fn view(&self) -> StowErrorView {
        match self {
            StowError::SourceNotFound(p) => StowErrorView::SourceNotFound(p@),
            StowError::TargetNotFound(p) => StowErrorView::TargetNotFound(p@),
            StowError::Conflict { message, path, existing } => StowErrorView::Conflict {
                message: message@,
                path: path@,
                existing: opt_view(*existing),
            },
            StowError::PermissionDenied(p) => StowErrorView::PermissionDenied(p@),
            StowError::Io(m) => StowErrorView::Io(m@),
            StowError::InvalidPath(m) => StowErrorView::InvalidPath(m@),
        }
    }
}

/// The text an error is shown with.
pub open spec fn error_text(e: StowErrorView) -> Seq<char> {
    match e {
        StowErrorView::SourceNotFound(p) => "Source directory does not exist: "@ + p,
        StowErrorView::TargetNotFound(p) => "Target directory does not exist: "@ + p,
        StowErrorView::Conflict { message, .. } => "Conflict detected: "@ + message,
        StowErrorView::PermissionDenied(p) => "Permission denied: "@ + p,
        StowErrorView::Io(m) => "IO error: "@ + m,
        StowErrorView::InvalidPath(m) => "Invalid path: "@ + m,
    }
}

impl StowError {
    /// The text the error is shown with.
    pub fn message(&self) -> (r: String)
        ensures
            r@ == error_text(self@),
    {
        match self {
            StowError::SourceNotFound(p) => concat("Source directory does not exist: ", p.as_str()),
            StowError::TargetNotFound(p) => concat("Target directory does not exist: ", p.as_str()),
            StowError::Conflict { message, .. } => concat("Conflict detected: ", message.as_str()),
            StowError::PermissionDenied(p) => concat("Permission denied: ", p.as_str()),
            StowError::Io(m) => concat("IO error: ", m.as_str()),
            StowError::InvalidPath(m) => concat("Invalid path: ", m.as_str()),
        }
    }
}

/// A copy of an optional string.
pub fn copy_opt(o: &Option<String>) -> (r: Option<String>)
    ensures
        opt_view(r) == opt_view(*o),
{
    match o {
        Some(s) => Some(s.clone()),
        None => None,
    }
}

}
