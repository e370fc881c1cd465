//! The errors of the manager.
use vstd::prelude::*;
use crate::text::concat;

verus! {

/// Why an operation of the manager failed; each variant carries the text of
/// the underlying error.
pub enum DreamcoderError {
    Config(String),
    Module(String),
    Backup(String),
    Filesystem(String),
    Template(String),
    Secret(String),
    Package(String),
    Ai(String),
    Serialization(String),
    Walkdir(String),
    Path(String),
    Io(String),
}

/// The text an error is shown with.
pub open spec fn error_text(e: DreamcoderError) -> Seq<char> {
    match e {
        DreamcoderError::Config(m) => "Configuration error: "@ + m@,
        DreamcoderError::Module(m) => "Module error: "@ + m@,
        DreamcoderError::Backup(m) => "Backup error: "@ + m@,
        DreamcoderError::Filesystem(m) => "Filesystem error: "@ + m@,
        DreamcoderError::Template(m) => "Template error: "@ + m@,
        DreamcoderError::Secret(m) => "Secret error: "@ + m@,
        DreamcoderError::Package(m) => "Package manager error: "@ + m@,
        DreamcoderError::Ai(m) => "AI Protocol error: "@ + m@,
        DreamcoderError::Serialization(m) => "Serialization error: "@ + m@,
        DreamcoderError::Walkdir(m) => "Walkdir error: "@ + m@,
        DreamcoderError::Path(m) => "Path error: "@ + m@,
        DreamcoderError::Io(m) => "IO error: "@ + m@,
    }
}

impl DreamcoderError {
    /// The text the error is shown with.
    pub fn message(&self) -> (r: String)
        ensures
            r@ == error_text(*self),
    {
        match self {
            DreamcoderError::Config(m) => concat("Configuration error: ", m.as_str()),
            DreamcoderError::Module(m) => concat("Module error: ", m.as_str()),
            DreamcoderError::Backup(m) => concat("Backup error: ", m.as_str()),
            DreamcoderError::Filesystem(m) => concat("Filesystem error: ", m.as_str()),
            DreamcoderError::Template(m) => concat("Template error: ", m.as_str()),
            DreamcoderError::Secret(m) => concat("Secret error: ", m.as_str()),
            DreamcoderError::Package(m) => concat("Package manager error: ", m.as_str()),
            DreamcoderError::Ai(m) => concat("AI Protocol error: ", m.as_str()),
            DreamcoderError::Serialization(m) => concat("Serialization error: ", m.as_str()),
            DreamcoderError::Walkdir(m) => concat("Walkdir error: ", m.as_str()),
            DreamcoderError::Path(m) => concat("Path error: ", m.as_str()),
            DreamcoderError::Io(m) => concat("IO error: ", m.as_str()),
        }
    }
}

}
