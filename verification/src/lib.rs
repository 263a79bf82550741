//! Verified core of a desktop utility that swaps cosmetic icon files for a
//! game client: it discovers version directories under an installation root,
//! decodes base64 image payloads, and installs or removes icon files under
//! the fixed `Interface/ICONS` asset directory of a version.

pub mod codec;
pub mod model;
pub mod paths;
pub mod scan;
pub mod text;

use vstd::prelude::*;

verus! {

/// The error kinds the library's operations report.
#[derive(Clone, Copy, PartialEq, Eq, Structural, Debug)]
pub enum IconError {
    /// A path that must exist does not.
    NotFound,
    /// A path exists but is of the wrong kind (a file where a directory is required).
    InvalidInput,
    /// A filesystem mutation failed.
    IoError,
    /// A base64 payload is malformed.
    DecodeError,
}

impl IconError {
    /// The human-readable description of the error.
    pub open spec fn message_spec(self) -> Seq<char> {
        match self {
            IconError::NotFound => "Folder does not exist"@,
            IconError::InvalidInput => "Path is not a directory"@,
            IconError::IoError => "Filesystem operation failed"@,
            IconError::DecodeError => "Failed to decode image data"@,
        }
    }

    /// Renders the error as text for the caller.
    pub fn message(&self) -> (r: String)
        ensures
            r@ == self.message_spec(),
    {
        match self {
            IconError::NotFound => String::from_str("Folder does not exist"),
            IconError::InvalidInput => String::from_str("Path is not a directory"),
            IconError::IoError => String::from_str("Filesystem operation failed"),
            IconError::DecodeError => String::from_str("Failed to decode image data"),
        }
    }
}

} // verus!
