use vstd::prelude::*;

verus! {

/// Why a capture from the clipboard produced nothing.
#[derive(Debug, Clone, Copy, PartialEq, Eq, Structural)]
pub enum CaptureError {
    /// The clipboard could not be opened, or its data could not be locked or read.
    ClipboardAccess,
    /// The clipboard holds no content of the requested kind, or none this library can read.
    FormatUnavailable,
    /// The image could not be turned into an image file.
    Encode,
    /// The image directory or file could not be written.
    Io,
}

/// Why an operation on the history store failed.
#[derive(Debug, Clone, Copy, PartialEq, Eq, Structural)]
pub enum StoreError {
    /// No record has the requested id.
    NotFound,
}

} // verus!
