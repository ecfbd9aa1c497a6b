//! What can go wrong in an encode.
use vstd::prelude::*;

verus! {

/// Why a picture was not encoded.
#[derive(Debug)]
pub enum EncodeError {
    /// The samples do not make up a picture of these dimensions.
    InvalidDimensions { width: u32, height: u32 },
    /// A transform block could not be processed.
    DctError(String),
    /// The bit stream could not be written.
    BitstreamError(String),
    /// The file structure could not be written.
    IsobmffError(String),
    /// Reading or writing failed.
    Io(String),
}

} // verus!
