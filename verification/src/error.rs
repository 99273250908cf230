use vstd::prelude::*;

verus! {

/// Why a stream could not be decoded.
#[derive(Clone, Copy, Debug, PartialEq, Eq, Structural)]
pub enum DecodeError {
    /// The stream ended before the data was complete.
    Io,
    /// The stream does not have the form of a bzip2 stream.
    Format,
    /// A checksum in the stream does not fit the data.
    Checksum,
}

} // verus!
