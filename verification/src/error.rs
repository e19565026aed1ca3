use vstd::prelude::*;

verus! {

/// The failure modes of the codec. A malformed message is wholly rejected
/// with one of these; unrecognized response/type codes are not errors.
#[derive(Clone, Copy, Debug, PartialEq, Eq, Structural)]
pub enum DnsError {
    /// A read or write would pass the end of the buffer.
    BufferBounds,
    /// A label of a name to encode is longer than 63 bytes.
    LabelTooLong,
    /// A compression-pointer chain required more jumps than allowed.
    MaxJumpsExceeded,
    /// Reserved for malformed fixed-size fields.
    InvalidRecordData,
}

} // verus!
