use vstd::prelude::*;

verus! {

/// The failures of the codec, of the resolver and of the I/O around them.
#[derive(Debug, PartialEq, Eq)]
pub enum BytePacketError {
    /// A name followed more compression pointers than allowed.
    MaxJumpsExceeded,
    /// A label of a name to encode is longer than 63 bytes.
    LabelTooLong,
    /// A read or write ran past the end of the buffer.
    EndOfBuffer,
    /// An I/O failure, described in words.
    Custom(String),
    /// A record type that has no data of the kind asked to read.
    InvalidQueryType(u16),
    /// A record of an unknown type cannot be encoded.
    UnknownRecordError,
    /// A patch at an absolute position fell outside the buffer.
    OutOfBounds,
    /// No nameserver gave a usable answer.
    LookupFailed,
}

} // verus!
