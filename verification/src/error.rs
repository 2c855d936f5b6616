//! The ways in which decoding and encoding fail.

use vstd::prelude::*;

verus! {

/// Why a byte buffer could not be decoded.
#[derive(Clone, Copy, Debug, PartialEq, Eq, Structural)]
pub enum DecodeError {
    /// The buffer ended before the value being read was complete.
    Truncated,
    /// The four opcode bits of the header name no known operation.
    InvalidOpcode,
    /// The four response-code bits of the header name no known outcome.
    InvalidResponseCode,
    /// A length byte with both top bits set: a compression pointer, which
    /// this codec does not follow.
    UnsupportedCompression,
}

/// Why a value could not be encoded.
#[derive(Clone, Copy, Debug, PartialEq, Eq, Structural)]
pub enum EncodeError {
    /// A label of a domain name is longer than a length byte can say.
    LabelTooLong,
    /// The wire form of a domain name is longer than 255 bytes.
    NameTooLong,
    /// The data of a record is longer than its 16-bit length field can say.
    RdataTooLong,
}

} // verus!
