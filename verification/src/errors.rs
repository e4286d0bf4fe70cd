use vstd::prelude::*;

verus! {

/// Represents errors returned by `decode` or `encode`.
#[derive(Debug)]
pub enum OscError {
    /// An OSC string was not valid UTF-8; carries the description of the
    /// offending byte sequence.
    StringError(String),
    /// A fixed-width read ran past the end of the buffer.
    ReadError(&'static str),
    BadChar(char),
    BadPacket(&'static str),
    BadMessage(&'static str),
    BadString(&'static str),
    BadArg(String),
    BadBundle(String),
    BadAddressPattern(String),
    BadAddress(String),
    RegexError(String),
    Unimplemented,
}

/// The decode error taxonomy, stripped of its human-readable payloads: the
/// decoder's contracts say which kind comes on which input.
#[derive(PartialEq, Eq, Structural, Clone, Copy, Debug)]
pub enum DecodeErrorKind {
    /// A fixed-width or declared-length read ran past the end of the buffer.
    Read,
    /// An empty buffer, or a leading string that is neither an address
    /// beginning with `/` nor the `#bundle` marker.
    Packet,
    /// An unmatched array close bracket in a type tag string.
    Message,
    /// An unknown type tag, or a `c` argument that is no Unicode scalar.
    Arg,
    /// An OSC string payload that is not valid UTF-8.
    Utf8,
}

impl OscError {
    /// The kind of a decode error, as the decoder's contracts speak of it.
    pub open spec fn kind(&self) -> DecodeErrorKind {
        match self {
            OscError::StringError(_) => DecodeErrorKind::Utf8,
            OscError::ReadError(_) => DecodeErrorKind::Read,
            OscError::BadPacket(_) => DecodeErrorKind::Packet,
            OscError::BadMessage(_) => DecodeErrorKind::Message,
            OscError::BadArg(_) => DecodeErrorKind::Arg,
            OscError::BadBundle(_) => DecodeErrorKind::Read,
            _ => DecodeErrorKind::Packet,
        }
    }
}

} // verus!
