//! A verified codec for the Open Sound Control (OSC) 1.0 wire protocol.
//!
//! The crate converts a recursive packet model ([`OscPacket`]: either a flat
//! [`OscMessage`] with typed arguments, or a time-tagged [`OscBundle`] of
//! sub-packets) into its byte-exact big-endian binary encoding and back, over
//! both datagram (length-implicit) and stream (length-prefixed) transports.
//!
//! The wire format itself is written down once, as the specification functions
//! of [`wire`]; the encoder and the decoder are each proved against them, and
//! [`correctness`] proves that decoding an encoding gives the packet back.

/// Crate specific error types.
mod errors;
/// OSC data types and their mathematical views.
mod types;

pub use crate::errors::OscError;
pub use crate::types::{
    OscArray, OscBundle, OscBundleV, OscColor, OscMessage, OscMessageV, OscMidiMessage, OscPacket,
    OscPacketV, OscTime, OscTimeError, OscType, OscTypeV,
};

/// The wire format as specification functions: encoding, decoding, well-formedness.
pub mod wire;

/// Round-trip and framing proofs about the wire format.
pub mod correctness;

/// Encodes an `OscPacket` to a byte vector or into an abstract output sink.
pub mod encoder;

/// Decoding methods for OSC packets, datagram and stream framed.
pub mod decoder;

/// Small helpers shared by the codec.
pub mod utils;
