use vstd::prelude::*;

verus! {

/// Every way in which framing, decoding or correlating a message can fail.
#[derive(Debug, Clone, Copy, PartialEq, Eq)]
pub enum Error {
    /// The frame's compression byte names no known scheme.
    UnknownCompression(u8),
    /// The frame's declared length cannot hold its own header.
    InvalidMessageLength,
    /// The connection went away.
    Disconnected,
    /// The initial handshake ping was not answered.
    AuthFailed,
    /// A tag differs from the kind that the caller asked for.
    UnexpectedType,
    /// Text that does not parse as a number, bytes that are not UTF-8, or a bad length.
    Decoding,
    /// A three-byte tag that names no object kind.
    UnknownTag([u8; 3]),
    /// A reply arrived for which no request is waiting.
    MissingResponsePromise,
    /// The input ended before the value did.
    UnexpectedEof,
    /// The transport or the decompressor failed.
    Io,
}

} // verus!
