//! What the decoder reports when a buffer is not a well-formed message.

use vstd::prelude::*;

verus! {

/// The rule of the wire format that a buffer broke.
///
/// `Truncated`, `MissingCrlf` and `TrailingBytes` are failures of framing:
/// the buffer does not end where the message does. The others are failures
/// of grammar: a byte is not what its rule asks for.
#[derive(Debug, Clone, Copy, PartialEq, Eq)]
pub enum ErrorKind {
    /// The buffer ended where a marker, a boolean, a verbatim header or
    /// declared payload bytes were due.
    Truncated,
    /// A value starts with a byte that is no marker, or not the marker of
    /// the rule that was asked for: the byte.
    UnexpectedMarker(u8),
    /// After `:` there is no signed decimal that fits 64 bits.
    InvalidInteger,
    /// A declared length is not an unsigned decimal that fits 32 bits, nor,
    /// where the marker has one, the null sentinel `-1`; or a verbatim
    /// string declares fewer than the four bytes of its own header.
    InvalidLength,
    /// After `#` comes neither `t` nor `f`.
    InvalidBoolean,
    /// After `,` there is no floating-point number.
    InvalidDouble,
    /// After `(` and an optional sign there is no digit.
    InvalidBigNumber,
    /// The encoding of a verbatim string is not followed by `:`.
    MissingSeparator,
    /// CR LF is missing where a line or a payload should end.
    MissingCrlf,
    /// Bytes follow the one message that the buffer was to hold.
    TrailingBytes,
}

/// A broken rule and the place where it was broken.
#[derive(Debug, Clone, Copy, PartialEq, Eq)]
pub struct DecodeError {
    pub kind: ErrorKind,
    /// How many bytes of the buffer, counted from its end, lay at and after
    /// the place of the failure. The place does not depend on what came
    /// before the value that failed, so it is the same for a value decoded
    /// alone and for one nested in an array.
    pub remaining: usize,
}

/// A [`DecodeError`] with its place as a natural number.
pub struct Failure {
    pub kind: ErrorKind,
    pub remaining: nat,
}

impl View for DecodeError {
    type V = Failure;

    open spec fn view(&self) -> Failure {
        Failure { kind: self.kind, remaining: self.remaining as nat }
    }
}

impl DecodeError {
    /// The offset of the failure from the start of a buffer of `len` bytes.
    pub fn offset(&self, len: usize) -> (at: usize)
        requires
            self.remaining <= len,
        ensures
            at == len - self.remaining,
    {
        len - self.remaining
    }
}

} // verus!
