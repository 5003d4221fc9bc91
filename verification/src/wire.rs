//! The wire format, as functions on byte sequences.
//!
//! Every function here takes what is left of a buffer and says what the
//! grammar makes of its front: a value or a piece of one together with the
//! bytes that follow it, or the rule that was broken and where.

use crate::error::{ErrorKind, Failure};
use crate::number::{
    digit_run, double_reading, lemma_digit_run, signed_reading, unsigned_reading, MINUS, ONE,
    PLUS,
};
use crate::resp_type::RespValue;
use crate::span::is_end_of;
use vstd::prelude::*;

verus! {

/// Carriage return, the first byte of every line end.
pub const CR: u8 = 0x0d;

/// Line feed, the second byte of every line end.
pub const LF: u8 = 0x0a;

/// `t`, the boolean true.
pub const TRUE: u8 = 0x74;

/// `f`, the boolean false.
pub const FALSE: u8 = 0x66;

/// `+`, before a simple string.
pub const SIMPLE_STRING: u8 = 0x2b;

/// `-`, before a simple error, and the sign of the null sentinel.
pub const SIMPLE_ERROR: u8 = 0x2d;

/// `:`, before an integer, and between the encoding and the text of a
/// verbatim string.
pub const INTEGER: u8 = 0x3a;

/// `$`, before a bulk string.
pub const BULK_STRING: u8 = 0x24;

/// `!`, before a bulk error.
pub const BULK_ERROR: u8 = 0x21;

/// `*`, before an array.
pub const ARRAY: u8 = 0x2a;

/// `#`, before a boolean.
pub const BOOLEAN: u8 = 0x23;

/// `_`, the null value.
pub const NULL: u8 = 0x5f;

/// `,`, before a double.
pub const DOUBLE: u8 = 0x2c;

/// `(`, before a big number.
pub const BIG_NUMBER: u8 = 0x28;

/// `=`, before a verbatim string.
pub const VERBATIM_STRING: u8 = 0x3d;

/// The failure of rule `kind` with `at` still unread.
pub open spec fn fail<T>(kind: ErrorKind, at: Seq<u8>) -> Result<T, Failure> {
    Err(Failure { kind, remaining: at.len() })
}

/// `s` starts with CR LF.
pub open spec fn has_crlf(s: Seq<u8>) -> bool {
    s.len() >= 2 && s[0] == CR && s[1] == LF
}

/// What follows the CR LF that `s` must start with.
pub open spec fn end_of_line(s: Seq<u8>) -> Result<Seq<u8>, Failure> {
    if has_crlf(s) {
        Ok(s.skip(2))
    } else {
        fail(ErrorKind::MissingCrlf, s)
    }
}

/// The number of bytes of `s` before its first CR or LF.
pub open spec fn line_len(s: Seq<u8>) -> nat
    decreases s.len(),
{
    if s.len() == 0 || s[0] == CR || s[0] == LF {
        0
    } else {
        1 + line_len(s.skip(1))
    }
}

/// The line that `s` starts with lies inside `s`, holds no CR or LF, and
/// ends at the first byte that is one.
pub proof fn lemma_line_len(s: Seq<u8>)
    ensures
        line_len(s) <= s.len(),
        forall|i: int| 0 <= i < line_len(s) ==> #[trigger] s[i] != CR && s[i] != LF,
        line_len(s) < s.len() ==> s[line_len(s) as int] == CR || s[line_len(s) as int] == LF,
    decreases s.len(),
{
    if !(s.len() == 0 || s[0] == CR || s[0] == LF) {
        let t = s.skip(1);
        lemma_line_len(t);
        assert forall|i: int| 0 <= i < line_len(s) implies #[trigger] s[i] != CR && s[i] != LF by {
            if i > 0 {
                assert(s[i] == t[i - 1]);
            }
        }
        if line_len(s) < s.len() {
            assert(s[line_len(s) as int] == t[line_len(t) as int]);
        }
    }
}

/// The line that `s` starts with is `n` bytes long where none of the first
/// `n` bytes is CR or LF and the buffer ends there or one of them follows.
pub proof fn lemma_line_len_is(s: Seq<u8>, n: nat)
    requires
        n <= s.len(),
        forall|i: int| 0 <= i < n ==> #[trigger] s[i] != CR && s[i] != LF,
        n < s.len() ==> s[n as int] == CR || s[n as int] == LF,
    ensures
        line_len(s) == n,
{
    lemma_line_len(s);
}

/// A run of bytes without CR or LF, closed by CR LF: the run and what
/// follows the line.
pub open spec fn decode_line(s: Seq<u8>) -> Result<(Seq<u8>, Seq<u8>), Failure> {
    let n = line_len(s) as int;
    match end_of_line(s.skip(n)) {
        Ok(rest) => Ok((s.take(n), rest)),
        Err(e) => Err(e),
    }
}

/// A signed decimal that fits 64 bits, closed by CR LF.
pub open spec fn decode_integer(s: Seq<u8>) -> Result<(RespValue, Seq<u8>), Failure> {
    match signed_reading(s) {
        None => fail(ErrorKind::InvalidInteger, s),
        Some((v, after)) => match end_of_line(after) {
            Ok(rest) => Ok((RespValue::Int(v), rest)),
            Err(e) => Err(e),
        },
    }
}

/// `s` starts with the null sentinel `-1` and its CR LF.
pub open spec fn has_sentinel(s: Seq<u8>) -> bool {
    s.len() >= 4 && s[0] == MINUS && s[1] == ONE && s[2] == CR && s[3] == LF
}

/// A declared length and its CR LF: an unsigned decimal that fits 32 bits.
pub open spec fn decode_count(s: Seq<u8>) -> Result<(nat, Seq<u8>), Failure> {
    match unsigned_reading(s, u32::MAX as nat) {
        None => fail(ErrorKind::InvalidLength, s),
        Some((n, after)) => match end_of_line(after) {
            Ok(rest) => Ok((n, rest)),
            Err(e) => Err(e),
        },
    }
}

/// A declared length takes at least three bytes off the buffer.
pub proof fn lemma_count_consumes(s: Seq<u8>)
    ensures
        decode_count(s) matches Ok((_, rest)) ==> rest.len() + 3 <= s.len(),
{
    lemma_digit_run(s);
}

/// Exactly `n` bytes, whatever they hold, closed by CR LF: the bytes and
/// what follows.
pub open spec fn decode_payload(s: Seq<u8>, n: nat) -> Result<(Seq<u8>, Seq<u8>), Failure> {
    if s.len() < n {
        fail(ErrorKind::Truncated, s)
    } else {
        match end_of_line(s.skip(n as int)) {
            Ok(rest) => Ok((s.take(n as int), rest)),
            Err(e) => Err(e),
        }
    }
}

/// A declared length, CR LF, that many bytes, CR LF: the bytes and what
/// follows.
pub open spec fn decode_bulk_raw(s: Seq<u8>) -> Result<(Seq<u8>, Seq<u8>), Failure> {
    match decode_count(s) {
        Err(e) => Err(e),
        Ok((n, after)) => decode_payload(after, n),
    }
}

/// A bulk string: the sentinel, which gives `Null`, or a length and its
/// payload.
pub open spec fn decode_bulk_string(s: Seq<u8>) -> Result<(RespValue, Seq<u8>), Failure> {
    if has_sentinel(s) {
        Ok((RespValue::Null, s.skip(4)))
    } else {
        match decode_bulk_raw(s) {
            Ok((payload, rest)) => Ok((RespValue::BString(payload), rest)),
            Err(e) => Err(e),
        }
    }
}

/// A bulk error: a length and its payload. There is no sentinel here.
pub open spec fn decode_bulk_error(s: Seq<u8>) -> Result<(RespValue, Seq<u8>), Failure> {
    match decode_bulk_raw(s) {
        Ok((payload, rest)) => Ok((RespValue::BError(payload), rest)),
        Err(e) => Err(e),
    }
}

/// `t` or `f`, closed by CR LF.
pub open spec fn decode_boolean(s: Seq<u8>) -> Result<(RespValue, Seq<u8>), Failure> {
    if s.len() == 0 {
        fail(ErrorKind::Truncated, s)
    } else if s[0] != TRUE && s[0] != FALSE {
        fail(ErrorKind::InvalidBoolean, s)
    } else {
        match end_of_line(s.skip(1)) {
            Ok(rest) => Ok((RespValue::Bool(s[0] == TRUE), rest)),
            Err(e) => Err(e),
        }
    }
}

/// Nothing but CR LF: the null value.
pub open spec fn decode_null(s: Seq<u8>) -> Result<(RespValue, Seq<u8>), Failure> {
    match end_of_line(s) {
        Ok(rest) => Ok((RespValue::Null, rest)),
        Err(e) => Err(e),
    }
}

/// `s` starts with `sign` and then `inf`.
pub open spec fn has_signed_inf(s: Seq<u8>, sign: u8) -> bool {
    s.len() >= 4 && s[0] == sign && s[1] == 0x69 && s[2] == 0x6e && s[3] == 0x66  // i, n, f
}

/// The text of the double at the front of `s`, and what follows it. The
/// tokens `+inf` and `-inf` come first and read as `inf` and `-inf`;
/// anything else is left to [`double_reading`], which counts where it leaves
/// an end piece of `s`.
pub open spec fn double_token(s: Seq<u8>) -> Option<(Seq<char>, Seq<u8>)> {
    if has_signed_inf(s, PLUS) {
        Some((seq!['i', 'n', 'f'], s.skip(4)))
    } else if has_signed_inf(s, MINUS) {
        Some((seq!['-', 'i', 'n', 'f'], s.skip(4)))
    } else {
        match double_reading(s) {
            Some((text, after)) => if is_end_of(after, s) {
                Some((text, after))
            } else {
                None
            },
            None => None,
        }
    }
}

/// What becomes of a double once its number is read: none read is a
/// failure, and one must be closed by CR LF.
pub open spec fn double_after(s: Seq<u8>, token: Option<(Seq<char>, Seq<u8>)>) -> Result<
    (RespValue, Seq<u8>),
    Failure,
> {
    match token {
        None => fail(ErrorKind::InvalidDouble, s),
        Some((text, after)) => match end_of_line(after) {
            Ok(rest) => Ok((RespValue::Double(text), rest)),
            Err(e) => Err(e),
        },
    }
}

/// A double, closed by CR LF.
pub open spec fn decode_double(s: Seq<u8>) -> Result<(RespValue, Seq<u8>), Failure> {
    double_after(s, double_token(s))
}

/// The length of the sign that `s` starts with: 1 for `+` or `-`, else 0.
pub open spec fn sign_len(s: Seq<u8>) -> nat {
    if s.len() > 0 && (s[0] == PLUS || s[0] == MINUS) {
        1
    } else {
        0
    }
}

/// An optional sign and at least one digit, closed by CR LF. The value is
/// the text as written, sign included.
pub open spec fn decode_big_number(s: Seq<u8>) -> Result<(RespValue, Seq<u8>), Failure> {
    let digits = s.skip(sign_len(s) as int);
    let n = sign_len(s) + digit_run(digits);
    if digit_run(digits) == 0 {
        fail(ErrorKind::InvalidBigNumber, digits)
    } else {
        match end_of_line(s.skip(n as int)) {
            Ok(rest) => Ok((RespValue::BigNum(s.take(n as int)), rest)),
            Err(e) => Err(e),
        }
    }
}

/// A verbatim string: a declared length of at least 4, then three bytes of
/// encoding, `:`, and the text, which is 4 bytes shorter than declared.
pub open spec fn decode_verbatim(s: Seq<u8>) -> Result<(RespValue, Seq<u8>), Failure> {
    match decode_count(s) {
        Err(e) => Err(e),
        Ok((n, after)) => if n < 4 {
            fail(ErrorKind::InvalidLength, s)
        } else if after.len() < 4 {
            fail(ErrorKind::Truncated, after)
        } else if after[3] != INTEGER {
            fail(ErrorKind::MissingSeparator, after.skip(3))
        } else {
            match decode_payload(after.skip(4), (n - 4) as nat) {
                Err(e) => Err(e),
                Ok((text, rest)) => Ok((RespValue::VString(after.take(3), text), rest)),
            }
        },
    }
}

/// `b` is one of the bytes that a value can start with.
pub open spec fn is_marker(b: u8) -> bool {
    b == SIMPLE_STRING || b == SIMPLE_ERROR || b == INTEGER || b == BULK_STRING || b == BULK_ERROR
        || b == ARRAY || b == BOOLEAN || b == NULL || b == DOUBLE || b == BIG_NUMBER || b
        == VERBATIM_STRING
}

/// What follows the marker that `s` must start with.
pub open spec fn after_marker(s: Seq<u8>, marker: u8) -> Result<Seq<u8>, Failure> {
    if s.len() == 0 {
        fail(ErrorKind::Truncated, s)
    } else if s[0] != marker {
        fail(ErrorKind::UnexpectedMarker(s[0]), s)
    } else {
        Ok(s.skip(1))
    }
}

/// The value that the rule of `marker` makes of `s`, the bytes behind the
/// marker, and the bytes that follow the value.
pub open spec fn decode_body(marker: u8, s: Seq<u8>) -> Result<(RespValue, Seq<u8>), Failure>
    decreases s.len(), 2nat, 0nat,
{
    if marker == SIMPLE_STRING {
        match decode_line(s) {
            Ok((text, rest)) => Ok((RespValue::SString(text), rest)),
            Err(e) => Err(e),
        }
    } else if marker == SIMPLE_ERROR {
        match decode_line(s) {
            Ok((text, rest)) => Ok((RespValue::SError(text), rest)),
            Err(e) => Err(e),
        }
    } else if marker == INTEGER {
        decode_integer(s)
    } else if marker == BULK_STRING {
        decode_bulk_string(s)
    } else if marker == BULK_ERROR {
        decode_bulk_error(s)
    } else if marker == ARRAY {
        decode_array(s)
    } else if marker == BOOLEAN {
        decode_boolean(s)
    } else if marker == NULL {
        decode_null(s)
    } else if marker == DOUBLE {
        decode_double(s)
    } else if marker == BIG_NUMBER {
        decode_big_number(s)
    } else if marker == VERBATIM_STRING {
        decode_verbatim(s)
    } else {
        fail(ErrorKind::UnexpectedMarker(marker), s)
    }
}

/// The value at the front of `s` where it must be of the kind that
/// `marker` stands for, and the bytes that follow it.
pub open spec fn decode_tagged(s: Seq<u8>, marker: u8) -> Result<(RespValue, Seq<u8>), Failure> {
    match after_marker(s, marker) {
        Err(e) => Err(e),
        Ok(body) => decode_body(marker, body),
    }
}

/// One value from the front of `s`, and the bytes that follow it.
///
/// The first byte alone chooses the rule.
pub open spec fn decode_value(s: Seq<u8>) -> Result<(RespValue, Seq<u8>), Failure>
    decreases s.len(), 0nat, 0nat,
{
    if s.len() == 0 {
        fail(ErrorKind::Truncated, s)
    } else if !is_marker(s[0]) {
        fail(ErrorKind::UnexpectedMarker(s[0]), s)
    } else {
        decode_body(s[0], s.skip(1))
    }
}

/// An array: the sentinel, which gives `Null`, or a declared length and
/// then that many values.
pub open spec fn decode_array(s: Seq<u8>) -> Result<(RespValue, Seq<u8>), Failure>
    decreases s.len(), 1nat, 0nat,
{
    if has_sentinel(s) {
        Ok((RespValue::Null, s.skip(4)))
    } else {
        match decode_count(s) {
            Err(e) => Err(e),
            Ok((n, after)) => {
                proof {
                    lemma_count_consumes(s);
                }
                match decode_items(after, n) {
                    Err(e) => Err(e),
                    Ok((items, rest)) => Ok((RespValue::Array(items), rest)),
                }
            },
        }
    }
}

/// `n` values from the front of `s`, in order, and the bytes that follow
/// the last.
///
/// Each value is decoded from what the one before it left. That a value
/// leaves less than it was given is asked for here so that the definition
/// is well founded; it always does
/// ([`crate::framing::lemma_value_consumes`]), so the ask changes nothing
/// ([`crate::framing::items_are_decoded_in_order`]).
pub open spec fn decode_items(s: Seq<u8>, n: nat) -> Result<(Seq<RespValue>, Seq<u8>), Failure>
    decreases s.len(), 3nat, n,
{
    if n == 0 {
        Ok((Seq::empty(), s))
    } else {
        match decode_value(s) {
            Err(e) => Err(e),
            Ok((first, after)) => if after.len() < s.len() {
                match decode_items(after, (n - 1) as nat) {
                    Err(e) => Err(e),
                    Ok((others, rest)) => Ok((seq![first] + others, rest)),
                }
            } else {
                fail(ErrorKind::Truncated, after)
            },
        }
    }
}

/// The one value that `s` holds from its first byte to its last.
pub open spec fn decode_message(s: Seq<u8>) -> Result<RespValue, Failure> {
    match decode_value(s) {
        Err(e) => Err(e),
        Ok((value, rest)) => if rest.len() == 0 {
            Ok(value)
        } else {
            fail(ErrorKind::TrailingBytes, rest)
        },
    }
}

} // verus!
