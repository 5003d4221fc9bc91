//! Numbers in text form at the front of a buffer.
//!
//! The reading is nom's: each `read_` function of this module hands the
//! buffer to one of nom's parsers, and its contract is what this crate
//! takes on trust about that parser.

use crate::span::is_end_of;
use vstd::prelude::*;

verus! {

/// `+`.
pub const PLUS: u8 = 0x2b;

/// `-`.
pub const MINUS: u8 = 0x2d;

/// `0`, the first of the ten digits.
pub const ZERO: u8 = 0x30;

/// `1`.
pub const ONE: u8 = 0x31;

/// `b` is one of `0` to `9`.
pub open spec fn is_digit(b: u8) -> bool {
    ZERO <= b <= ZERO + 9
}

/// The number of digits that `s` starts with.
pub open spec fn digit_run(s: Seq<u8>) -> nat
    decreases s.len(),
{
    if s.len() > 0 && is_digit(s[0]) {
        1 + digit_run(s.skip(1))
    } else {
        0
    }
}

/// The number that the digits `s` write in base ten.
pub open spec fn decimal(s: Seq<u8>) -> nat
    decreases s.len(),
{
    if s.len() == 0 {
        0
    } else {
        10 * decimal(s.drop_last()) + (s.last() - ZERO) as nat
    }
}

/// The unsigned decimal at the front of `s`, and what follows it: all the
/// digits that `s` starts with, read in base ten. There is none where `s`
/// starts with no digit or the number is above `max`.
pub open spec fn unsigned_reading(s: Seq<u8>, max: nat) -> Option<(nat, Seq<u8>)> {
    let n = digit_run(s) as int;
    if n == 0 || decimal(s.take(n)) > max {
        None
    } else {
        Some((decimal(s.take(n)), s.skip(n)))
    }
}

/// The signed decimal at the front of `s`, and what follows it: an
/// optional `+` or `-`, then all the digits that come next. There is none
/// where no digit follows or the number does not fit 64 bits.
pub open spec fn signed_reading(s: Seq<u8>) -> Option<(i64, Seq<u8>)> {
    let signed = s.len() > 0 && (s[0] == PLUS || s[0] == MINUS);
    let digits = if signed {
        s.skip(1)
    } else {
        s
    };
    let n = digit_run(digits) as int;
    let magnitude = decimal(digits.take(n)) as int;
    let value = if signed && s[0] == MINUS {
        -magnitude
    } else {
        magnitude
    };
    if n == 0 || value < i64::MIN || value > i64::MAX {
        None
    } else {
        Some((value as i64, digits.skip(n)))
    }
}

/// The digits that `s` starts with lie inside `s`, are digits, and end at
/// the first byte that is none.
pub proof fn lemma_digit_run(s: Seq<u8>)
    ensures
        digit_run(s) <= s.len(),
        forall|i: int| 0 <= i < digit_run(s) ==> is_digit(#[trigger] s[i]),
        digit_run(s) < s.len() ==> !is_digit(s[digit_run(s) as int]),
    decreases s.len(),
{
    if s.len() > 0 && is_digit(s[0]) {
        let t = s.skip(1);
        lemma_digit_run(t);
        assert forall|i: int| 0 <= i < digit_run(s) implies is_digit(#[trigger] s[i]) by {
            if i > 0 {
                assert(s[i] == t[i - 1]);
            }
        }
        if digit_run(s) < s.len() {
            assert(s[digit_run(s) as int] == t[digit_run(t) as int]);
        }
    }
}

/// A decimal that was read leaves an end piece of its buffer, shorter than
/// the buffer.
pub proof fn lemma_readings_consume(s: Seq<u8>)
    ensures
        forall|max: nat| #[trigger]
            unsigned_reading(s, max) matches Some((_, rest)) ==> rest.len() < s.len() && is_end_of(
                rest,
                s,
            ),
        signed_reading(s) matches Some((_, rest)) ==> rest.len() < s.len() && is_end_of(rest, s),
{
    lemma_digit_run(s);
    if s.len() > 0 {
        let digits = s.skip(1);
        lemma_digit_run(digits);
        assert(digits.skip(digit_run(digits) as int) =~= s.skip(1 + digit_run(digits) as int));
    }
}

/// What nom's `double` makes of the front of `s`: the number it reads,
/// as Rust prints a 64-bit float, and the bytes that it leaves.
pub uninterp spec fn double_reading(s: Seq<u8>) -> Option<(Seq<char>, Seq<u8>)>;

/// The decimal of at most 32 bits at the front of `input`.
///
/// Calls nom's `character::complete::u32`. That parser takes no sign. It
/// walks over every leading digit, multiplying by ten and adding with
/// overflow checks, and fails on an empty run or on overflow; it hands back
/// the number and the input from the first byte that is no digit.
#[verifier::external_body]
pub(crate) fn read_u32<'a>(input: &'a [u8]) -> (r: Option<(&'a [u8], u32)>)
    ensures
        unsigned_reading(input@, u32::MAX as nat) == (match r {
            Some((rest, v)) => Some((v as nat, rest@)),
            None => None,
        }),
{
    nom::character::complete::u32::<&[u8], nom::error::Error<&[u8]>>(input).ok()
}

/// The decimal of at most 64 bits at the front of `input`.
///
/// Calls nom's `character::complete::u64`, which is the parser of
/// [`read_u32`] for the wider type.
#[verifier::external_body]
pub(crate) fn read_u64<'a>(input: &'a [u8]) -> (r: Option<(&'a [u8], u64)>)
    ensures
        unsigned_reading(input@, u64::MAX as nat) == (match r {
            Some((rest, v)) => Some((v as nat, rest@)),
            None => None,
        }),
{
    nom::character::complete::u64::<&[u8], nom::error::Error<&[u8]>>(input).ok()
}

/// The signed decimal of at most 64 bits at the front of `input`.
///
/// Calls nom's `character::complete::i64`. That parser takes one optional
/// `+` or `-`, then walks over every digit that follows as the unsigned
/// parsers do, subtracting in place of adding after a `-`, so that the
/// least 64-bit number is read too. It fails where no digit follows the
/// sign or the number leaves the 64-bit range.
#[verifier::external_body]
pub(crate) fn read_i64<'a>(input: &'a [u8]) -> (r: Option<(&'a [u8], i64)>)
    ensures
        signed_reading(input@) == (match r {
            Some((rest, v)) => Some((v, rest@)),
            None => None,
        }),
{
    nom::character::complete::i64::<&[u8], nom::error::Error<&[u8]>>(input).ok()
}

/// The digits that `input` starts with.
///
/// Calls nom's `character::complete::digit1`, which splits the input at
/// its first byte outside `0` to `9` and fails where that is the first
/// byte or the input is empty. Handed back are what follows the digits and
/// the digits.
#[verifier::external_body]
pub(crate) fn read_digits<'a>(input: &'a [u8]) -> (r: Option<(&'a [u8], &'a [u8])>)
    ensures
        r is Some <==> digit_run(input@) > 0,
        r matches Some((rest, digits)) ==> digits@ == input@.take(digit_run(input@) as int)
            && rest@ == input@.skip(digit_run(input@) as int),
{
    nom::character::complete::digit1::<&[u8], nom::error::Error<&[u8]>>(input).ok()
}

/// The floating-point number at the front of `input`, as text.
///
/// Calls nom's `number::complete::double` and prints the float that it
/// gives with `to_string`. What nom accepts as a float and how Rust prints
/// one is not stated here: the result is [`double_reading`] of the input.
/// The one thing claimed beside that is that nom hands back an end piece of
/// its input.
#[verifier::external_body]
pub(crate) fn read_double<'a>(input: &'a [u8]) -> (r: Option<(&'a [u8], String)>)
    ensures
        double_reading(input@) == (match r {
            Some((rest, text)) => Some((text@, rest@)),
            None => None,
        }),
        r matches Some((rest, _)) ==> is_end_of(rest@, input@),
{
    match nom::number::complete::double::<&[u8], nom::error::Error<&[u8]>>(input) {
        Ok((rest, number)) => Some((rest, number.to_string())),
        Err(_) => None,
    }
}

} // verus!
