//! Framing: every rule takes bytes off the front of the buffer and leaves
//! the rest, so that values can be decoded one after the other.

use crate::error::Failure;
use crate::number::{digit_run, lemma_digit_run, signed_reading, MINUS, ONE, PLUS};
use crate::resp_type::RespValue;
use crate::span::{is_end_of, lemma_end_of_end};
use crate::wire::{
    decode_big_number, decode_body, decode_boolean, decode_bulk_error, decode_bulk_raw,
    decode_bulk_string, decode_count, decode_double, decode_integer, decode_items, decode_line,
    decode_null, decode_payload, decode_tagged, decode_value, decode_verbatim, double_token,
    end_of_line, has_crlf, has_sentinel, lemma_line_len, ARRAY, BULK_STRING, CR, LF, NULL,
};
use vstd::prelude::*;

verus! {

/// `r`, made from the buffer `s`, leaves an end piece of `s` that is
/// shorter than `s`, or is a failure at a place inside `s`.
pub open spec fn consumes<T>(r: Result<(T, Seq<u8>), Failure>, s: Seq<u8>) -> bool {
    match r {
        Ok((_, rest)) => rest.len() < s.len() && is_end_of(rest, s),
        Err(e) => e.remaining <= s.len(),
    }
}

/// Every rule for a single line or payload takes bytes off the front of
/// its buffer.
pub proof fn lemma_pieces_consume(s: Seq<u8>)
    ensures
        end_of_line(s) matches Ok(rest) ==> rest.len() + 2 == s.len() && is_end_of(rest, s),
        end_of_line(s) matches Err(e) ==> e.remaining == s.len(),
        consumes(decode_line(s), s),
        consumes(decode_integer(s), s),
        consumes(decode_count(s), s),
        has_sentinel(s) ==> is_end_of(s.skip(4), s),
        forall|n: nat| consumes(#[trigger] decode_payload(s, n), s),
        consumes(decode_boolean(s), s),
        consumes(decode_null(s), s),
        consumes(decode_double(s), s),
        consumes(decode_big_number(s), s),
{
    lemma_line_len(s);
    lemma_digit_run(s);
    lemma_digit_run(s.skip(1));
    assert(s.skip(0) =~= s);
    assert forall|k: int| 0 <= k <= s.len() && has_crlf(#[trigger] s.skip(k)) implies is_end_of(
        s.skip(k).skip(2),
        s,
    ) by {
        assert(s.skip(k).skip(2) =~= s.skip(k + 2));
    }
    if let Some((_, after)) = double_token(s) {
        if after.len() <= s.len() && has_crlf(after) {
            assert(after == s.skip(s.len() - after.len()));
        }
    }
    if let Some((_, after)) = signed_reading(s) {
        let signed: int = if s.len() > 0 && (s[0] == PLUS || s[0] == MINUS) {
            1
        } else {
            0
        };
        let n = digit_run(s.skip(signed));
        assert(after =~= s.skip(signed + n));
    }
    if s.len() > 0 {
        let n = digit_run(s.skip(1));
        assert(s.skip(1).skip(n as int) =~= s.skip(1 + n as int));
    }
}

/// The bulk and verbatim rules take bytes off the front of their buffer.
pub proof fn lemma_bulk_consumes(s: Seq<u8>)
    ensures
        consumes(decode_bulk_raw(s), s),
        consumes(decode_bulk_string(s), s),
        consumes(decode_bulk_error(s), s),
        consumes(decode_verbatim(s), s),
{
    lemma_pieces_consume(s);
    if let Ok((n, after)) = decode_count(s) {
        lemma_pieces_consume(after);
        if let Ok((_, rest)) = decode_payload(after, n) {
            lemma_end_of_end(rest, after, s);
        }
        if n >= 4 && after.len() >= 4 {
            let text = after.skip(4);
            lemma_pieces_consume(text);
            assert(is_end_of(text, after));
            if let Ok((_, rest)) = decode_payload(text, (n - 4) as nat) {
                lemma_end_of_end(rest, text, after);
                lemma_end_of_end(rest, after, s);
            }
        }
    }
}

/// Whatever its rule, a value leaves an end piece of the bytes behind its
/// marker.
pub proof fn lemma_body_consumes(marker: u8, s: Seq<u8>)
    ensures
        match decode_body(marker, s) {
            Ok((_, rest)) => is_end_of(rest, s),
            Err(e) => e.remaining <= s.len(),
        },
    decreases s.len(), 2nat, 0nat,
{
    lemma_pieces_consume(s);
    lemma_bulk_consumes(s);
    if marker == ARRAY && !has_sentinel(s) {
        if let Ok((n, after)) = decode_count(s) {
            lemma_items_consume(after, n);
            if let Ok((_, rest)) = decode_items(after, n) {
                lemma_end_of_end(rest, after, s);
            }
        }
    }
}

/// A value takes at least one byte off the front of the buffer and leaves
/// the rest of it.
pub proof fn lemma_value_consumes(s: Seq<u8>)
    ensures
        consumes(decode_value(s), s),
        forall|marker: u8| consumes(#[trigger] decode_tagged(s, marker), s),
    decreases s.len(), 0nat, 0nat,
{
    if s.len() > 0 {
        let body = s.skip(1);
        assert(is_end_of(body, s));
        lemma_body_consumes(s[0], body);
        if let Ok((_, rest)) = decode_body(s[0], body) {
            lemma_end_of_end(rest, body, s);
        }
    }
}

/// Values taken one after the other leave an end piece of the buffer.
pub proof fn lemma_items_consume(s: Seq<u8>, n: nat)
    ensures
        match decode_items(s, n) {
            Ok((_, rest)) => is_end_of(rest, s),
            Err(e) => e.remaining <= s.len(),
        },
    decreases s.len(), 3nat, n,
{
    if n == 0 {
        assert(s.skip(0) =~= s);
    } else {
        lemma_value_consumes(s);
        if let Ok((_, after)) = decode_value(s) {
            lemma_items_consume(after, (n - 1) as nat);
            if let Ok((_, rest)) = decode_items(after, (n - 1) as nat) {
                lemma_end_of_end(rest, after, s);
            }
        }
    }
}

/// Decoding `n` values is decoding one value and then `n - 1` values from
/// what it left, whatever the buffer holds; and it gives `n` values.
pub proof fn items_are_decoded_in_order(s: Seq<u8>, n: nat)
    ensures
        decode_items(s, 0) == Ok::<(Seq<RespValue>, Seq<u8>), Failure>((Seq::empty(), s)),
        n > 0 ==> decode_items(s, n) == (match decode_value(s) {
            Err(e) => Err(e),
            Ok((first, after)) => match decode_items(after, (n - 1) as nat) {
                Err(e) => Err(e),
                Ok((others, rest)) => Ok((seq![first] + others, rest)),
            },
        }),
        decode_items(s, n) matches Ok((items, _)) ==> items.len() == n,
    decreases n,
{
    lemma_value_consumes(s);
    if n > 0 {
        if let Ok((_, after)) = decode_value(s) {
            items_are_decoded_in_order(after, (n - 1) as nat);
        }
    }
}

/// An array is its declared number of values, decoded in order from what
/// follows its header. With the length 0 it is the empty array, not `Null`,
/// and takes nothing but its header.
pub proof fn array_is_its_items(s: Seq<u8>, n: nat, after: Seq<u8>)
    requires
        s.len() > 0,
        s[0] == ARRAY,
        !has_sentinel(s.skip(1)),
        decode_count(s.skip(1)) == Ok::<(nat, Seq<u8>), Failure>((n, after)),
    ensures
        decode_value(s) == (match decode_items(after, n) {
            Err(e) => Err(e),
            Ok((items, rest)) => Ok((RespValue::Array(items), rest)),
        }),
        n == 0 ==> decode_value(s) == Ok::<(RespValue, Seq<u8>), Failure>(
            (RespValue::Array(Seq::empty()), after),
        ),
{
}

/// The three spellings of the null value.
pub open spec fn null_spelling(marker: u8) -> Seq<u8> {
    if marker == NULL {
        seq![NULL, CR, LF]
    } else {
        seq![marker, MINUS, ONE, CR, LF]
    }
}

/// `_`, `$-1` and `*-1`, each with its CR LF, all decode to `Null` and
/// leave what follows them. So each of them can stand for another wherever
/// a value is decoded, as the next of the values of an array too: the
/// outcome is the same, a failure further on included.
pub proof fn null_spellings_agree(marker: u8, tail: Seq<u8>, n: nat)
    requires
        marker == NULL || marker == BULK_STRING || marker == ARRAY,
    ensures
        decode_value(null_spelling(marker) + tail) == Ok::<(RespValue, Seq<u8>), Failure>(
            (RespValue::Null, tail),
        ),
        decode_items(null_spelling(marker) + tail, n + 1) == (match decode_items(tail, n) {
            Err(e) => Err(e),
            Ok((others, rest)) => Ok((seq![RespValue::Null] + others, rest)),
        }),
{
    let s = null_spelling(marker) + tail;
    let body = s.skip(1);
    if marker == NULL {
        assert(body.skip(2) =~= tail);
    } else {
        assert(has_sentinel(body));
        assert(body.skip(4) =~= tail);
    }
    items_are_decoded_in_order(s, n + 1);
}

} // verus!
