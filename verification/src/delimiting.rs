//! Values are self-delimiting: what is decoded from the front of a
//! buffer does not depend on the bytes that follow the value.
//!
//! Doubles are left out: where a number ends is known to the float parser
//! alone.

use crate::error::Failure;
use crate::framing::{
    items_are_decoded_in_order, lemma_body_consumes, lemma_items_consume, lemma_pieces_consume,
    lemma_value_consumes,
};
use crate::number::{
    digit_run, is_digit, lemma_digit_run, lemma_readings_consume, signed_reading,
    unsigned_reading, MINUS, PLUS,
};
use crate::resp_type::{double_free, lemma_double_free_array, RespValue};
use crate::span::{is_end_of, lemma_end_of_end};
use crate::wire::{
    decode_big_number, decode_body, decode_boolean, decode_bulk_error, decode_bulk_raw,
    decode_bulk_string, decode_count, decode_integer, decode_items, decode_line, decode_null,
    decode_payload, decode_value, decode_verbatim, has_crlf, has_sentinel, lemma_line_len,
    lemma_line_len_is, line_len, sign_len, ARRAY, BIG_NUMBER, BOOLEAN, BULK_ERROR, BULK_STRING,
    CR, INTEGER, LF, NULL, SIMPLE_ERROR, SIMPLE_STRING, VERBATIM_STRING,
};
use vstd::prelude::*;

verus! {

/// The bytes of `s` before its end piece `rest`.
pub open spec fn taken(s: Seq<u8>, rest: Seq<u8>) -> Seq<u8> {
    s.take(s.len() - rest.len())
}

/// What is taken up to an end piece of an end piece is what is taken up to
/// the first and then from it up to the second.
proof fn lemma_taken_twice(s: Seq<u8>, mid: Seq<u8>, rest: Seq<u8>)
    requires
        is_end_of(mid, s),
        is_end_of(rest, mid),
    ensures
        taken(s, rest) == taken(s, mid) + taken(mid, rest),
        is_end_of(rest, s),
{
    lemma_end_of_end(rest, mid, s);
    assert(taken(s, rest) =~= taken(s, mid) + taken(mid, rest));
}

/// The digits that `s` starts with are `n` where the first `n` bytes are
/// digits and the buffer ends there or another byte follows.
proof fn lemma_digit_run_is(s: Seq<u8>, n: nat)
    requires
        n <= s.len(),
        forall|i: int| 0 <= i < n ==> is_digit(#[trigger] s[i]),
        n < s.len() ==> !is_digit(s[n as int]),
    ensures
        digit_run(s) == n,
{
    lemma_digit_run(s);
}

/// A number that is followed by CR LF is read the same whatever follows
/// that.
proof fn lemma_readings_are_local(s: Seq<u8>, t: Seq<u8>)
    ensures
        forall|max: nat| #[trigger]
            unsigned_reading(s, max) matches Some((v, after)) ==> has_crlf(after)
                ==> unsigned_reading(taken(s, after.skip(2)) + t, max) == Some(
                (v, seq![CR, LF] + t),
            ),
        signed_reading(s) matches Some((v, after)) ==> has_crlf(after) ==> signed_reading(
            taken(s, after.skip(2)) + t,
        ) == Some((v, seq![CR, LF] + t)),
{
    lemma_digit_run(s);
    lemma_readings_consume(s);
    let n = digit_run(s) as int;
    if n > 0 && n + 2 <= s.len() && s[n] == CR {
        let q = s.take(n + 2) + t;
        lemma_digit_run_is(q, n as nat);
        assert(q.take(n) =~= s.take(n));
        assert(q.skip(n) =~= seq![s[n], s[n + 1]] + t);
        assert(s.skip(n).skip(2) =~= s.skip(n + 2));
    }
    if s.len() > 0 && (s[0] == PLUS || s[0] == MINUS) {
        let digits = s.skip(1);
        lemma_digit_run(digits);
        let m = digit_run(digits) as int;
        if m > 0 && m + 3 <= s.len() && digits[m] == CR {
            let q = s.take(m + 3) + t;
            assert(q.skip(1) =~= digits.take(m + 2) + t);
            lemma_digit_run_is(q.skip(1), m as nat);
            assert(q.skip(1).take(m) =~= digits.take(m));
            assert(q.skip(1).skip(m) =~= seq![digits[m], digits[m + 1]] + t);
            assert(digits.skip(m).skip(2) =~= s.skip(m + 3));
        }
    }
}

/// `s` with `t` in place of what `r`, made from `s`, left of it.
spec fn with_tail<T>(
    s: Seq<u8>,
    r: Result<(T, Seq<u8>), Failure>,
    t: Seq<u8>,
) -> Seq<u8> {
    match r {
        Ok((_, rest)) => taken(s, rest) + t,
        Err(_) => s,
    }
}

/// Where `before` is a success, `again` is the same with `t` left.
spec fn kept<T>(
    before: Result<(T, Seq<u8>), Failure>,
    again: Result<(T, Seq<u8>), Failure>,
    t: Seq<u8>,
) -> bool {
    before matches Ok((x, _)) ==> again == Ok::<(T, Seq<u8>), Failure>((x, t))
}

/// A line is decoded the same whatever follows it.
proof fn lemma_line_is_local(s: Seq<u8>, t: Seq<u8>)
    ensures
        kept(decode_line(s), decode_line(with_tail(s, decode_line(s), t)), t),
{
    lemma_line_len(s);
    let n = line_len(s) as int;
    if has_crlf(s.skip(n)) {
        let q = s.take(n + 2) + t;
        lemma_line_len_is(q, n as nat);
        assert(q.skip(n).skip(2) =~= t);
        assert(q.take(n) =~= s.take(n));
        assert(s.skip(n).skip(2) =~= s.skip(n + 2));
    }
}

/// An integer is decoded the same whatever follows it.
proof fn lemma_integer_is_local(s: Seq<u8>, t: Seq<u8>)
    ensures
        kept(decode_integer(s), decode_integer(with_tail(s, decode_integer(s), t)), t),
{
    lemma_readings_are_local(s, t);
    lemma_readings_consume(s);
    assert((seq![CR, LF] + t).skip(2) =~= t);
}

/// A declared length is decoded the same whatever follows it, and is not
/// taken for the sentinel.
proof fn lemma_count_is_local(s: Seq<u8>, t: Seq<u8>)
    ensures
        kept(decode_count(s), decode_count(with_tail(s, decode_count(s), t)), t),
        decode_count(s) is Ok ==> !has_sentinel(with_tail(s, decode_count(s), t)),
{
    lemma_readings_are_local(s, t);
    lemma_readings_consume(s);
    lemma_digit_run(s);
    assert((seq![CR, LF] + t).skip(2) =~= t);
}

/// A payload is decoded the same whatever follows it.
proof fn lemma_payload_is_local(s: Seq<u8>, n: nat, t: Seq<u8>)
    ensures
        kept(decode_payload(s, n), decode_payload(with_tail(s, decode_payload(s, n), t), n), t),
{
    let k = n as int;
    if s.len() >= k && has_crlf(s.skip(k)) {
        let q = s.take(k + 2) + t;
        assert(q.skip(k).skip(2) =~= t);
        assert(q.take(k) =~= s.take(k));
        assert(s.skip(k).skip(2) =~= s.skip(k + 2));
    }
}

/// A boolean and the null value are decoded the same whatever follows
/// them, and so is the sentinel.
proof fn lemma_token_is_local(s: Seq<u8>, t: Seq<u8>)
    ensures
        kept(decode_boolean(s), decode_boolean(with_tail(s, decode_boolean(s), t)), t),
        kept(decode_null(s), decode_null(with_tail(s, decode_null(s), t)), t),
        has_sentinel(s) ==> has_sentinel(s.take(4) + t) && (s.take(4) + t).skip(4) == t && taken(
            s,
            s.skip(4),
        ) == s.take(4),
{
    if s.len() > 0 && has_crlf(s.skip(1)) {
        let q = s.take(3) + t;
        assert(q.skip(1).skip(2) =~= t);
        assert(s.skip(1).skip(2) =~= s.skip(3));
    }
    if has_crlf(s) {
        let q = s.take(2) + t;
        assert(q.skip(2) =~= t);
    }
    if has_sentinel(s) {
        assert((s.take(4) + t).skip(4) =~= t);
    }
}

/// A big number is decoded the same whatever follows it.
proof fn lemma_big_number_is_local(s: Seq<u8>, t: Seq<u8>)
    ensures
        kept(decode_big_number(s), decode_big_number(with_tail(s, decode_big_number(s), t)), t),
{
    let sign = sign_len(s) as int;
    let digits = s.skip(sign);
    lemma_digit_run(digits);
    let m = digit_run(digits) as int;
    if m > 0 && has_crlf(s.skip(sign + m)) {
        let q = s.take(sign + m + 2) + t;
        assert(sign_len(q) == sign_len(s));
        assert(q.skip(sign) =~= digits.take(m + 2) + t);
        lemma_digit_run_is(q.skip(sign), m as nat);
        assert(q.skip(sign + m).skip(2) =~= t);
        assert(q.take(sign + m) =~= s.take(sign + m));
        assert(s.skip(sign + m).skip(2) =~= s.skip(sign + m + 2));
    }
}

/// A length with its payload is decoded the same whatever follows.
proof fn lemma_bulk_is_local(s: Seq<u8>, t: Seq<u8>)
    ensures
        kept(decode_bulk_raw(s), decode_bulk_raw(with_tail(s, decode_bulk_raw(s), t)), t),
        kept(decode_bulk_string(s), decode_bulk_string(with_tail(s, decode_bulk_string(s), t)), t),
        kept(decode_bulk_error(s), decode_bulk_error(with_tail(s, decode_bulk_error(s), t)), t),
{
    lemma_pieces_consume(s);
    lemma_token_is_local(s, t);
    if let Ok((n, after)) = decode_count(s) {
        lemma_pieces_consume(after);
        if let Ok((_, rest)) = decode_payload(after, n) {
            let tail = taken(after, rest) + t;
            lemma_taken_twice(s, after, rest);
            assert(taken(s, rest) + t =~= taken(s, after) + tail);
            lemma_count_is_local(s, tail);
            lemma_payload_is_local(after, n, t);
        }
    }
}

/// A verbatim string is decoded the same whatever follows it.
proof fn lemma_verbatim_is_local(s: Seq<u8>, t: Seq<u8>)
    ensures
        kept(decode_verbatim(s), decode_verbatim(with_tail(s, decode_verbatim(s), t)), t),
{
    lemma_pieces_consume(s);
    if let Ok((n, after)) = decode_count(s) {
        if n >= 4 && after.len() >= 4 && after[3] == INTEGER {
            let text = after.skip(4);
            lemma_pieces_consume(text);
            if let Ok((_, rest)) = decode_payload(text, (n - 4) as nat) {
                let tail = after.take(4) + (taken(text, rest) + t);
                assert(is_end_of(text, after));
                lemma_taken_twice(after, text, rest);
                lemma_taken_twice(s, after, rest);
                assert(taken(after, text) =~= after.take(4));
                assert(taken(s, rest) + t =~= taken(s, after) + tail);
                lemma_count_is_local(s, tail);
                assert(tail.take(3) =~= after.take(3));
                assert(tail.skip(4) =~= taken(text, rest) + t);
                lemma_payload_is_local(text, (n - 4) as nat, t);
            }
        }
    }
}

/// The value behind a marker is decoded the same whatever follows it,
/// unless it holds a double.
proof fn lemma_body_is_local(marker: u8, s: Seq<u8>, t: Seq<u8>)
    ensures
        decode_body(marker, s) matches Ok((v, rest)) ==> double_free(v) ==> decode_body(
            marker,
            taken(s, rest) + t,
        ) == Ok::<(RespValue, Seq<u8>), Failure>((v, t)),
    decreases s.len(), 2nat, 0nat,
{
    if marker == SIMPLE_STRING || marker == SIMPLE_ERROR {
        lemma_line_is_local(s, t);
    } else if marker == INTEGER {
        lemma_integer_is_local(s, t);
    } else if marker == BULK_STRING || marker == BULK_ERROR {
        lemma_bulk_is_local(s, t);
    } else if marker == BOOLEAN || marker == NULL {
        lemma_token_is_local(s, t);
    } else if marker == BIG_NUMBER {
        lemma_big_number_is_local(s, t);
    } else if marker == VERBATIM_STRING {
        lemma_verbatim_is_local(s, t);
    } else if marker == ARRAY {
        lemma_token_is_local(s, t);
        lemma_pieces_consume(s);
        if !has_sentinel(s) {
            if let Ok((n, after)) = decode_count(s) {
                lemma_items_consume(after, n);
                if let Ok((items, rest)) = decode_items(after, n) {
                    if double_free(RespValue::Array(items)) {
                        let tail = taken(after, rest) + t;
                        lemma_taken_twice(s, after, rest);
                        assert(taken(s, rest) + t =~= taken(s, after) + tail);
                        lemma_count_is_local(s, tail);
                        lemma_items_are_local(after, n, t);
                    }
                }
            }
        }
    }
}

/// Values taken one after the other are decoded the same whatever follows
/// the last, unless one of them holds a double.
proof fn lemma_items_are_local(s: Seq<u8>, n: nat, t: Seq<u8>)
    ensures
        decode_items(s, n) matches Ok((items, rest)) ==> double_free(RespValue::Array(items))
            ==> decode_items(taken(s, rest) + t, n) == Ok::<(Seq<RespValue>, Seq<u8>), Failure>(
            (items, t),
        ),
    decreases s.len(), 3nat, n,
{
    if n == 0 {
        assert(taken(s, s) + t =~= t);
    } else {
        lemma_value_consumes(s);
        if let Ok((first, after)) = decode_value(s) {
            lemma_items_consume(after, (n - 1) as nat);
            if let Ok((others, rest)) = decode_items(after, (n - 1) as nat) {
                let items = seq![first] + others;
                if double_free(RespValue::Array(items)) {
                    lemma_double_free_array(items);
                    lemma_double_free_array(others);
                    assert(items[0] == first);
                    assert forall|i: int| 0 <= i < others.len() implies double_free(
                        #[trigger] others[i],
                    ) by {
                        assert(others[i] == items[i + 1]);
                    }
                    let tail = taken(after, rest) + t;
                    lemma_taken_twice(s, after, rest);
                    assert(taken(s, rest) + t =~= taken(s, after) + tail);
                    values_are_self_delimiting(s, tail);
                    lemma_items_are_local(after, (n - 1) as nat, t);
                    items_are_decoded_in_order(taken(s, rest) + t, n);
                }
            }
        }
    }
}

/// What is decoded from the front of a buffer does not depend on the
/// bytes that follow the value: with other bytes in their place the same
/// value comes out, and those bytes are left. So messages that are
/// written one after the other are decoded one after the other. Values
/// that hold a double are left out.
pub proof fn values_are_self_delimiting(s: Seq<u8>, t: Seq<u8>)
    ensures
        decode_value(s) matches Ok((v, rest)) ==> double_free(v) ==> decode_value(
            taken(s, rest) + t,
        ) == Ok::<(RespValue, Seq<u8>), Failure>((v, t)),
    decreases s.len(), 0nat, 0nat,
{
    if s.len() > 0 {
        let body = s.skip(1);
        lemma_body_is_local(s[0], body, t);
        lemma_body_consumes(s[0], body);
        if let Ok((v, rest)) = decode_body(s[0], body) {
            assert(is_end_of(body, s));
            lemma_taken_twice(s, body, rest);
            assert(taken(s, body) =~= seq![s[0]]);
            let q = taken(s, rest) + t;
            assert(q.skip(1) =~= taken(body, rest) + t);
        }
    }
}

} // verus!
