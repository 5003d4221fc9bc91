//! The wire form of values, and the proof that the decoder reads it back.
//!
//! Doubles have none here: what text stands for which number is known to
//! the float parser alone.

use crate::error::Failure;
use crate::number::{
    decimal, digit_run, is_digit, lemma_digit_run, signed_reading, unsigned_reading, MINUS, ZERO,
};
use crate::resp_type::{double_free, RespValue};
use crate::framing::items_are_decoded_in_order;
use crate::wire::{
    decode_array, decode_big_number, decode_body, decode_boolean, decode_bulk_raw, decode_count,
    decode_items, decode_line, decode_null, decode_payload, decode_value, decode_verbatim,
    has_sentinel, lemma_count_consumes, lemma_line_len, lemma_line_len_is, line_len, sign_len,
    ARRAY, BIG_NUMBER, BOOLEAN, BULK_ERROR, BULK_STRING, CR, FALSE, INTEGER, LF, NULL,
    SIMPLE_ERROR, SIMPLE_STRING, TRUE, VERBATIM_STRING,
};
use vstd::prelude::*;

verus! {

/// The digits that write `n` in base ten, without a leading zero unless
/// `n` is 0.
pub open spec fn digits_of(n: nat) -> Seq<u8>
    decreases n,
{
    if n < 10 {
        seq![(ZERO + n) as u8]
    } else {
        digits_of(n / 10).push((ZERO + n % 10) as u8)
    }
}

/// The decimal text of `i`: a `-` where it is negative, then the digits
/// of its magnitude.
pub open spec fn integer_text(i: int) -> Seq<u8> {
    if i < 0 {
        seq![MINUS] + digits_of((-i) as nat)
    } else {
        digits_of(i as nat)
    }
}

/// `s` holds digits only.
pub open spec fn all_digits(s: Seq<u8>) -> bool {
    forall|i: int| 0 <= i < s.len() ==> is_digit(#[trigger] s[i])
}

/// The digits of `n` are digits, at least one, and write `n`.
proof fn lemma_digits_of(n: nat)
    ensures
        digits_of(n).len() > 0,
        all_digits(digits_of(n)),
        decimal(digits_of(n)) == n,
    decreases n,
{
    if n < 10 {
        let d = digits_of(n);
        assert(d.drop_last() =~= Seq::<u8>::empty());
        assert(decimal(d.drop_last()) == 0);
    } else {
        lemma_digits_of(n / 10);
        let front = digits_of(n / 10);
        let d = digits_of(n);
        assert(d.drop_last() =~= front);
    }
}

/// Digits before other bytes are counted with the digits that those bytes
/// start with.
proof fn lemma_digit_run_concat(d: Seq<u8>, rest: Seq<u8>)
    requires
        all_digits(d),
    ensures
        digit_run(d + rest) == d.len() + digit_run(rest),
    decreases d.len(),
{
    if d.len() == 0 {
        assert(d + rest =~= rest);
    } else {
        assert((d + rest).skip(1) =~= d.skip(1) + rest);
        assert forall|i: int| 0 <= i < d.skip(1).len() implies is_digit(#[trigger] d.skip(1)[i]) by {
            assert(d.skip(1)[i] == d[i + 1]);
        }
        lemma_digit_run_concat(d.skip(1), rest);
    }
}

/// A number written by [`digits_of`] is read back, where it is not above
/// `max` and no digit follows it.
proof fn lemma_read_digits_of(n: nat, rest: Seq<u8>, max: nat)
    requires
        n <= max,
        rest.len() == 0 || !is_digit(rest[0]),
    ensures
        unsigned_reading(digits_of(n) + rest, max) == Some((n, rest)),
{
    let d = digits_of(n);
    lemma_digits_of(n);
    lemma_digit_run_concat(d, rest);
    assert((d + rest).take(d.len() as int) =~= d);
    assert((d + rest).skip(d.len() as int) =~= rest);
}

/// A 64-bit number written by [`integer_text`] is read back, where no
/// digit follows it.
proof fn lemma_read_integer_text(i: i64, rest: Seq<u8>)
    requires
        rest.len() == 0 || !is_digit(rest[0]),
    ensures
        signed_reading(integer_text(i as int) + rest) == Some((i, rest)),
{
    let magnitude: nat = if i < 0 {
        (-i) as nat
    } else {
        i as nat
    };
    let d = digits_of(magnitude);
    lemma_digits_of(magnitude);
    lemma_digit_run_concat(d, rest);
    assert((d + rest).take(d.len() as int) =~= d);
    assert((d + rest).skip(d.len() as int) =~= rest);
    let s = integer_text(i as int) + rest;
    if i < 0 {
        assert(s.skip(1) =~= d + rest);
    } else {
        assert(s =~= d + rest);
        assert(is_digit(s[0]));
    }
}

/// CR LF.
pub open spec fn crlf() -> Seq<u8> {
    seq![CR, LF]
}

/// `text` holds neither CR nor LF.
pub open spec fn is_line(text: Seq<u8>) -> bool {
    forall|i: int| 0 <= i < text.len() ==> #[trigger] text[i] != CR && text[i] != LF
}

/// `text` is an optional sign and then digits, at least one.
pub open spec fn is_big_number(text: Seq<u8>) -> bool {
    let digits = text.skip(sign_len(text) as int);
    digits.len() > 0 && all_digits(digits)
}

/// `v` is a value that has a wire form here: a simple or bulk string or
/// error, an integer, a boolean, the null value, a big number or a
/// verbatim string, with a text that its rule can carry; or an array of
/// such values.
pub open spec fn has_wire_form(v: RespValue) -> bool
    decreases v,
{
    match v {
        RespValue::SString(text) => is_line(text),
        RespValue::SError(text) => is_line(text),
        RespValue::Int(_) => true,
        RespValue::BString(bytes) => bytes.len() <= u32::MAX,
        RespValue::BError(bytes) => bytes.len() <= u32::MAX,
        RespValue::Bool(_) => true,
        RespValue::Null => true,
        RespValue::BigNum(text) => is_big_number(text),
        RespValue::VString(encoding, text) => encoding.len() == 3 && text.len() + 4 <= u32::MAX,
        RespValue::Array(items) => items.len() <= u32::MAX && forall|i: int|
            0 <= i < items.len() ==> has_wire_form(#[trigger] items[i]),
        _ => false,
    }
}

/// The bytes that write `v`: lengths and integers without sign or leading
/// zeros, the null value as `_`.
pub open spec fn wire_form(v: RespValue) -> Seq<u8>
    decreases v,
{
    match v {
        RespValue::SString(text) => seq![SIMPLE_STRING] + text + crlf(),
        RespValue::SError(text) => seq![SIMPLE_ERROR] + text + crlf(),
        RespValue::Int(i) => seq![INTEGER] + integer_text(i as int) + crlf(),
        RespValue::BString(bytes) => seq![BULK_STRING] + digits_of(bytes.len()) + crlf() + bytes
            + crlf(),
        RespValue::BError(bytes) => seq![BULK_ERROR] + digits_of(bytes.len()) + crlf() + bytes
            + crlf(),
        RespValue::Bool(b) => seq![
            BOOLEAN,
            if b {
                TRUE
            } else {
                FALSE
            },
        ] + crlf(),
        RespValue::Null => seq![NULL] + crlf(),
        RespValue::BigNum(text) => seq![BIG_NUMBER] + text + crlf(),
        RespValue::VString(encoding, text) => seq![VERBATIM_STRING] + digits_of(text.len() + 4)
            + crlf() + encoding + seq![INTEGER] + text + crlf(),
        RespValue::Array(items) => seq![ARRAY] + digits_of(items.len()) + crlf() + wire_forms(
            items,
        ),
        _ => Seq::empty(),
    }
}

/// The wire forms of `items`, one after the other.
pub open spec fn wire_forms(items: Seq<RespValue>) -> Seq<u8>
    decreases items,
{
    if items.len() == 0 {
        Seq::empty()
    } else {
        wire_form(items[0]) + wire_forms(items.skip(1))
    }
}

/// A line that was written is read back.
proof fn lemma_line_is_decoded(text: Seq<u8>, tail: Seq<u8>)
    requires
        is_line(text),
    ensures
        decode_line(text + crlf() + tail) == Ok::<(Seq<u8>, Seq<u8>), Failure>((text, tail)),
{
    let s = text + crlf() + tail;
    lemma_line_len_is(s, text.len());
    assert(s.skip(text.len() as int) =~= crlf() + tail);
    assert((crlf() + tail).skip(2) =~= tail);
    assert(s.take(text.len() as int) =~= text);
}

/// A length that was written is read back, and is not taken for the
/// sentinel.
proof fn lemma_count_is_decoded(n: nat, tail: Seq<u8>)
    requires
        n <= u32::MAX,
    ensures
        decode_count(digits_of(n) + crlf() + tail) == Ok::<(nat, Seq<u8>), Failure>((n, tail)),
        !has_sentinel(digits_of(n) + crlf() + tail),
{
    let s = digits_of(n) + crlf() + tail;
    lemma_digits_of(n);
    assert(s[0] == digits_of(n)[0]);
    assert(s =~= digits_of(n) + (crlf() + tail));
    lemma_read_digits_of(n, crlf() + tail, u32::MAX as nat);
    assert((crlf() + tail).skip(2) =~= tail);
}

/// A payload that was written is read back.
proof fn lemma_payload_is_decoded(bytes: Seq<u8>, tail: Seq<u8>)
    ensures
        decode_payload(bytes + crlf() + tail, bytes.len()) == Ok::<(Seq<u8>, Seq<u8>), Failure>(
            (bytes, tail),
        ),
{
    let s = bytes + crlf() + tail;
    assert(s.skip(bytes.len() as int) =~= crlf() + tail);
    assert((crlf() + tail).skip(2) =~= tail);
    assert(s.take(bytes.len() as int) =~= bytes);
}

/// A simple string or error that was written is read back.
proof fn lemma_simple_is_decoded(v: RespValue, tail: Seq<u8>)
    requires
        has_wire_form(v),
        v is SString || v is SError,
    ensures
        decode_value(wire_form(v) + tail) == Ok::<(RespValue, Seq<u8>), Failure>((v, tail)),
{
    let text = match v {
        RespValue::SString(text) => text,
        RespValue::SError(text) => text,
        _ => Seq::empty(),
    };
    assert((wire_form(v) + tail).skip(1) =~= text + crlf() + tail);
    lemma_line_is_decoded(text, tail);
}

/// An integer that was written is read back.
proof fn lemma_integer_is_decoded(i: i64, tail: Seq<u8>)
    ensures
        decode_value(wire_form(RespValue::Int(i)) + tail) == Ok::<(RespValue, Seq<u8>), Failure>(
            (RespValue::Int(i), tail),
        ),
{
    let body = (wire_form(RespValue::Int(i)) + tail).skip(1);
    assert(body =~= integer_text(i as int) + (crlf() + tail));
    lemma_read_integer_text(i, crlf() + tail);
    assert((crlf() + tail).skip(2) =~= tail);
}

/// A bulk string or error that was written is read back.
proof fn lemma_bulk_is_decoded(v: RespValue, tail: Seq<u8>)
    requires
        has_wire_form(v),
        v is BString || v is BError,
    ensures
        decode_value(wire_form(v) + tail) == Ok::<(RespValue, Seq<u8>), Failure>((v, tail)),
{
    let bytes = match v {
        RespValue::BString(bytes) => bytes,
        RespValue::BError(bytes) => bytes,
        _ => Seq::empty(),
    };
    let body = (wire_form(v) + tail).skip(1);
    let after = bytes + crlf() + tail;
    assert(body =~= digits_of(bytes.len()) + crlf() + after);
    lemma_count_is_decoded(bytes.len(), after);
    lemma_payload_is_decoded(bytes, tail);
    assert(decode_bulk_raw(body) == Ok::<(Seq<u8>, Seq<u8>), Failure>((bytes, tail)));
}

/// A boolean or the null value that was written is read back.
proof fn lemma_token_is_decoded(v: RespValue, tail: Seq<u8>)
    requires
        v is Bool || v is Null,
    ensures
        decode_value(wire_form(v) + tail) == Ok::<(RespValue, Seq<u8>), Failure>((v, tail)),
{
    let body = (wire_form(v) + tail).skip(1);
    assert((crlf() + tail).skip(2) =~= tail);
    if v is Bool {
        assert(body.skip(1) =~= crlf() + tail);
        assert(decode_boolean(body) == Ok::<(RespValue, Seq<u8>), Failure>((v, tail)));
    } else {
        assert(body =~= crlf() + tail);
        assert(decode_null(body) == Ok::<(RespValue, Seq<u8>), Failure>((v, tail)));
    }
}

/// A big number that was written is read back.
proof fn lemma_big_number_is_decoded(text: Seq<u8>, tail: Seq<u8>)
    requires
        is_big_number(text),
    ensures
        decode_value(wire_form(RespValue::BigNum(text)) + tail) == Ok::<
            (RespValue, Seq<u8>),
            Failure,
        >((RespValue::BigNum(text), tail)),
{
    let body = (wire_form(RespValue::BigNum(text)) + tail).skip(1);
    assert(body =~= text + (crlf() + tail));
    let sign = sign_len(text) as int;
    assert(sign_len(body) == sign_len(text));
    let digits = text.skip(sign);
    assert(body.skip(sign) =~= digits + (crlf() + tail));
    lemma_digit_run_concat(digits, crlf() + tail);
    assert(body.skip(text.len() as int) =~= crlf() + tail);
    assert((crlf() + tail).skip(2) =~= tail);
    assert(body.take(text.len() as int) =~= text);
    assert(decode_big_number(body) == Ok::<(RespValue, Seq<u8>), Failure>(
        (RespValue::BigNum(text), tail),
    ));
}

/// A verbatim string that was written is read back.
proof fn lemma_verbatim_is_decoded(encoding: Seq<u8>, text: Seq<u8>, tail: Seq<u8>)
    requires
        encoding.len() == 3,
        text.len() + 4 <= u32::MAX,
    ensures
        decode_value(wire_form(RespValue::VString(encoding, text)) + tail) == Ok::<
            (RespValue, Seq<u8>),
            Failure,
        >((RespValue::VString(encoding, text), tail)),
{
    let body = (wire_form(RespValue::VString(encoding, text)) + tail).skip(1);
    let after = encoding + seq![INTEGER] + text + crlf() + tail;
    assert(body =~= digits_of(text.len() + 4) + crlf() + after);
    lemma_count_is_decoded(text.len() + 4, after);
    assert(after.skip(4) =~= text + crlf() + tail);
    assert(after.take(3) =~= encoding);
    lemma_payload_is_decoded(text, tail);
    assert(decode_verbatim(body) == Ok::<(RespValue, Seq<u8>), Failure>(
        (RespValue::VString(encoding, text), tail),
    ));
}

/// An array that was written is read back, given that its items are.
proof fn lemma_array_is_decoded(items: Seq<RespValue>, tail: Seq<u8>)
    requires
        items.len() <= u32::MAX,
        decode_items(wire_forms(items) + tail, items.len()) == Ok::<
            (Seq<RespValue>, Seq<u8>),
            Failure,
        >((items, tail)),
    ensures
        decode_value(wire_form(RespValue::Array(items)) + tail) == Ok::<
            (RespValue, Seq<u8>),
            Failure,
        >((RespValue::Array(items), tail)),
{
    let body = (wire_form(RespValue::Array(items)) + tail).skip(1);
    let after = wire_forms(items) + tail;
    assert(body =~= digits_of(items.len()) + crlf() + after);
    lemma_count_is_decoded(items.len(), after);
    assert(decode_array(body) == Ok::<(RespValue, Seq<u8>), Failure>(
        (RespValue::Array(items), tail),
    ));
}

/// The decoder reads back what [`wire_form`] writes, and leaves what
/// follows it.
pub proof fn wire_form_is_decoded(v: RespValue, tail: Seq<u8>)
    requires
        has_wire_form(v),
    ensures
        decode_value(wire_form(v) + tail) == Ok::<(RespValue, Seq<u8>), Failure>((v, tail)),
    decreases v,
{
    match v {
        RespValue::SString(_) => lemma_simple_is_decoded(v, tail),
        RespValue::SError(_) => lemma_simple_is_decoded(v, tail),
        RespValue::Int(i) => lemma_integer_is_decoded(i, tail),
        RespValue::BString(_) => lemma_bulk_is_decoded(v, tail),
        RespValue::BError(_) => lemma_bulk_is_decoded(v, tail),
        RespValue::Bool(_) => lemma_token_is_decoded(v, tail),
        RespValue::Null => lemma_token_is_decoded(v, tail),
        RespValue::BigNum(text) => lemma_big_number_is_decoded(text, tail),
        RespValue::VString(encoding, text) => lemma_verbatim_is_decoded(encoding, text, tail),
        RespValue::Array(items) => {
            wire_forms_are_decoded(items, tail);
            lemma_array_is_decoded(items, tail);
        },
        _ => {},
    }
}

/// The decoder reads back, one after the other, the values that
/// [`wire_forms`] writes.
pub proof fn wire_forms_are_decoded(items: Seq<RespValue>, tail: Seq<u8>)
    requires
        forall|i: int| 0 <= i < items.len() ==> has_wire_form(#[trigger] items[i]),
    ensures
        decode_items(wire_forms(items) + tail, items.len()) == Ok::<
            (Seq<RespValue>, Seq<u8>),
            Failure,
        >((items, tail)),
    decreases items,
{
    if items.len() == 0 {
        assert(wire_forms(items) + tail =~= tail);
        assert(items =~= Seq::empty());
    } else {
        let others = items.skip(1);
        let after = wire_forms(others) + tail;
        assert(wire_forms(items) + tail =~= wire_form(items[0]) + after);
        wire_form_is_decoded(items[0], after);
        assert forall|i: int| 0 <= i < others.len() implies has_wire_form(#[trigger] others[i]) by {
            assert(others[i] == items[i + 1]);
        }
        wire_forms_are_decoded(others, tail);
        items_are_decoded_in_order(wire_forms(items) + tail, items.len());
        assert(seq![items[0]] + others =~= items);
    }
}

/// What the decoder hands back for a single line or payload has a wire
/// form, unless it is a double.
proof fn lemma_decoded_scalar_has_wire_form(marker: u8, body: Seq<u8>)
    requires
        marker != ARRAY,
    ensures
        decode_body(marker, body) matches Ok((v, _)) ==> v is Double || (has_wire_form(v) && v
            !is Array),
{
    lemma_line_len(body);
    lemma_digit_run(body);
    if marker == BIG_NUMBER {
        let sign = sign_len(body) as int;
        let digits = body.skip(sign);
        lemma_digit_run(digits);
        let n = sign + digit_run(digits);
        let text = body.take(n);
        assert(sign_len(text) == sign_len(body));
        assert(text.skip(sign) =~= digits.take(digit_run(digits) as int));
    }
    if marker == VERBATIM_STRING {
        if let Ok((n, after)) = decode_count(body) {
            if n >= 4 && after.len() >= 4 {
                assert(after.take(3).len() == 3);
            }
        }
    }
}

/// What the decoder hands back has a wire form, unless it holds a double.
pub proof fn decoded_value_has_wire_form(s: Seq<u8>)
    ensures
        decode_value(s) matches Ok((v, _)) ==> double_free(v) ==> has_wire_form(v),
    decreases s.len(), 1nat, 0nat,
{
    if s.len() > 0 {
        let body = s.skip(1);
        if s[0] != ARRAY {
            lemma_decoded_scalar_has_wire_form(s[0], body);
        } else if !has_sentinel(body) {
            if let Ok((n, after)) = decode_count(body) {
                lemma_count_consumes(body);
                decoded_items_have_wire_form(after, n);
                items_are_decoded_in_order(after, n);
            }
        }
    }
}

/// What the decoder hands back for the items of an array have a wire
/// form, unless they hold a double.
pub proof fn decoded_items_have_wire_form(s: Seq<u8>, n: nat)
    ensures
        decode_items(s, n) matches Ok((items, _)) ==> forall|i: int|
            0 <= i < items.len() && double_free(#[trigger] items[i]) ==> has_wire_form(items[i]),
    decreases s.len(), 2nat, n,
{
    if n > 0 {
        decoded_value_has_wire_form(s);
        if let Ok((first, after)) = decode_value(s) {
            if after.len() < s.len() {
                decoded_items_have_wire_form(after, (n - 1) as nat);
                if let Ok((others, _)) = decode_items(after, (n - 1) as nat) {
                    let items = seq![first] + others;
                    assert forall|i: int|
                        0 <= i < items.len() && double_free(
                            #[trigger] items[i],
                        ) implies has_wire_form(items[i]) by {
                        if i > 0 {
                            assert(items[i] == others[i - 1]);
                        }
                    }
                }
            }
        }
    }
}

/// Decoding and writing again gives bytes that decode to the same value,
/// and leave the same bytes. Values that hold a double are left out: the
/// text of a double stands for a float.
pub proof fn round_trip(s: Seq<u8>)
    ensures
        decode_value(s) matches Ok((v, rest)) ==> double_free(v) ==> decode_value(
            wire_form(v) + rest,
        ) == Ok::<(RespValue, Seq<u8>), Failure>((v, rest)),
{
    decoded_value_has_wire_form(s);
    if let Ok((v, rest)) = decode_value(s) {
        if double_free(v) {
            wire_form_is_decoded(v, rest);
        }
    }
}

/// Where the wire form holds no number, writing again gives the very bytes
/// that were decoded: for a simple string or error, a boolean, a big
/// number, and the null value spelled `_`.
pub proof fn round_trip_is_exact(s: Seq<u8>)
    ensures
        decode_value(s) matches Ok((v, rest)) ==> (v is SString || v is SError || v is Bool || v
            is BigNum || (v is Null && s[0] == NULL)) ==> wire_form(v) + rest == s,
{
    if let Ok((v, rest)) = decode_value(s) {
        let body = s.skip(1);
        lemma_line_len(body);
        lemma_digit_run(body.skip(sign_len(body) as int));
        let n: int = if s[0] == SIMPLE_STRING || s[0] == SIMPLE_ERROR {
            line_len(body) as int
        } else if s[0] == BOOLEAN {
            1
        } else if s[0] == NULL {
            0
        } else {
            (sign_len(body) + digit_run(body.skip(sign_len(body) as int))) as int
        };
        if v is SString || v is SError || v is Bool || v is BigNum || (v is Null && s[0] == NULL) {
            assert(s =~= seq![s[0]] + body.take(n) + crlf() + body.skip(n).skip(2));
            if v is Bool {
                assert(body.take(1) =~= seq![body[0]]);
                assert(seq![s[0]] + body.take(1) =~= seq![BOOLEAN, body[0]]);
            }
            if v is Null {
                assert(seq![s[0]] + body.take(0) =~= seq![NULL]);
            }
        }
    }
}

} // verus!
