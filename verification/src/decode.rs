//! The decoder: one function for each rule of the wire format.
//!
//! Each function takes what is left of the buffer as a `&str` and hands
//! back what the rule of the same name in [`crate::wire`] says of its
//! bytes. Spans are cut out of the buffer, never copied.

use crate::error::{DecodeError, ErrorKind, Failure};
use crate::framing::lemma_value_consumes;
use crate::number::{
    lemma_digit_run, lemma_readings_consume, read_digits, read_double, read_i64, read_u32, MINUS,
    ONE, PLUS,
};
use crate::resp_type::{lemma_array_view, values_of, RespType, RespValue};
use crate::span::{
    head, is_end_of, lemma_boundary_at_ascii, lemma_not_boundary, lemma_str_is_utf8, tail,
};
use crate::wire::{
    after_marker, decode_bulk_raw, decode_count, decode_items, decode_line, decode_message,
    decode_payload, decode_tagged, decode_value, double_after, double_token, end_of_line,
    has_sentinel, has_signed_inf, lemma_count_consumes, lemma_line_len_is,
    ARRAY, BIG_NUMBER, BOOLEAN, BULK_ERROR, BULK_STRING, CR, DOUBLE, FALSE, INTEGER, LF, NULL,
    SIMPLE_ERROR, SIMPLE_STRING, TRUE, VERBATIM_STRING,
};
use vstd::prelude::*;
use vstd::slice::slice_subrange;
use vstd::string::{StringExecFns, StringSliceAdditionalSpecFns};

verus! {

/// `r` is what `model` says: the same value and the same bytes left, or
/// the same failure.
pub open spec fn agrees<'a>(
    r: Result<(&'a str, RespType<'a>), DecodeError>,
    model: Result<(RespValue, Seq<u8>), Failure>,
) -> bool {
    match r {
        Ok((rest, value)) => model == Ok::<(RespValue, Seq<u8>), Failure>(
            (value@, rest.spec_bytes()),
        ),
        Err(e) => model == Err::<(RespValue, Seq<u8>), Failure>(e@),
    }
}

/// `r` is what `model` says: the same span and the same bytes left, or the
/// same failure.
pub open spec fn span_agrees<'a>(
    r: Result<(&'a str, &'a str), DecodeError>,
    model: Result<(Seq<u8>, Seq<u8>), Failure>,
) -> bool {
    match r {
        Ok((rest, span)) => model == Ok::<(Seq<u8>, Seq<u8>), Failure>(
            (span.spec_bytes(), rest.spec_bytes()),
        ),
        Err(e) => model == Err::<(Seq<u8>, Seq<u8>), Failure>(e@),
    }
}

/// What follows the CR LF that must stand at byte `at` of `input`.
fn crlf<'a>(input: &'a str, at: usize) -> (r: Result<&'a str, DecodeError>)
    requires
        at <= input.spec_bytes().len(),
    ensures
        match r {
            Ok(rest) => end_of_line(input.spec_bytes().skip(at as int)) == Ok::<Seq<u8>, Failure>(
                rest.spec_bytes(),
            ),
            Err(e) => end_of_line(input.spec_bytes().skip(at as int)) == Err::<Seq<u8>, Failure>(
                e@,
            ),
        },
{
    let bytes = input.as_bytes();
    let len = bytes.len();
    if len - at >= 2 && bytes[at] == CR && bytes[at + 1] == LF {
        proof {
            lemma_str_is_utf8(input);
            lemma_boundary_at_ascii(bytes@, at + 1);
            assert(bytes@.skip(at as int).skip(2) =~= bytes@.skip(at + 2));
        }
        Ok(tail(input, at + 2))
    } else {
        Err(DecodeError { kind: ErrorKind::MissingCrlf, remaining: len - at })
    }
}

/// What follows the marker that `input` must start with.
fn body_of<'a>(input: &'a str, marker: u8) -> (r: Result<&'a str, DecodeError>)
    requires
        marker <= 0x7f,
    ensures
        match r {
            Ok(body) => after_marker(input.spec_bytes(), marker) == Ok::<Seq<u8>, Failure>(
                body.spec_bytes(),
            ),
            Err(e) => after_marker(input.spec_bytes(), marker) == Err::<Seq<u8>, Failure>(e@),
        },
{
    let bytes = input.as_bytes();
    let len = bytes.len();
    if len == 0 {
        Err(DecodeError { kind: ErrorKind::Truncated, remaining: 0 })
    } else if bytes[0] != marker {
        Err(DecodeError { kind: ErrorKind::UnexpectedMarker(bytes[0]), remaining: len })
    } else {
        proof {
            lemma_str_is_utf8(input);
            lemma_boundary_at_ascii(bytes@, 0);
        }
        Ok(tail(input, 1))
    }
}

/// The text of a simple string or error, up to its CR LF.
fn parse_simple_string_raw<'a>(input: &'a str) -> (r: Result<(&'a str, &'a str), DecodeError>)
    ensures
        span_agrees(r, decode_line(input.spec_bytes())),
{
    let bytes = input.as_bytes();
    let len = bytes.len();
    let mut n: usize = 0;
    while n < len && bytes[n] != CR && bytes[n] != LF
        invariant
            n <= len,
            len == bytes@.len(),
            forall|i: int| 0 <= i < n ==> #[trigger] bytes@[i] != CR && bytes@[i] != LF,
        decreases len - n,
    {
        n += 1;
    }
    proof {
        lemma_line_len_is(bytes@, n as nat);
    }
    match crlf(input, n) {
        Err(e) => Err(e),
        Ok(rest) => {
            proof {
                lemma_str_is_utf8(input);
                lemma_boundary_at_ascii(bytes@, n as int);
            }
            Ok((rest, head(input, n)))
        },
    }
}

/// Decodes a simple string: `+`, text without CR or LF, CR LF.
pub fn parse_simple_string<'a>(input: &'a str) -> (r: Result<(&'a str, RespType<'a>), DecodeError>)
    ensures
        agrees(r, decode_tagged(input.spec_bytes(), SIMPLE_STRING)),
{
    match body_of(input, SIMPLE_STRING) {
        Err(e) => Err(e),
        Ok(body) => match parse_simple_string_raw(body) {
            Ok((rest, text)) => Ok((rest, RespType::SString(text))),
            Err(e) => Err(e),
        },
    }
}

/// Decodes a simple error: `-`, text without CR or LF, CR LF. That the
/// text starts with a kind of error is a convention, which is not checked.
pub fn parse_simple_error<'a>(input: &'a str) -> (r: Result<(&'a str, RespType<'a>), DecodeError>)
    ensures
        agrees(r, decode_tagged(input.spec_bytes(), SIMPLE_ERROR)),
{
    match body_of(input, SIMPLE_ERROR) {
        Err(e) => Err(e),
        Ok(body) => match parse_simple_string_raw(body) {
            Ok((rest, text)) => Ok((rest, RespType::SError(text))),
            Err(e) => Err(e),
        },
    }
}

/// Decodes an integer: `:`, a signed decimal that fits 64 bits, CR LF.
pub fn parse_int<'a>(input: &'a str) -> (r: Result<(&'a str, RespType<'a>), DecodeError>)
    ensures
        agrees(r, decode_tagged(input.spec_bytes(), INTEGER)),
{
    let body = match body_of(input, INTEGER) {
        Err(e) => {
            return Err(e);
        },
        Ok(body) => body,
    };
    let bytes = body.as_bytes();
    match read_i64(bytes) {
        None => Err(DecodeError { kind: ErrorKind::InvalidInteger, remaining: bytes.len() }),
        Some((after, value)) => {
            proof {
                lemma_readings_consume(bytes@);
            }
            match crlf(body, bytes.len() - after.len()) {
                Err(e) => Err(e),
                Ok(rest) => Ok((rest, RespType::Int(value))),
            }
        },
    }
}

/// What follows the sentinel `-1` and its CR LF, where `input` starts with
/// them.
fn after_sentinel<'a>(input: &'a str) -> (r: Option<&'a str>)
    ensures
        r is Some <==> has_sentinel(input.spec_bytes()),
        r matches Some(rest) ==> rest.spec_bytes() == input.spec_bytes().skip(4),
{
    let bytes = input.as_bytes();
    if bytes.len() >= 4 && bytes[0] == MINUS && bytes[1] == ONE && bytes[2] == CR
        && bytes[3] == LF {
        proof {
            lemma_str_is_utf8(input);
            lemma_boundary_at_ascii(bytes@, 3);
        }
        Some(tail(input, 4))
    } else {
        None
    }
}

/// A declared length with its CR LF.
fn parse_count<'a>(input: &'a str) -> (r: Result<(&'a str, u32), DecodeError>)
    ensures
        match r {
            Ok((rest, n)) => decode_count(input.spec_bytes()) == Ok::<(nat, Seq<u8>), Failure>(
                (n as nat, rest.spec_bytes()),
            ),
            Err(e) => decode_count(input.spec_bytes()) == Err::<(nat, Seq<u8>), Failure>(e@),
        },
{
    let bytes = input.as_bytes();
    let len = bytes.len();
    match read_u32(bytes) {
        None => Err(DecodeError { kind: ErrorKind::InvalidLength, remaining: len }),
        Some((after, n)) => {
            proof {
                lemma_readings_consume(bytes@);
            }
            match crlf(input, len - after.len()) {
                Err(e) => Err(e),
                Ok(rest) => Ok((rest, n)),
            }
        },
    }
}

/// The `n` bytes of a payload, and what follows its CR LF.
fn parse_payload<'a>(input: &'a str, n: usize) -> (r: Result<(&'a str, &'a str), DecodeError>)
    ensures
        span_agrees(r, decode_payload(input.spec_bytes(), n as nat)),
{
    let len = input.as_bytes().len();
    if len < n {
        return Err(DecodeError { kind: ErrorKind::Truncated, remaining: len });
    }
    match crlf(input, n) {
        Err(e) => Err(e),
        Ok(rest) => {
            proof {
                lemma_str_is_utf8(input);
                lemma_boundary_at_ascii(input.spec_bytes(), n as int);
            }
            Ok((rest, head(input, n)))
        },
    }
}

/// The payload of a bulk string or error: a declared length, CR LF, that
/// many bytes, CR LF.
fn parse_bulk_string_raw<'a>(input: &'a str) -> (r: Result<(&'a str, &'a str), DecodeError>)
    ensures
        span_agrees(r, decode_bulk_raw(input.spec_bytes())),
{
    match parse_count(input) {
        Err(e) => Err(e),
        Ok((after, n)) => parse_payload(after, n as usize),
    }
}

/// Decodes a bulk string: `$`, a declared length, that many bytes, CR LF.
/// The bytes may hold CR and LF. The length `-1` gives `Null`.
pub fn parse_bulk_string<'a>(input: &'a str) -> (r: Result<(&'a str, RespType<'a>), DecodeError>)
    ensures
        agrees(r, decode_tagged(input.spec_bytes(), BULK_STRING)),
{
    let body = match body_of(input, BULK_STRING) {
        Err(e) => {
            return Err(e);
        },
        Ok(body) => body,
    };
    if let Some(rest) = after_sentinel(body) {
        return Ok((rest, RespType::Null));
    }
    match parse_bulk_string_raw(body) {
        Err(e) => Err(e),
        Ok((rest, payload)) => Ok((rest, RespType::BString(payload))),
    }
}

/// Decodes a bulk error: `!`, a declared length, that many bytes, CR LF.
pub fn parse_bulk_error<'a>(input: &'a str) -> (r: Result<(&'a str, RespType<'a>), DecodeError>)
    ensures
        agrees(r, decode_tagged(input.spec_bytes(), BULK_ERROR)),
{
    match body_of(input, BULK_ERROR) {
        Err(e) => Err(e),
        Ok(body) => match parse_bulk_string_raw(body) {
            Err(e) => Err(e),
            Ok((rest, payload)) => Ok((rest, RespType::BError(payload))),
        },
    }
}

/// Decodes a boolean: `#`, `t` or `f`, CR LF.
pub fn parse_bool<'a>(input: &'a str) -> (r: Result<(&'a str, RespType<'a>), DecodeError>)
    ensures
        agrees(r, decode_tagged(input.spec_bytes(), BOOLEAN)),
{
    let body = match body_of(input, BOOLEAN) {
        Err(e) => {
            return Err(e);
        },
        Ok(body) => body,
    };
    let bytes = body.as_bytes();
    let len = bytes.len();
    if len == 0 {
        return Err(DecodeError { kind: ErrorKind::Truncated, remaining: 0 });
    }
    let c = bytes[0];
    if c != TRUE && c != FALSE {
        return Err(DecodeError { kind: ErrorKind::InvalidBoolean, remaining: len });
    }
    match crlf(body, 1) {
        Err(e) => Err(e),
        Ok(rest) => Ok((rest, RespType::Bool(c == TRUE))),
    }
}

/// Decodes the null value in its own spelling: `_`, CR LF.
pub fn parse_null<'a>(input: &'a str) -> (r: Result<(&'a str, RespType<'a>), DecodeError>)
    ensures
        agrees(r, decode_tagged(input.spec_bytes(), NULL)),
{
    let body = match body_of(input, NULL) {
        Err(e) => {
            return Err(e);
        },
        Ok(body) => body,
    };
    proof {
        assert(body.spec_bytes().skip(0) =~= body.spec_bytes());
    }
    match crlf(body, 0) {
        Err(e) => Err(e),
        Ok(rest) => Ok((rest, RespType::Null)),
    }
}

/// `bytes` starts with `sign` and then `inf`.
fn starts_with_signed_inf(bytes: &[u8], sign: u8) -> (r: bool)
    ensures
        r == has_signed_inf(bytes@, sign),
{
    // i, n, f
    bytes.len() >= 4 && bytes[0] == sign && bytes[1] == 0x69 && bytes[2] == 0x6e && bytes[3]
        == 0x66
}

/// The number of a double: how many bytes of `input` it takes, and its
/// text.
fn parse_double_token<'a>(input: &'a str) -> (r: Option<(usize, String)>)
    ensures
        match r {
            Some((n, text)) => n <= input.spec_bytes().len() && double_token(input.spec_bytes())
                == Some((text@, input.spec_bytes().skip(n as int))),
            None => double_token(input.spec_bytes()) is None,
        },
{
    let bytes = input.as_bytes();
    if starts_with_signed_inf(bytes, PLUS) {
        proof {
            reveal_strlit("inf");
            assert("inf"@ =~= seq!['i', 'n', 'f']);
        }
        Some((4, String::from_str("inf")))
    } else if starts_with_signed_inf(bytes, MINUS) {
        proof {
            reveal_strlit("-inf");
            assert("-inf"@ =~= seq!['-', 'i', 'n', 'f']);
        }
        Some((4, String::from_str("-inf")))
    } else {
        match read_double(bytes) {
            None => None,
            Some((after, text)) => Some((bytes.len() - after.len(), text)),
        }
    }
}

/// Completes a double whose number has been read already. `input` is
/// what follows the `,`; `token` holds what follows the number and the
/// number's text, or nothing where `input` starts with no number. What is
/// left to do is to ask for the CR LF behind the number.
pub fn parse_double_after<'a>(input: &'a str, token: Option<(&'a str, String)>) -> (r: Result<
    (&'a str, RespType<'a>),
    DecodeError,
>)
    ensures
        agrees(
            r,
            double_after(
                input.spec_bytes(),
                match token {
                    Some((after, text)) => Some((text@, after.spec_bytes())),
                    None => None,
                },
            ),
        ),
{
    match token {
        None => Err(
            DecodeError { kind: ErrorKind::InvalidDouble, remaining: input.as_bytes().len() },
        ),
        Some((after, text)) => {
            proof {
                assert(after.spec_bytes().skip(0) =~= after.spec_bytes());
            }
            match crlf(after, 0) {
                Err(e) => Err(e),
                Ok(rest) => Ok((rest, RespType::Double(text))),
            }
        },
    }
}

/// Decodes a double: `,`, then `+inf`, `-inf` or a floating-point number,
/// CR LF. The value is the number's text as Rust prints a float.
pub fn parse_double<'a>(input: &'a str) -> (r: Result<(&'a str, RespType<'a>), DecodeError>)
    ensures
        agrees(r, decode_tagged(input.spec_bytes(), DOUBLE)),
{
    let body = match body_of(input, DOUBLE) {
        Err(e) => {
            return Err(e);
        },
        Ok(body) => body,
    };
    match parse_double_token(body) {
        None => parse_double_after(body, None),
        Some((n, text)) => if body.is_char_boundary(n) {
            parse_double_after(body, Some((tail(body, n), text)))
        } else {
            // The number ends inside a character, so no CR follows it.
            proof {
                lemma_str_is_utf8(body);
                lemma_not_boundary(body.spec_bytes(), n as int);
            }
            Err(
                DecodeError {
                    kind: ErrorKind::MissingCrlf,
                    remaining: body.as_bytes().len() - n,
                },
            )
        },
    }
}

/// Decodes a big number: `(`, an optional sign, digits, CR LF. The value
/// is the text as written, sign included, however long.
pub fn parse_big_number<'a>(input: &'a str) -> (r: Result<(&'a str, RespType<'a>), DecodeError>)
    ensures
        agrees(r, decode_tagged(input.spec_bytes(), BIG_NUMBER)),
{
    let body = match body_of(input, BIG_NUMBER) {
        Err(e) => {
            return Err(e);
        },
        Ok(body) => body,
    };
    let bytes = body.as_bytes();
    let len = bytes.len();
    let sign: usize = if len > 0 && (bytes[0] == PLUS || bytes[0] == MINUS) {
        1
    } else {
        0
    };
    let digits = slice_subrange(bytes, sign, len);
    proof {
        lemma_digit_run(digits@);
    }
    match read_digits(digits) {
        None => Err(DecodeError { kind: ErrorKind::InvalidBigNumber, remaining: len - sign }),
        Some((_, run)) => {
            let n = sign + run.len();
            match crlf(body, n) {
                Err(e) => Err(e),
                Ok(rest) => {
                    proof {
                        lemma_str_is_utf8(body);
                        lemma_boundary_at_ascii(bytes@, n as int);
                    }
                    Ok((rest, RespType::BigNum(head(body, n))))
                },
            }
        },
    }
}

/// Decodes a verbatim string: `=`, a declared length, CR LF, three bytes
/// of encoding, `:`, the text, CR LF. The declared length counts the
/// encoding and the `:`, so the text is 4 bytes shorter.
pub fn parse_v_string<'a>(input: &'a str) -> (r: Result<(&'a str, RespType<'a>), DecodeError>)
    ensures
        agrees(r, decode_tagged(input.spec_bytes(), VERBATIM_STRING)),
{
    let body = match body_of(input, VERBATIM_STRING) {
        Err(e) => {
            return Err(e);
        },
        Ok(body) => body,
    };
    let whole = body.as_bytes().len();
    match parse_count(body) {
        Err(e) => Err(e),
        Ok((after, n)) => {
            let bytes = after.as_bytes();
            let len = bytes.len();
            if n < 4 {
                return Err(DecodeError { kind: ErrorKind::InvalidLength, remaining: whole });
            }
            if len < 4 {
                return Err(DecodeError { kind: ErrorKind::Truncated, remaining: len });
            }
            if bytes[3] != INTEGER {
                return Err(DecodeError { kind: ErrorKind::MissingSeparator, remaining: len - 3 });
            }
            proof {
                lemma_str_is_utf8(after);
                lemma_boundary_at_ascii(bytes@, 3);
            }
            let encoding = head(after, 3);
            let text = tail(after, 4);
            match parse_payload(text, (n - 4) as usize) {
                Err(e) => Err(e),
                Ok((rest, payload)) => Ok((rest, RespType::VString(encoding, payload))),
            }
        },
    }
}

/// What [`decode_items`] says of a buffer from which `done` was decoded
/// already and `n` more values are due.
pub open spec fn items_after(
    done: Seq<RespValue>,
    r: Result<(Seq<RespValue>, Seq<u8>), Failure>,
) -> Result<(Seq<RespValue>, Seq<u8>), Failure> {
    match r {
        Ok((others, rest)) => Ok((done + others, rest)),
        Err(e) => Err(e),
    }
}

/// Decodes an array: `*`, a declared length, CR LF, then that many
/// values, each decoded in turn from what the one before it left. The
/// length `-1` gives `Null`, the length 0 an empty array.
pub fn parse_array<'a>(input: &'a str) -> (r: Result<(&'a str, RespType<'a>), DecodeError>)
    ensures
        agrees(r, decode_tagged(input.spec_bytes(), ARRAY)),
    decreases input.spec_bytes().len(), 0nat,
{
    let body = match body_of(input, ARRAY) {
        Err(e) => {
            return Err(e);
        },
        Ok(body) => body,
    };
    if let Some(rest) = after_sentinel(body) {
        return Ok((rest, RespType::Null));
    }
    match parse_count(body) {
        Err(e) => Err(e),
        Ok((after, n)) => {
            proof {
                lemma_count_consumes(body.spec_bytes());
            }
            let mut items: Vec<RespType<'a>> = Vec::new();
            let mut rest = after;
            let mut i: u32 = 0;
            let ghost mut done: Seq<RespValue> = Seq::empty();
            proof {
                assert(done =~= values_of(items@));
                if let Ok((all, _)) = decode_items(after.spec_bytes(), n as nat) {
                    assert(done + all =~= all);
                }
            }
            while i < n
                invariant
                    i <= n,
                    rest.spec_bytes().len() < input.spec_bytes().len(),
                    after_marker(input.spec_bytes(), ARRAY) == Ok::<Seq<u8>, Failure>(
                        body.spec_bytes(),
                    ),
                    !has_sentinel(body.spec_bytes()),
                    decode_count(body.spec_bytes()) == Ok::<(nat, Seq<u8>), Failure>(
                        (n as nat, after.spec_bytes()),
                    ),
                    done == values_of(items@),
                    decode_items(after.spec_bytes(), n as nat) == items_after(
                        done,
                        decode_items(rest.spec_bytes(), (n - i) as nat),
                    ),
                decreases n - i,
            {
                match parse_chunk(rest) {
                    Err(e) => {
                        return Err(e);
                    },
                    Ok((next, value)) => {
                        proof {
                            if let Ok((more, _)) = decode_items(
                                next.spec_bytes(),
                                (n - i - 1) as nat,
                            ) {
                                assert(done.push(value@) + more =~= done + (seq![value@] + more));
                            }
                            done = done.push(value@);
                            assert(done =~= values_of(items@.push(value)));
                        }
                        items.push(value);
                        rest = next;
                        i += 1;
                    },
                }
            }
            proof {
                lemma_array_view(items);
                assert(done + Seq::<RespValue>::empty() =~= done);
            }
            Ok((rest, RespType::Array(items)))
        },
    }
}

/// Decodes one value from the front of `input` and hands it back with the
/// part of `input` that follows it.
///
/// The first byte chooses the rule, and each rule takes exactly the bytes
/// that it declares. On failure nothing of a value is handed back, only
/// the rule that was broken and where.
pub fn parse_chunk<'a>(input: &'a str) -> (r: Result<(&'a str, RespType<'a>), DecodeError>)
    ensures
        match r {
            Ok((rest, value)) => decode_value(input.spec_bytes()) == Ok::<
                (RespValue, Seq<u8>),
                Failure,
            >((value@, rest.spec_bytes())),
            Err(e) => decode_value(input.spec_bytes()) == Err::<(RespValue, Seq<u8>), Failure>(e@),
        },
        r matches Ok((rest, _)) ==> rest.spec_bytes().len() < input.spec_bytes().len()
            && is_end_of(rest.spec_bytes(), input.spec_bytes()),
        r matches Err(e) ==> e.remaining <= input.spec_bytes().len(),
    decreases input.spec_bytes().len(), 1nat,
{
    proof {
        lemma_value_consumes(input.spec_bytes());
    }
    let bytes = input.as_bytes();
    let len = bytes.len();
    if len == 0 {
        return Err(DecodeError { kind: ErrorKind::Truncated, remaining: 0 });
    }
    let marker = bytes[0];
    if marker == SIMPLE_STRING {
        parse_simple_string(input)
    } else if marker == SIMPLE_ERROR {
        parse_simple_error(input)
    } else if marker == INTEGER {
        parse_int(input)
    } else if marker == BULK_STRING {
        parse_bulk_string(input)
    } else if marker == BULK_ERROR {
        parse_bulk_error(input)
    } else if marker == ARRAY {
        parse_array(input)
    } else if marker == BOOLEAN {
        parse_bool(input)
    } else if marker == NULL {
        parse_null(input)
    } else if marker == DOUBLE {
        parse_double(input)
    } else if marker == BIG_NUMBER {
        parse_big_number(input)
    } else if marker == VERBATIM_STRING {
        parse_v_string(input)
    } else {
        Err(DecodeError { kind: ErrorKind::UnexpectedMarker(marker), remaining: len })
    }
}

/// Decodes the one value that `input` holds. Bytes left over behind the
/// value are a failure.
pub fn parse<'a>(input: &'a str) -> (r: Result<(&'a str, RespType<'a>), DecodeError>)
    ensures
        match r {
            Ok((rest, value)) => rest.spec_bytes().len() == 0 && decode_message(
                input.spec_bytes(),
            ) == Ok::<RespValue, Failure>(value@),
            Err(e) => decode_message(input.spec_bytes()) == Err::<RespValue, Failure>(e@),
        },
        r matches Err(e) ==> e.remaining <= input.spec_bytes().len(),
{
    match parse_chunk(input) {
        Err(e) => Err(e),
        Ok((rest, value)) => {
            let left = rest.as_bytes().len();
            if left == 0 {
                Ok((rest, value))
            } else {
                Err(DecodeError { kind: ErrorKind::TrailingBytes, remaining: left })
            }
        },
    }
}

} // verus!
