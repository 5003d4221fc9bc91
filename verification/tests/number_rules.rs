//! The rules that lean on number parsing, held against a plain reading of
//! the same rules on every short buffer over a small alphabet.

use resp_parser::{
    classify, parse_big_number, parse_bulk_string, parse_double, parse_int, parse_v_string,
    ClassifyError, Command, DecodeError, ErrorKind, RespType,
};

/// Every string of at most `max` characters over `alphabet`.
fn strings(alphabet: &[char], max: usize) -> Vec<String> {
    let mut all = vec![String::new()];
    let mut last = vec![String::new()];
    for _ in 0..max {
        let mut next = Vec::new();
        for s in &last {
            for c in alphabet {
                let mut t = s.clone();
                t.push(*c);
                next.push(t);
            }
        }
        all.extend(next.iter().cloned());
        last = next;
    }
    all
}

fn digit_run(s: &[u8]) -> usize {
    s.iter().take_while(|b| b.is_ascii_digit()).count()
}

fn decimal(s: &[u8]) -> u128 {
    s.iter().fold(0u128, |n, b| n * 10 + (b - b'0') as u128)
}

fn unsigned(s: &[u8], max: u128) -> Option<(u128, usize)> {
    let n = digit_run(s);
    if n == 0 || decimal(&s[..n]) > max {
        None
    } else {
        Some((decimal(&s[..n]), n))
    }
}

fn signed(s: &[u8]) -> Option<(i64, usize)> {
    let sign = usize::from(!s.is_empty() && (s[0] == b'+' || s[0] == b'-'));
    let n = digit_run(&s[sign..]);
    let magnitude = decimal(&s[sign..sign + n]) as i128;
    let value = if sign == 1 && s[0] == b'-' { -magnitude } else { magnitude };
    if n == 0 || value < i64::MIN as i128 || value > i64::MAX as i128 {
        None
    } else {
        Some((value as i64, sign + n))
    }
}

fn failure<T>(kind: ErrorKind, remaining: usize) -> Result<T, DecodeError> {
    Err(DecodeError { kind, remaining })
}

/// What follows the CR LF at byte `at` of `s`.
fn line_end(s: &str, at: usize) -> Result<&str, DecodeError> {
    if s.as_bytes()[at..].starts_with(b"\r\n") {
        Ok(&s[at + 2..])
    } else {
        failure(ErrorKind::MissingCrlf, s.len() - at)
    }
}

fn integer(body: &str) -> Result<(&str, RespType<'_>), DecodeError> {
    match signed(body.as_bytes()) {
        None => failure(ErrorKind::InvalidInteger, body.len()),
        Some((value, n)) => Ok((line_end(body, n)?, RespType::Int(value))),
    }
}

fn payload(s: &str, n: usize) -> Result<(&str, &str), DecodeError> {
    if s.len() < n {
        return failure(ErrorKind::Truncated, s.len());
    }
    let rest = line_end(s, n)?;
    Ok((rest, &s[..n]))
}

fn bulk_string(body: &str) -> Result<(&str, RespType<'_>), DecodeError> {
    if body.starts_with("-1\r\n") {
        return Ok((&body[4..], RespType::Null));
    }
    match unsigned(body.as_bytes(), u32::MAX as u128) {
        None => failure(ErrorKind::InvalidLength, body.len()),
        Some((len, n)) => {
            let (rest, bytes) = payload(line_end(body, n)?, len as usize)?;
            Ok((rest, RespType::BString(bytes)))
        }
    }
}

fn verbatim(body: &str) -> Result<(&str, RespType<'_>), DecodeError> {
    match unsigned(body.as_bytes(), u32::MAX as u128) {
        None => failure(ErrorKind::InvalidLength, body.len()),
        Some((len, n)) => {
            let after = line_end(body, n)?;
            if len < 4 {
                failure(ErrorKind::InvalidLength, body.len())
            } else if after.len() < 4 {
                failure(ErrorKind::Truncated, after.len())
            } else if after.as_bytes()[3] != b':' {
                failure(ErrorKind::MissingSeparator, after.len() - 3)
            } else {
                let (rest, text) = payload(&after[4..], len as usize - 4)?;
                Ok((rest, RespType::VString(&after[..3], text)))
            }
        }
    }
}

fn big_number(body: &str) -> Result<(&str, RespType<'_>), DecodeError> {
    let bytes = body.as_bytes();
    let sign = usize::from(!bytes.is_empty() && (bytes[0] == b'+' || bytes[0] == b'-'));
    let n = digit_run(&bytes[sign..]);
    if n == 0 {
        failure(ErrorKind::InvalidBigNumber, body.len() - sign)
    } else {
        Ok((line_end(body, sign + n)?, RespType::BigNum(&body[..sign + n])))
    }
}

const NUMBERS: [char; 8] = ['0', '1', '9', '+', '-', 'a', '\r', '\n'];

#[test]
fn integers_agree_with_the_rule() {
    for body in strings(&NUMBERS, 5) {
        let buffer = format!(":{}", body);
        assert_eq!(parse_int(&buffer), integer(&buffer[1..]), "{:?}", buffer);
    }
}

#[test]
fn integers_at_the_edge_of_64_bits() {
    for body in [
        "9223372036854775806",
        "9223372036854775807",
        "9223372036854775808",
        "+9223372036854775807",
        "+9223372036854775808",
        "-9223372036854775807",
        "-9223372036854775808",
        "-9223372036854775809",
        "00000000000000000000000000001",
        "-00000000000000000000000000000",
        "18446744073709551616",
        "99999999999999999999999999999999999999999",
    ] {
        let buffer = format!(":{}\r\nrest", body);
        assert_eq!(parse_int(&buffer), integer(&buffer[1..]), "{:?}", buffer);
    }
}

#[test]
fn bulk_strings_agree_with_the_rule() {
    for body in strings(&['0', '1', '2', '-', '+', 'a', '\r', '\n'], 5) {
        for tail in ["", "\r\n", "\r\nab\r\n", "\r\n\r\n"] {
            let buffer = format!("${}{}", body, tail);
            assert_eq!(parse_bulk_string(&buffer), bulk_string(&buffer[1..]), "{:?}", buffer);
        }
    }
}

#[test]
fn lengths_at_the_edge_of_32_bits() {
    for (length, expected) in [
        ("4294967295", ErrorKind::Truncated),
        ("4294967296", ErrorKind::InvalidLength),
        ("04294967295", ErrorKind::Truncated),
        ("42949672950", ErrorKind::InvalidLength),
        ("18446744073709551616", ErrorKind::InvalidLength),
    ] {
        let buffer = format!("${}\r\nabc\r\n", length);
        let outcome = parse_bulk_string(&buffer);
        assert_eq!(outcome, bulk_string(&buffer[1..]), "{:?}", buffer);
        assert_eq!(outcome.unwrap_err().kind, expected);
    }
}

#[test]
fn verbatim_strings_agree_with_the_rule() {
    for body in strings(&['0', '4', '5', '-', ':', 'a', '\r', '\n'], 3) {
        for tail in ["", "\r\n", "\r\ntxt:\r\n", "\r\ntxt:a\r\n", "\r\ntxt;a\r\n", "\r\ntx"] {
            let buffer = format!("={}{}", body, tail);
            assert_eq!(parse_v_string(&buffer), verbatim(&buffer[1..]), "{:?}", buffer);
        }
    }
}

#[test]
fn big_numbers_agree_with_the_rule() {
    for body in strings(&NUMBERS, 5) {
        let buffer = format!("({}", body);
        assert_eq!(parse_big_number(&buffer), big_number(&buffer[1..]), "{:?}", buffer);
    }
}

/// A double that was decoded stands for the number that was written: the
/// text that Rust prints for the float that the written token parses to.
#[test]
fn doubles_stand_for_the_number_written() {
    let mut decoded = 0;
    for body in strings(&['1', '0', '.', 'e', '-', '+', 'i', 'n', 'f', 'a', '\r', '\n'], 5) {
        let buffer = format!(",{}", body);
        match parse_double(&buffer) {
            Ok((rest, RespType::Double(text))) => {
                decoded += 1;
                assert!(buffer.ends_with(rest));
                let token = &buffer[1..buffer.len() - rest.len() - 2];
                assert_eq!(&buffer[1 + token.len()..buffer.len() - rest.len()], "\r\n");
                let written: f64 = token.parse().unwrap();
                assert_eq!(text, written.to_string(), "{:?}", buffer);
                let kept: f64 = text.parse().unwrap();
                assert!(kept == written || (kept.is_nan() && written.is_nan()));
            }
            Ok(other) => panic!("{:?} gave {:?}", buffer, other),
            Err(e) => {
                assert!(
                    e.kind == ErrorKind::InvalidDouble || e.kind == ErrorKind::MissingCrlf,
                    "{:?} gave {:?}",
                    buffer,
                    e
                );
                assert!(e.remaining <= body.len());
            }
        }
    }
    assert!(decoded > 100);
}

#[test]
fn expiries_agree_with_the_rule() {
    let mut texts = strings(&['0', '1', '9', '+', '-', ' ', 'a'], 4);
    texts.push("18446744073709551615".to_string());
    texts.push("18446744073709551616".to_string());
    texts.push("000000000000000000000000000000007".to_string());
    for text in &texts {
        let value = RespType::Array(vec![
            RespType::BString("SET"),
            RespType::BString("k"),
            RespType::BString("v"),
            RespType::BString("PX"),
            RespType::BString(text),
        ]);
        let expected = match unsigned(text.as_bytes(), u64::MAX as u128) {
            Some((ms, n)) if n == text.len() => {
                Ok(Command::SetKey { key: "k", value: "v", px: Some(ms as u64) })
            }
            _ => Err(ClassifyError::InvalidExpiry),
        };
        assert_eq!(classify(value), expected, "{:?}", text);
    }
}
