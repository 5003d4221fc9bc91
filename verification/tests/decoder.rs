use resp_parser::{
    parse, parse_array, parse_big_number, parse_bool, parse_bulk_error, parse_bulk_string,
    parse_chunk, parse_double, parse_double_after, parse_int, parse_simple_error, parse_v_string,
    DecodeError, ErrorKind, RespType,
};

fn failure(kind: ErrorKind, remaining: usize) -> DecodeError {
    DecodeError { kind, remaining }
}

#[test]
fn simple_string_keeps_its_text() {
    assert_eq!(parse("+OK\r\n"), Ok(("", RespType::SString("OK"))));
    assert_eq!(parse("+\r\n"), Ok(("", RespType::SString(""))));
    assert_eq!(
        parse_chunk("+hello world\r\n+next\r\n"),
        Ok(("+next\r\n", RespType::SString("hello world")))
    );
}

#[test]
fn simple_string_must_end_with_crlf() {
    assert_eq!(parse("+OK"), Err(failure(ErrorKind::MissingCrlf, 0)));
    assert_eq!(parse("+OK\r"), Err(failure(ErrorKind::MissingCrlf, 1)));
    assert_eq!(parse("+OK\nmore\r\n"), Err(failure(ErrorKind::MissingCrlf, 7)));
    assert_eq!(parse("+a\rb\r\n"), Err(failure(ErrorKind::MissingCrlf, 4)));
}

#[test]
fn simple_error_keeps_its_text() {
    assert_eq!(
        parse("-ERR unknown command\r\n"),
        Ok(("", RespType::SError("ERR unknown command")))
    );
    assert_eq!(
        parse_simple_error("+OK\r\n"),
        Err(failure(ErrorKind::UnexpectedMarker(b'+'), 5))
    );
}

#[test]
fn integers_are_read_in_full() {
    assert_eq!(parse(":0\r\n"), Ok(("", RespType::Int(0))));
    assert_eq!(parse(":42\r\n"), Ok(("", RespType::Int(42))));
    assert_eq!(parse(":+42\r\n"), Ok(("", RespType::Int(42))));
    assert_eq!(parse(":-0\r\n"), Ok(("", RespType::Int(0))));
    assert_eq!(parse(":007\r\n"), Ok(("", RespType::Int(7))));
    assert_eq!(
        parse(":9223372036854775807\r\n"),
        Ok(("", RespType::Int(i64::MAX)))
    );
    assert_eq!(
        parse(":-9223372036854775808\r\n"),
        Ok(("", RespType::Int(i64::MIN)))
    );
    assert_eq!(parse_int(":12\r\n:13\r\n"), Ok((":13\r\n", RespType::Int(12))));
}

#[test]
fn integers_out_of_range_or_malformed_fail() {
    assert_eq!(
        parse(":9223372036854775808\r\n"),
        Err(failure(ErrorKind::InvalidInteger, 21))
    );
    assert_eq!(
        parse(":-9223372036854775809\r\n"),
        Err(failure(ErrorKind::InvalidInteger, 22))
    );
    assert_eq!(parse(":\r\n"), Err(failure(ErrorKind::InvalidInteger, 2)));
    assert_eq!(parse(":-\r\n"), Err(failure(ErrorKind::InvalidInteger, 3)));
    assert_eq!(parse(":+-1\r\n"), Err(failure(ErrorKind::InvalidInteger, 5)));
    assert_eq!(parse(":abc\r\n"), Err(failure(ErrorKind::InvalidInteger, 5)));
    assert_eq!(parse(":12a\r\n"), Err(failure(ErrorKind::MissingCrlf, 3)));
    assert_eq!(parse(":12"), Err(failure(ErrorKind::MissingCrlf, 0)));
}

#[test]
fn bulk_string_counts_bytes() {
    assert_eq!(
        parse("$11\r\nhello\r\nfoo\n\r\n"),
        Ok(("", RespType::BString("hello\r\nfoo\n")))
    );
    assert_eq!(parse("$005\r\nhello\r\n"), Ok(("", RespType::BString("hello"))));
    // Two bytes, one character.
    assert_eq!(parse("$2\r\n\u{e9}\r\n"), Ok(("", RespType::BString("\u{e9}"))));
    // One byte would end in the middle of the character.
    assert_eq!(
        parse("$1\r\n\u{e9}\r\n"),
        Err(failure(ErrorKind::MissingCrlf, 3))
    );
    assert_eq!(
        parse_bulk_string("$3\r\nfoo\r\n$3\r\nbar\r\n"),
        Ok(("$3\r\nbar\r\n", RespType::BString("foo")))
    );
}

#[test]
fn bulk_string_failures() {
    assert_eq!(parse("$5\r\nhell"), Err(failure(ErrorKind::Truncated, 4)));
    assert_eq!(parse("$5\r\nhello"), Err(failure(ErrorKind::MissingCrlf, 0)));
    assert_eq!(
        parse("$5\r\nhello!\r\n"),
        Err(failure(ErrorKind::MissingCrlf, 3))
    );
    assert_eq!(parse("$5hello\r\n"), Err(failure(ErrorKind::MissingCrlf, 7)));
    assert_eq!(parse("$\r\n\r\n"), Err(failure(ErrorKind::InvalidLength, 4)));
    assert_eq!(parse("$+5\r\nhello\r\n"), Err(failure(ErrorKind::InvalidLength, 11)));
    assert_eq!(parse("$-2\r\n"), Err(failure(ErrorKind::InvalidLength, 4)));
    assert_eq!(parse("$-1"), Err(failure(ErrorKind::InvalidLength, 2)));
    assert_eq!(
        parse("$4294967296\r\n"),
        Err(failure(ErrorKind::InvalidLength, 12))
    );
}

#[test]
fn bulk_error_has_no_sentinel() {
    assert_eq!(
        parse("!21\r\nSYNTAX invalid syntax\r\n"),
        Ok(("", RespType::BError("SYNTAX invalid syntax")))
    );
    assert_eq!(parse("!-1\r\n"), Err(failure(ErrorKind::InvalidLength, 4)));
    assert_eq!(
        parse_bulk_error("$3\r\nfoo\r\n"),
        Err(failure(ErrorKind::UnexpectedMarker(b'$'), 9))
    );
}

#[test]
fn booleans() {
    assert_eq!(parse("#t\r\n"), Ok(("", RespType::Bool(true))));
    assert_eq!(parse("#f\r\n"), Ok(("", RespType::Bool(false))));
    assert_eq!(parse("#x\r\n"), Err(failure(ErrorKind::InvalidBoolean, 3)));
    assert_eq!(parse("#T\r\n"), Err(failure(ErrorKind::InvalidBoolean, 3)));
    assert_eq!(parse("#"), Err(failure(ErrorKind::Truncated, 0)));
    assert_eq!(parse("#tt\r\n"), Err(failure(ErrorKind::MissingCrlf, 3)));
    assert_eq!(parse_bool("#f\r\n#t\r\n"), Ok(("#t\r\n", RespType::Bool(false))));
}

#[test]
fn null_in_its_three_spellings() {
    assert_eq!(parse("_\r\n"), Ok(("", RespType::Null)));
    assert_eq!(parse("$-1\r\n"), Ok(("", RespType::Null)));
    assert_eq!(parse("*-1\r\n"), Ok(("", RespType::Null)));
    for spelling in ["_\r\n", "$-1\r\n", "*-1\r\n"] {
        let buffer = format!("*3\r\n:1\r\n{}:2\r\n+tail\r\n", spelling);
        assert_eq!(
            parse_chunk(&buffer),
            Ok((
                "+tail\r\n",
                RespType::Array(vec![RespType::Int(1), RespType::Null, RespType::Int(2)])
            ))
        );
        let broken = format!("*2\r\n{}:x\r\n", spelling);
        assert_eq!(
            parse_chunk(&broken),
            Err(failure(ErrorKind::InvalidInteger, 3))
        );
    }
}

#[test]
fn trailing_bytes_fail_only_in_parse() {
    assert_eq!(parse("_stuff\r\n"), Err(failure(ErrorKind::MissingCrlf, 7)));
    assert_eq!(parse("_\r\n_\r\n"), Err(failure(ErrorKind::TrailingBytes, 3)));
    assert_eq!(parse_chunk("_\r\n_\r\n"), Ok(("_\r\n", RespType::Null)));
    assert_eq!(parse(":1\r\n "), Err(failure(ErrorKind::TrailingBytes, 1)));
}

#[test]
fn doubles_are_kept_as_printed() {
    assert_eq!(parse(",1.5\r\n"), Ok(("", RespType::Double("1.5".to_string()))));
    assert_eq!(parse(",-2.50\r\n"), Ok(("", RespType::Double("-2.5".to_string()))));
    assert_eq!(parse(",1e3\r\n"), Ok(("", RespType::Double("1000".to_string()))));
    assert_eq!(parse(",.5\r\n"), Ok(("", RespType::Double("0.5".to_string()))));
    assert_eq!(parse(",+inf\r\n"), Ok(("", RespType::Double("inf".to_string()))));
    assert_eq!(parse(",-inf\r\n"), Ok(("", RespType::Double("-inf".to_string()))));
    assert_eq!(parse(",inf\r\n"), Ok(("", RespType::Double("inf".to_string()))));
    assert_eq!(parse(",nan\r\n"), Ok(("", RespType::Double("NaN".to_string()))));
    assert_eq!(
        parse_double(",0.25\r\n:1\r\n"),
        Ok((":1\r\n", RespType::Double("0.25".to_string())))
    );
}

#[test]
fn doubles_that_fail() {
    assert_eq!(parse(",\r\n"), Err(failure(ErrorKind::InvalidDouble, 2)));
    assert_eq!(parse(",abc\r\n"), Err(failure(ErrorKind::InvalidDouble, 5)));
    assert_eq!(parse(",1.5"), Err(failure(ErrorKind::MissingCrlf, 0)));
    assert_eq!(parse(",1.5x\r\n"), Err(failure(ErrorKind::MissingCrlf, 3)));
    assert_eq!(parse(",+inf"), Err(failure(ErrorKind::MissingCrlf, 0)));
    assert_eq!(parse(",infinity\r\n"), Err(failure(ErrorKind::MissingCrlf, 7)));
    assert_eq!(parse(",1\u{e9}\r\n"), Err(failure(ErrorKind::MissingCrlf, 4)));
}

#[test]
fn double_after_its_number() {
    assert_eq!(
        parse_double_after("1.5\r\nrest", Some(("\r\nrest", "1.5".to_string()))),
        Ok(("rest", RespType::Double("1.5".to_string())))
    );
    assert_eq!(
        parse_double_after("1.5\r\nrest", Some((".5\r\nrest", "1".to_string()))),
        Err(failure(ErrorKind::MissingCrlf, 8))
    );
    assert_eq!(
        parse_double_after("x\r\n", None),
        Err(failure(ErrorKind::InvalidDouble, 3))
    );
    assert_eq!(
        parse_double_after("7", Some(("", "7".to_string()))),
        Err(failure(ErrorKind::MissingCrlf, 0))
    );
}

#[test]
fn big_numbers_keep_sign_and_digits() {
    assert_eq!(parse("(0\r\n"), Ok(("", RespType::BigNum("0"))));
    assert_eq!(parse("(+12\r\n"), Ok(("", RespType::BigNum("+12"))));
    assert_eq!(parse("(-0012\r\n"), Ok(("", RespType::BigNum("-0012"))));
    assert_eq!(
        parse_big_number("(99999999999999999999999\r\n_\r\n"),
        Ok(("_\r\n", RespType::BigNum("99999999999999999999999")))
    );
    assert_eq!(parse("(\r\n"), Err(failure(ErrorKind::InvalidBigNumber, 2)));
    assert_eq!(parse("(-\r\n"), Err(failure(ErrorKind::InvalidBigNumber, 2)));
    assert_eq!(parse("(+-1\r\n"), Err(failure(ErrorKind::InvalidBigNumber, 4)));
    assert_eq!(
        parse("(-3492890asd328\r\n"),
        Err(failure(ErrorKind::MissingCrlf, 8))
    );
    assert_eq!(parse("(12"), Err(failure(ErrorKind::MissingCrlf, 0)));
}

#[test]
fn verbatim_strings() {
    assert_eq!(parse("=4\r\ntxt:\r\n"), Ok(("", RespType::VString("txt", ""))));
    assert_eq!(
        parse_v_string("=9\r\nmkd:# a\r\n\r\n+x\r\n"),
        Ok(("+x\r\n", RespType::VString("mkd", "# a\r\n")))
    );
    assert_eq!(
        parse("=3\r\ntxt\r\n"),
        Err(failure(ErrorKind::InvalidLength, 8))
    );
    assert_eq!(parse("=0\r\n\r\n"), Err(failure(ErrorKind::InvalidLength, 5)));
    assert_eq!(parse("=-1\r\n"), Err(failure(ErrorKind::InvalidLength, 4)));
    assert_eq!(parse("=15\r\ntxt"), Err(failure(ErrorKind::Truncated, 3)));
    assert_eq!(
        parse("=15\r\ntxt;Some string\r\n"),
        Err(failure(ErrorKind::MissingSeparator, 14))
    );
    assert_eq!(
        parse("=15\r\ntxt:Some\r\n"),
        Err(failure(ErrorKind::Truncated, 6))
    );
    assert_eq!(
        parse("=15\r\ntxt:Some string!\r\n"),
        Err(failure(ErrorKind::MissingCrlf, 3))
    );
}

#[test]
fn arrays_hold_their_declared_count() {
    assert_eq!(parse("*0\r\n"), Ok(("", RespType::Array(vec![]))));
    assert_eq!(
        parse("*3\r\n:1\r\n+two\r\n$5\r\nthree\r\n"),
        Ok((
            "",
            RespType::Array(vec![
                RespType::Int(1),
                RespType::SString("two"),
                RespType::BString("three"),
            ])
        ))
    );
    // What follows the last declared value is left alone.
    assert_eq!(
        parse_array("*1\r\n:1\r\n:2\r\n"),
        Ok((":2\r\n", RespType::Array(vec![RespType::Int(1)])))
    );
    assert_eq!(
        parse("*1\r\n:1\r\n:2\r\n"),
        Err(failure(ErrorKind::TrailingBytes, 4))
    );
}

#[test]
fn arrays_nest() {
    assert_eq!(
        parse("*2\r\n*2\r\n:1\r\n*0\r\n*1\r\n#t\r\n"),
        Ok((
            "",
            RespType::Array(vec![
                RespType::Array(vec![RespType::Int(1), RespType::Array(vec![])]),
                RespType::Array(vec![RespType::Bool(true)]),
            ])
        ))
    );
}

#[test]
fn arrays_that_fail() {
    assert_eq!(parse("*2\r\n:1\r\n"), Err(failure(ErrorKind::Truncated, 0)));
    assert_eq!(parse("*-2\r\n"), Err(failure(ErrorKind::InvalidLength, 4)));
    assert_eq!(parse("*x\r\n"), Err(failure(ErrorKind::InvalidLength, 3)));
    assert_eq!(parse("*1\r\n?\r\n"), Err(failure(ErrorKind::UnexpectedMarker(b'?'), 3)));
    assert_eq!(
        parse("*2\r\n:1\r\n$3\r\nab\r\n"),
        Err(failure(ErrorKind::MissingCrlf, 1))
    );
    assert_eq!(parse("*1"), Err(failure(ErrorKind::MissingCrlf, 0)));
}

#[test]
fn unknown_markers_and_empty_buffers() {
    assert_eq!(parse(""), Err(failure(ErrorKind::Truncated, 0)));
    assert_eq!(parse_chunk(""), Err(failure(ErrorKind::Truncated, 0)));
    assert_eq!(parse("hello\r\n"), Err(failure(ErrorKind::UnexpectedMarker(b'h'), 7)));
    assert_eq!(parse("%1\r\n"), Err(failure(ErrorKind::UnexpectedMarker(b'%'), 4)));
    assert_eq!(parse("~1\r\n"), Err(failure(ErrorKind::UnexpectedMarker(b'~'), 4)));
    assert_eq!(parse(">1\r\n"), Err(failure(ErrorKind::UnexpectedMarker(b'>'), 4)));
    assert_eq!(
        parse("\u{e9}\r\n"),
        Err(failure(ErrorKind::UnexpectedMarker(0xc3), 4))
    );
}

#[test]
fn a_value_does_not_depend_on_what_follows() {
    let message = "*2\r\n$3\r\nfoo\r\n(12\r\n";
    let alone = parse(message).unwrap().1;
    for tail in ["", "\r\n", "12", "+OK\r\n", "*", "\u{e9}"] {
        let buffer = format!("{}{}", message, tail);
        let (rest, value) = parse_chunk(&buffer).unwrap();
        assert_eq!(value, alone);
        assert_eq!(rest, tail);
    }
}

#[test]
fn messages_are_taken_one_after_the_other() {
    let buffer = "+OK\r\n:5\r\n$3\r\nfoo\r\n";
    let (rest, first) = parse_chunk(buffer).unwrap();
    assert_eq!(first, RespType::SString("OK"));
    let (rest, second) = parse_chunk(rest).unwrap();
    assert_eq!(second, RespType::Int(5));
    let (rest, third) = parse_chunk(rest).unwrap();
    assert_eq!(third, RespType::BString("foo"));
    assert_eq!(rest, "");
}

#[test]
fn spans_lie_inside_the_buffer() {
    let buffer = String::from("$5\r\nhello\r\n");
    let (_, value) = parse(&buffer).unwrap();
    let text = value.inner();
    let start = buffer.as_ptr() as usize;
    let at = text.as_ptr() as usize;
    assert_eq!(at - start, 4);
    assert_eq!(text.len(), 5);
}

#[test]
fn failure_offset_counts_from_the_start() {
    let buffer = "*2\r\n:1\r\n:x\r\n";
    let error = parse(buffer).unwrap_err();
    assert_eq!(error, failure(ErrorKind::InvalidInteger, 3));
    assert_eq!(error.offset(buffer.len()), 9);
}

#[test]
fn written_values_are_read_back() {
    let forms: Vec<(&str, RespType)> = vec![
        ("+PONG\r\n", RespType::SString("PONG")),
        ("-ERR x\r\n", RespType::SError("ERR x")),
        (":-17\r\n", RespType::Int(-17)),
        ("$3\r\na\r\n\r\n", RespType::BString("a\r\n")),
        ("!1\r\ne\r\n", RespType::BError("e")),
        ("#f\r\n", RespType::Bool(false)),
        ("_\r\n", RespType::Null),
        ("(-12345678901234567890\r\n", RespType::BigNum("-12345678901234567890")),
        ("=7\r\ntxt:abc\r\n", RespType::VString("txt", "abc")),
        ("*0\r\n", RespType::Array(vec![])),
        (
            "*2\r\n:1\r\n*2\r\n+a\r\n_\r\n",
            RespType::Array(vec![
                RespType::Int(1),
                RespType::Array(vec![RespType::SString("a"), RespType::Null]),
            ]),
        ),
    ];
    for (form, value) in forms {
        let buffer = format!("{}+tail\r\n", form);
        let (rest, decoded) = parse_chunk(&buffer).unwrap();
        assert_eq!(decoded, value);
        assert_eq!(rest, "+tail\r\n");
    }
}
