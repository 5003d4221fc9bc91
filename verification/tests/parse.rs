use resp_parser::{parse, parse_simple_string, RespType};

#[test]
fn parse_simple_string_test() {
    let input = "+Ok\r\n";
    assert_eq!(
        parse_simple_string(input).unwrap().1,
        RespType::SString("Ok")
    );
}

#[test]
fn parse_i64_test() {
    let input = ":-21\r\n";
    assert_eq!(parse(input).unwrap().1, RespType::Int(-21));
}

#[test]
fn parse_bulk_string_test() {
    let input = "$5\r\nhello\r\n";
    assert_eq!(parse(input).unwrap().1, RespType::BString("hello"));
    let input = "$10\r\nhello\r\nfoo\r\n";
    assert_eq!(parse(input).unwrap().1, RespType::BString("hello\r\nfoo"));
    let input = "$-1\r\n";
    assert_eq!(parse(input).unwrap().1, RespType::Null);
    let input = "$0\r\n\r\n";
    assert_eq!(parse(input).unwrap().1, RespType::BString(""));
}

#[test]
fn parse_array_test() {
    let input = "*2\r\n$5\r\nhello\r\n$5\r\nworld\r\n";
    assert_eq!(
        parse(input).unwrap().1,
        RespType::Array(vec![RespType::BString("hello"), RespType::BString("world")])
    );

    let input = "*0\r\n";
    assert_eq!(parse(input).unwrap().1, RespType::Array(vec![]));

    let input = "*-1\r\n";
    assert_eq!(parse(input).unwrap().1, RespType::Null);
}

#[test]
fn parse_bool_test() {
    let input = "#t\r\n";
    assert_eq!(parse(input).unwrap().1, RespType::Bool(true));
}

#[test]
fn parse_null() {
    let input = "_\r\n";
    assert_eq!(parse(input).unwrap().1, RespType::Null);

    let input = "_stuff\r\n";
    println!("{}", parse(input).is_err());
    assert!(parse(input).is_err());
}

#[test]
fn parse_double_test() {
    let input = ",1.23\r\n";
    assert_eq!(
        parse(input).unwrap().1,
        RespType::Double("1.23".to_string())
    );
    let input = ",10\r\n";
    assert_eq!(parse(input).unwrap().1, RespType::Double(10.to_string()));
    let input = ",inf\r\n";
    assert_eq!(parse(input).unwrap().1, RespType::Double("inf".to_string()));
    let input = ",-inf\r\n";
    assert_eq!(
        parse(input).unwrap().1,
        RespType::Double("-inf".to_string())
    );
    let input = ",nan\r\n";
    assert_eq!(parse(input).unwrap().1, RespType::Double("NaN".to_string()));
}

#[test]
fn parse_big_number_test() {
    let input = "(3492890328409238509324850943850943825024385\r\n";
    assert_eq!(
        parse(input),
        Ok((
            "",
            RespType::BigNum("3492890328409238509324850943850943825024385")
        ))
    );

    let input = "(-3492890328409238509324850943850943825024385\r\n";
    assert_eq!(
        parse(input),
        Ok((
            "",
            RespType::BigNum("-3492890328409238509324850943850943825024385")
        ))
    );

    let input = "(-3492890asd328409238509324850943850943825024385\r\n";
    assert!(parse(input).is_err());
}

#[test]
fn parse_v_string_test() {
    let input = "=15\r\ntxt:Some string\r\n";
    assert_eq!(
        parse(input),
        Ok(("", RespType::VString("txt", "Some string")))
    );
}
