use resp_parser::{classify, parse, ClassifyError, Command, RespType};

fn bulk(items: &[&'static str]) -> RespType<'static> {
    RespType::Array(items.iter().map(|s| RespType::BString(s)).collect())
}

#[test]
fn set_without_expiry() {
    let decoded = parse("*3\r\n$3\r\nSET\r\n$3\r\nfoo\r\n$3\r\nbar\r\n").unwrap().1;
    assert_eq!(
        classify(decoded),
        Ok(Command::SetKey { key: "foo", value: "bar", px: None })
    );
    let decoded = parse("*4\r\n$3\r\nSET\r\n$3\r\nfoo\r\n$3\r\nbar\r\n$2\r\nNX\r\n").unwrap().1;
    assert_eq!(
        classify(decoded),
        Ok(Command::SetKey { key: "foo", value: "bar", px: None })
    );
}

#[test]
fn set_with_expiry() {
    let decoded = parse("*5\r\n$3\r\nSET\r\n$3\r\nfoo\r\n$3\r\nbar\r\n$2\r\nPX\r\n$3\r\n100\r\n")
        .unwrap()
        .1;
    assert_eq!(
        classify(decoded),
        Ok(Command::SetKey { key: "foo", value: "bar", px: Some(100) })
    );
    assert_eq!(
        classify(bulk(&["set", "k", "v", "px", "18446744073709551615"])),
        Ok(Command::SetKey { key: "k", value: "v", px: Some(u64::MAX) })
    );
    assert_eq!(
        classify(bulk(&["set", "k", "v", "px", "0", "more"])),
        Ok(Command::SetKey { key: "k", value: "v", px: Some(0) })
    );
}

#[test]
fn set_with_a_bad_expiry_fails() {
    for text in ["", "abc", "-1", "+1", "1.5", "10 ", " 10", "18446744073709551616"] {
        assert_eq!(
            classify(bulk(&["SET", "k", "v", "PX", text])),
            Err(ClassifyError::InvalidExpiry)
        );
    }
    assert_eq!(
        classify(RespType::Array(vec![
            RespType::BString("SET"),
            RespType::BString("k"),
            RespType::BString("v"),
            RespType::BString("PX"),
            RespType::Int(100),
        ])),
        Err(ClassifyError::ArgumentNotText(4))
    );
}

#[test]
fn set_needs_key_and_value() {
    assert_eq!(classify(bulk(&["SET"])), Err(ClassifyError::MissingArgument));
    assert_eq!(classify(bulk(&["SET", "k"])), Err(ClassifyError::MissingArgument));
    assert_eq!(
        classify(RespType::Array(vec![
            RespType::BString("SET"),
            RespType::Int(1),
            RespType::BString("v"),
        ])),
        Err(ClassifyError::ArgumentNotText(1))
    );
    assert_eq!(
        classify(RespType::Array(vec![
            RespType::BString("SET"),
            RespType::SString("k"),
            RespType::Null,
        ])),
        Err(ClassifyError::ArgumentNotText(2))
    );
    assert_eq!(
        classify(RespType::Array(vec![
            RespType::BString("SET"),
            RespType::SString("k"),
            RespType::SString("v"),
        ])),
        Ok(Command::SetKey { key: "k", value: "v", px: None })
    );
}

#[test]
fn ping_whatever_its_case() {
    for name in ["PING", "ping", "PiNg", "pINg"] {
        assert_eq!(classify(bulk(&[name])), Ok(Command::Ping));
        assert_eq!(
            classify(RespType::Array(vec![RespType::SString(name)])),
            Ok(Command::Ping)
        );
    }
    assert_eq!(classify(bulk(&["ping", "extra", "more"])), Ok(Command::Ping));
}

#[test]
fn names_ignore_case_for_every_command() {
    for (upper, lower) in [("ECHO", "eChO"), ("GET", "get"), ("SET", "sEt")] {
        assert_eq!(
            classify(bulk(&[upper, "a", "b"])),
            classify(bulk(&[lower, "a", "b"]))
        );
    }
}

#[test]
fn echo_and_get_take_what_follows_the_name() {
    let decoded = parse("*3\r\n$4\r\necho\r\n$2\r\nhi\r\n:7\r\n").unwrap().1;
    assert_eq!(
        classify(decoded),
        Ok(Command::Echo { args: vec![RespType::BString("hi"), RespType::Int(7)] })
    );
    assert_eq!(classify(bulk(&["ECHO"])), Ok(Command::Echo { args: vec![] }));
    assert_eq!(
        classify(bulk(&["Get", "key"])),
        Ok(Command::Get { args: vec![RespType::BString("key")] })
    );
}

#[test]
fn values_that_are_no_command() {
    assert_eq!(classify(RespType::Null), Err(ClassifyError::NotACommand));
    assert_eq!(classify(RespType::BString("PING")), Err(ClassifyError::NotACommand));
    assert_eq!(classify(RespType::Int(1)), Err(ClassifyError::NotACommand));
    assert_eq!(classify(RespType::Array(vec![])), Err(ClassifyError::MissingName));
    assert_eq!(
        classify(RespType::Array(vec![RespType::Int(5), RespType::BString("PING")])),
        Err(ClassifyError::NameNotText(RespType::Int(5)))
    );
    assert_eq!(
        classify(RespType::Array(vec![RespType::BError("PING")])),
        Err(ClassifyError::NameNotText(RespType::BError("PING")))
    );
}

#[test]
fn unknown_names_are_handed_back() {
    assert_eq!(
        classify(bulk(&["DEL", "key"])),
        Err(ClassifyError::UnknownCommand("DEL"))
    );
    assert_eq!(classify(bulk(&[""])), Err(ClassifyError::UnknownCommand("")));
    assert_eq!(classify(bulk(&["PINGS"])), Err(ClassifyError::UnknownCommand("PINGS")));
    assert_eq!(classify(bulk(&["PIN"])), Err(ClassifyError::UnknownCommand("PIN")));
    // Only ASCII letters fold: the Kelvin sign is no K.
    assert_eq!(
        classify(bulk(&["P\u{131}NG"])),
        Err(ClassifyError::UnknownCommand("P\u{131}NG"))
    );
}

#[test]
fn inner_text_of_strings() {
    assert_eq!(RespType::BString("bulk").inner(), "bulk");
    assert_eq!(RespType::SString("simple").inner(), "simple");
}
