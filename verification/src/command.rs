//! Commands: what a decoded array asks for.

use crate::number::{read_u64, unsigned_reading};
use crate::resp_type::{lemma_array_view, values_of, RespType, RespValue};
use vstd::prelude::*;
use vstd::string::StringSliceAdditionalSpecFns;

verus! {

/// A command, with what it needs from the array that it came in. Spans
/// still borrow from the decoded buffer.
#[derive(Debug, PartialEq, Eq)]
pub enum Command<'a> {
    Ping,
    /// `args`: every element behind the name, in order.
    Echo { args: Vec<RespType<'a>> },
    /// `args`: every element behind the name, in order.
    Get { args: Vec<RespType<'a>> },
    /// The command `SET`: a key, its new value, and after how many
    /// milliseconds the key expires, if it does.
    SetKey { key: &'a str, value: &'a str, px: Option<u64> },
}

/// Why a value is no command.
///
/// `NotACommand`, `MissingName`, `NameNotText`, `MissingArgument` and
/// `ArgumentNotText` are failures of shape: the value is not laid out as a
/// command. `UnknownCommand` and `InvalidExpiry` are failures of meaning.
#[derive(Debug, PartialEq, Eq)]
pub enum ClassifyError<'a> {
    /// The value is not an array.
    NotACommand,
    /// The array is empty, so there is no name.
    MissingName,
    /// The first element is neither a bulk nor a simple string: the element.
    NameNotText(RespType<'a>),
    /// The name is none of `PING`, `ECHO`, `GET` and `SET`: the name.
    UnknownCommand(&'a str),
    /// `SET` came without a key or without a value.
    MissingArgument,
    /// The element at this index should be a bulk or a simple string and is
    /// not.
    ArgumentNotText(usize),
    /// The expiry of `SET` is not an unsigned decimal that fits 64 bits.
    InvalidExpiry,
}

/// What a [`Command`] stands for.
pub enum CommandValue {
    Ping,
    Echo { args: Seq<RespValue> },
    Get { args: Seq<RespValue> },
    SetKey { key: Seq<u8>, value: Seq<u8>, px: Option<u64> },
}

/// What a [`ClassifyError`] stands for.
pub enum ClassifyFailure {
    NotACommand,
    MissingName,
    NameNotText(RespValue),
    UnknownCommand(Seq<u8>),
    MissingArgument,
    ArgumentNotText(usize),
    InvalidExpiry,
}

impl<'a> View for Command<'a> {
    type V = CommandValue;

    open spec fn view(&self) -> CommandValue {
        match self {
            Command::Ping => CommandValue::Ping,
            Command::Echo { args } => CommandValue::Echo { args: values_of(args@) },
            Command::Get { args } => CommandValue::Get { args: values_of(args@) },
            Command::SetKey { key, value, px } => CommandValue::SetKey {
                key: key.spec_bytes(),
                value: value.spec_bytes(),
                px: *px,
            },
        }
    }
}

impl<'a> View for ClassifyError<'a> {
    type V = ClassifyFailure;

    open spec fn view(&self) -> ClassifyFailure {
        match self {
            ClassifyError::NotACommand => ClassifyFailure::NotACommand,
            ClassifyError::MissingName => ClassifyFailure::MissingName,
            ClassifyError::NameNotText(v) => ClassifyFailure::NameNotText(v@),
            ClassifyError::UnknownCommand(name) => ClassifyFailure::UnknownCommand(
                name.spec_bytes(),
            ),
            ClassifyError::MissingArgument => ClassifyFailure::MissingArgument,
            ClassifyError::ArgumentNotText(i) => ClassifyFailure::ArgumentNotText(*i),
            ClassifyError::InvalidExpiry => ClassifyFailure::InvalidExpiry,
        }
    }
}

/// The commands that are known, by name.
pub enum Keyword {
    Ping,
    Echo,
    Get,
    SetKey,
}

/// `b`, or its upper-case form where `b` is a lower-case ASCII letter.
pub open spec fn upper(b: u8) -> u8 {
    if 0x61 <= b <= 0x7a {
        (b - 0x20) as u8
    } else {
        b
    }
}

/// `name` in upper case.
pub open spec fn upper_case(name: Seq<u8>) -> Seq<u8> {
    Seq::new(name.len(), |i: int| upper(name[i]))
}

/// The bytes of `PING`.
pub open spec fn ping() -> Seq<u8> {
    seq![0x50u8, 0x49u8, 0x4eu8, 0x47u8]
}

/// The bytes of `ECHO`.
pub open spec fn echo() -> Seq<u8> {
    seq![0x45u8, 0x43u8, 0x48u8, 0x4fu8]
}

/// The bytes of `GET`.
pub open spec fn get() -> Seq<u8> {
    seq![0x47u8, 0x45u8, 0x54u8]
}

/// The bytes of `SET`.
pub open spec fn set_key() -> Seq<u8> {
    seq![0x53u8, 0x45u8, 0x54u8]
}

/// The command that `name` names, whatever the case of its letters.
pub open spec fn keyword(name: Seq<u8>) -> Option<Keyword> {
    let word = upper_case(name);
    if word == ping() {
        Some(Keyword::Ping)
    } else if word == echo() {
        Some(Keyword::Echo)
    } else if word == get() {
        Some(Keyword::Get)
    } else if word == set_key() {
        Some(Keyword::SetKey)
    } else {
        None
    }
}

/// The text of a bulk or simple string.
pub open spec fn text_of(v: RespValue) -> Option<Seq<u8>> {
    match v {
        RespValue::BString(text) => Some(text),
        RespValue::SString(text) => Some(text),
        _ => None,
    }
}

/// The number of milliseconds that `text` writes: an unsigned decimal that
/// fits 64 bits, and nothing else.
pub open spec fn expiry(text: Seq<u8>) -> Option<u64> {
    match unsigned_reading(text, u64::MAX as nat) {
        Some((ms, rest)) => if rest.len() == 0 {
            Some(ms as u64)
        } else {
            None
        },
        None => None,
    }
}

/// The command `SET` that `items` holds: the key at index 1, the value at
/// index 2, and the expiry at index 4 where there is one.
pub open spec fn set_command(items: Seq<RespValue>) -> Result<CommandValue, ClassifyFailure> {
    if items.len() < 3 {
        Err(ClassifyFailure::MissingArgument)
    } else if text_of(items[1]) is None {
        Err(ClassifyFailure::ArgumentNotText(1))
    } else if text_of(items[2]) is None {
        Err(ClassifyFailure::ArgumentNotText(2))
    } else {
        let key = text_of(items[1])->0;
        let value = text_of(items[2])->0;
        if items.len() <= 4 {
            Ok(CommandValue::SetKey { key, value, px: None })
        } else if text_of(items[4]) is None {
            Err(ClassifyFailure::ArgumentNotText(4))
        } else {
            match expiry(text_of(items[4])->0) {
                None => Err(ClassifyFailure::InvalidExpiry),
                Some(ms) => Ok(CommandValue::SetKey { key, value, px: Some(ms) }),
            }
        }
    }
}

/// The command that `v` is, or why it is none.
pub open spec fn classification(v: RespValue) -> Result<CommandValue, ClassifyFailure> {
    match v {
        RespValue::Array(items) => if items.len() == 0 {
            Err(ClassifyFailure::MissingName)
        } else {
            match text_of(items[0]) {
                None => Err(ClassifyFailure::NameNotText(items[0])),
                Some(name) => match keyword(name) {
                    None => Err(ClassifyFailure::UnknownCommand(name)),
                    Some(Keyword::Ping) => Ok(CommandValue::Ping),
                    Some(Keyword::Echo) => Ok(CommandValue::Echo { args: items.skip(1) }),
                    Some(Keyword::Get) => Ok(CommandValue::Get { args: items.skip(1) }),
                    Some(Keyword::SetKey) => set_command(items),
                },
            }
        },
        _ => Err(ClassifyFailure::NotACommand),
    }
}

/// `b` in upper case.
fn to_upper(b: u8) -> (r: u8)
    ensures
        r == upper(b),
{
    if 0x61 <= b && b <= 0x7a {
        b - 0x20
    } else {
        b
    }
}

/// The command that `name` names.
fn keyword_of(name: &[u8]) -> (r: Option<Keyword>)
    ensures
        r == keyword(name@),
{
    let n = name.len();
    let ghost word = upper_case(name@);
    if n == 4 {
        let a = to_upper(name[0]);
        let b = to_upper(name[1]);
        let c = to_upper(name[2]);
        let d = to_upper(name[3]);
        proof {
            assert(word =~= seq![a, b, c, d]);
        }
        if a == 0x50 && b == 0x49 && c == 0x4e && d == 0x47 {
            // PING
            Some(Keyword::Ping)
        } else if a == 0x45 && b == 0x43 && c == 0x48 && d == 0x4f {
            // ECHO
            Some(Keyword::Echo)
        } else {
            None
        }
    } else if n == 3 {
        let a = to_upper(name[0]);
        let b = to_upper(name[1]);
        let c = to_upper(name[2]);
        proof {
            assert(word =~= seq![a, b, c]);
        }
        if a == 0x47 && b == 0x45 && c == 0x54 {
            // GET
            Some(Keyword::Get)
        } else if a == 0x53 && b == 0x45 && c == 0x54 {
            // SET
            Some(Keyword::SetKey)
        } else {
            None
        }
    } else {
        None
    }
}

/// `v` is a bulk or a simple string.
fn is_text(v: &RespType<'_>) -> (r: bool)
    ensures
        r == (v is BString || v is SString),
        r == (text_of(v@) is Some),
{
    match v {
        RespType::BString(_) => true,
        RespType::SString(_) => true,
        _ => false,
    }
}

/// The expiry that `text` writes.
fn parse_expiry(text: &str) -> (r: Option<u64>)
    ensures
        r == expiry(text.spec_bytes()),
{
    match read_u64(text.as_bytes()) {
        None => None,
        Some((rest, ms)) => if rest.len() == 0 {
            Some(ms)
        } else {
            None
        },
    }
}

/// The command `SET` that `items` holds.
fn classify_set<'a>(items: &Vec<RespType<'a>>) -> (r: Result<Command<'a>, ClassifyError<'a>>)
    ensures
        match r {
            Ok(command) => set_command(values_of(items@)) == Ok::<CommandValue, ClassifyFailure>(
                command@,
            ),
            Err(e) => set_command(values_of(items@)) == Err::<CommandValue, ClassifyFailure>(e@),
        },
{
    if items.len() < 3 {
        return Err(ClassifyError::MissingArgument);
    }
    if !is_text(&items[1]) {
        return Err(ClassifyError::ArgumentNotText(1));
    }
    if !is_text(&items[2]) {
        return Err(ClassifyError::ArgumentNotText(2));
    }
    let key = items[1].inner();
    let value = items[2].inner();
    if items.len() <= 4 {
        return Ok(Command::SetKey { key, value, px: None });
    }
    if !is_text(&items[4]) {
        return Err(ClassifyError::ArgumentNotText(4));
    }
    match parse_expiry(items[4].inner()) {
        None => Err(ClassifyError::InvalidExpiry),
        Some(ms) => Ok(Command::SetKey { key, value, px: Some(ms) }),
    }
}

/// Tells which command a decoded value is.
///
/// The value must be an array whose first element, a bulk or a simple
/// string, names the command; the case of the name's letters does not
/// count. `PING` takes nothing from the array, whatever follows its name.
/// `ECHO` and `GET` take every element behind the name. `SET` takes its
/// key from index 1 and its value from index 2, both of them strings, and
/// where the array has an index 4, its expiry in milliseconds from there.
pub fn classify<'a>(value: RespType<'a>) -> (r: Result<Command<'a>, ClassifyError<'a>>)
    ensures
        match r {
            Ok(command) => classification(value@) == Ok::<CommandValue, ClassifyFailure>(
                command@,
            ),
            Err(e) => classification(value@) == Err::<CommandValue, ClassifyFailure>(e@),
        },
{
    match value {
        RespType::Array(items) => {
            let mut items = items;
            proof {
                lemma_array_view(items);
            }
            let ghost all = items@;
            if items.len() == 0 {
                return Err(ClassifyError::MissingName);
            }
            if !is_text(&items[0]) {
                let first = items.remove(0);
                return Err(ClassifyError::NameNotText(first));
            }
            let name = items[0].inner();
            match keyword_of(name.as_bytes()) {
                None => Err(ClassifyError::UnknownCommand(name)),
                Some(Keyword::Ping) => Ok(Command::Ping),
                Some(Keyword::Echo) => {
                    let _ = items.remove(0);
                    proof {
                        assert(values_of(items@) =~= values_of(all).skip(1));
                    }
                    Ok(Command::Echo { args: items })
                },
                Some(Keyword::Get) => {
                    let _ = items.remove(0);
                    proof {
                        assert(values_of(items@) =~= values_of(all).skip(1));
                    }
                    Ok(Command::Get { args: items })
                },
                Some(Keyword::SetKey) => classify_set(&items),
            }
        },
        _ => Err(ClassifyError::NotACommand),
    }
}

/// The case of the letters of a command's name does not count: where two
/// arrays differ only in that, they are the same command, or both are none
/// for the same reason. Only the failure for an unknown name differs, in
/// the name that it carries.
pub proof fn name_case_is_ignored(v: Seq<RespValue>, w: Seq<RespValue>)
    requires
        v.len() == w.len(),
        v.len() > 0,
        forall|i: int| 1 <= i < v.len() ==> v[i] == w[i],
        text_of(v[0]) is Some,
        text_of(w[0]) is Some,
        upper_case(text_of(v[0])->0) == upper_case(text_of(w[0])->0),
    ensures
        match classification(RespValue::Array(v)) {
            Ok(command) => classification(RespValue::Array(w)) == Ok::<
                CommandValue,
                ClassifyFailure,
            >(command),
            Err(ClassifyFailure::UnknownCommand(_)) => classification(RespValue::Array(w)) == Err::<
                CommandValue,
                ClassifyFailure,
            >(ClassifyFailure::UnknownCommand(text_of(w[0])->0)),
            Err(e) => classification(RespValue::Array(w)) == Err::<CommandValue, ClassifyFailure>(
                e,
            ),
        },
{
    assert(v.skip(1) =~= w.skip(1));
}

} // verus!
