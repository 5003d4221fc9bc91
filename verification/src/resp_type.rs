//! The values that a RESP message can carry.

use vstd::prelude::*;
use vstd::string::StringSliceAdditionalSpecFns;

verus! {

/// What a [`RespType`] stands for: its variant, with every borrowed span as
/// the bytes it covers.
pub enum RespValue {
    SString(Seq<u8>),
    BString(Seq<u8>),
    SError(Seq<u8>),
    BError(Seq<u8>),
    Array(Seq<RespValue>),
    Null,
    Bool(bool),
    Double(Seq<char>),
    BigNum(Seq<u8>),
    Int(i64),
    VString(Seq<u8>, Seq<u8>),
    RespMap(Seq<(RespValue, RespValue)>),
    RespSet,
    Push,
}

/// One RESP value. Text and byte payloads borrow from the buffer that was
/// decoded; only the text of a `Double` is owned.
#[derive(Debug, PartialEq, Eq)]
pub enum RespType<'a> {
    /// Short status text without CR or LF.
    SString(&'a str),
    /// Length-prefixed string; it may hold CR and LF.
    BString(&'a str),
    /// Short error text without CR or LF.
    SError(&'a str),
    /// Length-prefixed error.
    BError(&'a str),
    /// Nested values, in wire order.
    Array(Vec<RespType<'a>>),
    /// The absent value, whichever way it was spelled.
    Null,
    Bool(bool),
    /// A double, kept as its canonical text (`inf`, `-inf` and `NaN` included).
    Double(String),
    /// A signed decimal of any size, kept as it was written.
    BigNum(&'a str),
    Int(i64),
    /// A three-byte format hint and the string it describes.
    VString(&'a str, &'a str),
    /// Key and value pairs, in wire order.
    RespMap(Vec<(RespType<'a>, RespType<'a>)>),
    /// Reserved.
    RespSet,
    /// Reserved.
    Push,
}

/// `v` is no double, nor an array with a double somewhere in it.
pub open spec fn double_free(v: RespValue) -> bool
    decreases v,
{
    match v {
        RespValue::Double(_) => false,
        RespValue::Array(items) => forall|i: int|
            0 <= i < items.len() ==> double_free(#[trigger] items[i]),
        _ => true,
    }
}

/// An array is free of doubles where each of its items is.
pub proof fn lemma_double_free_array(items: Seq<RespValue>)
    ensures
        double_free(RespValue::Array(items)) <==> forall|i: int|
            0 <= i < items.len() ==> double_free(#[trigger] items[i]),
{
    let v = RespValue::Array(items);
    assert(v->Array_0 == items);
    if double_free(v) {
        assert forall|i: int| 0 <= i < items.len() implies double_free(#[trigger] items[i]) by {
            assert(double_free(v->Array_0[i]));
        }
    }
}

/// The value that `v` stands for.
pub open spec fn value_of(v: RespType<'_>) -> RespValue
    decreases v,
{
    match v {
        RespType::SString(s) => RespValue::SString(s.spec_bytes()),
        RespType::BString(s) => RespValue::BString(s.spec_bytes()),
        RespType::SError(s) => RespValue::SError(s.spec_bytes()),
        RespType::BError(s) => RespValue::BError(s.spec_bytes()),
        RespType::Array(items) => RespValue::Array(
            Seq::new(
                items@.len(),
                |i: int|
                    if 0 <= i < items@.len() {
                        value_of(items@[i])
                    } else {
                        RespValue::Null
                    },
            ),
        ),
        RespType::Null => RespValue::Null,
        RespType::Bool(b) => RespValue::Bool(b),
        RespType::Double(text) => RespValue::Double(text@),
        RespType::BigNum(s) => RespValue::BigNum(s.spec_bytes()),
        RespType::Int(i) => RespValue::Int(i),
        RespType::VString(encoding, s) => RespValue::VString(encoding.spec_bytes(), s.spec_bytes()),
        RespType::RespMap(pairs) => RespValue::RespMap(
            Seq::new(
                pairs@.len(),
                |i: int|
                    if 0 <= i < pairs@.len() {
                        (value_of(pairs@[i].0), value_of(pairs@[i].1))
                    } else {
                        (RespValue::Null, RespValue::Null)
                    },
            ),
        ),
        RespType::RespSet => RespValue::RespSet,
        RespType::Push => RespValue::Push,
    }
}

impl<'a> View for RespType<'a> {
    type V = RespValue;

    open spec fn view(&self) -> RespValue {
        value_of(*self)
    }
}

/// The values that `items` stand for, one for one.
pub open spec fn values_of(items: Seq<RespType<'_>>) -> Seq<RespValue> {
    Seq::new(items.len(), |i: int| value_of(items[i]))
}

/// An array stands for its items, one for one.
pub proof fn lemma_array_view<'a>(items: Vec<RespType<'a>>)
    ensures
        RespType::Array(items)@ == RespValue::Array(values_of(items@)),
{
    assert(RespType::Array(items)@->Array_0 =~= values_of(items@));
}

impl<'a> RespType<'a> {
    /// The text of a simple or bulk string. Other values hold no text: they
    /// are not to be asked for it.
    pub fn inner(&self) -> (text: &'a str)
        requires
            self is BString || self is SString,
        ensures
            self matches RespType::BString(s) ==> text == s,
            self matches RespType::SString(s) ==> text == s,
    {
        match self {
            RespType::BString(value) => value,
            RespType::SString(value) => value,
            _ => "",
        }
    }
}

} // verus!
