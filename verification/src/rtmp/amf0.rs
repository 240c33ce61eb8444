//! AMF0: the value encoding RTMP writes its commands and metadata in.
//!
//! A command message is a sequence of AMF0 values laid end to end: a name, a
//! transaction number, and whatever arguments the call takes:
//!
//! ```text
//! "connect", 1.0, { app: "live", tcUrl: "rtmp://host/live", … }
//! ```
//!
//! So reading one is reading values until the payload runs out, which is
//! what [`read_all`] does.
//!
//! # Why an unknown type is refused rather than passed through
//!
//! An AMF0 value's length is decided by *its own type marker*: a number is
//! eight bytes, a string is two more than the two-byte count in front of it,
//! an object runs to a terminator. A marker this does not know is therefore a
//! value of unknown length, and the next value could begin anywhere. There is
//! nothing to forward and nothing to skip, so reading stops.
//!
//! # What is not read
//!
//! References, movie clips, record sets, XML documents, typed objects and the
//! marker that switches to AMF3. None of them appear in an RTMP session
//! between an encoder and a server, and each is refused by name, so that if
//! one ever does turn up the log says which it was.
//!
//! # Numbers
//!
//! Every AMF0 number is an IEEE 754 double. Nothing here computes with one, so
//! a number is held as the bits it is written in: `f64::to_bits` and
//! `f64::from_bits` go between the two. Two numbers are equal where the doubles
//! are: see [`same_number`].
//!
//! # What is stated
//!
//! [`value_at`] says what is read at a place in a payload, and [`emitted`] what
//! is written of a value. [`law_written_values_read_back`] is that the one
//! undoes the other, and [`law_nesting_past_the_limit_is_refused`] where it stops
//! doing so.

use crate::buffer::{
    be16, be32, be64, get_u16, get_u32, get_u64, lemma_num16_amid, lemma_num32_amid,
    lemma_num64_amid, lemma_widths, num16, num32, num64, put_slice, put_u16, put_u32, put_u64,
    put_u8, Contents,
};
use crate::text::{same_text, utf8};
use bytes::BytesMut;
use vstd::prelude::*;
use vstd::slice::slice_subrange;
use vstd::std_specs::cmp::PartialEqSpecImpl;
use vstd::utf8::{decode_utf8, encode_utf8, valid_utf8};

verus! {

broadcast use lemma_widths;

/// How deeply objects and arrays may nest. RTMP's own messages go two deep;
/// the limit is here because reading is recursive and a peer that sent
/// nothing but object markers would otherwise run the stack out.
pub const MAX_DEPTH: usize = 32;

pub const NUMBER: u8 = 0x00;

pub const BOOLEAN: u8 = 0x01;

pub const STRING: u8 = 0x02;

pub const OBJECT: u8 = 0x03;

pub const MOVIE_CLIP: u8 = 0x04;

pub const NULL: u8 = 0x05;

pub const UNDEFINED: u8 = 0x06;

pub const REFERENCE: u8 = 0x07;

pub const ECMA_ARRAY: u8 = 0x08;

pub const OBJECT_END: u8 = 0x09;

pub const STRICT_ARRAY: u8 = 0x0a;

pub const DATE: u8 = 0x0b;

pub const LONG_STRING: u8 = 0x0c;

pub const UNSUPPORTED: u8 = 0x0d;

pub const RECORD_SET: u8 = 0x0e;

pub const XML_DOCUMENT: u8 = 0x0f;

pub const TYPED_OBJECT: u8 = 0x10;

pub const AVM_PLUS: u8 = 0x11;

/// One AMF0 value.
///
/// Two are equal where what they hold is, and numbers are equal as doubles are:
/// the two zeros are one number, and a NaN is no number, itself included.
#[derive(Debug)]
pub enum Value {
    /// Every number AMF0 has, including the ones a caller means as integers,
    /// as the bits of a double: a transaction id and a stream id both arrive
    /// as doubles.
    Number(u64),
    Boolean(bool),
    /// Written short or long depending on its length, which is a detail of
    /// the encoding and not of the value, so both read back to this.
    String(String),
    /// An anonymous object.
    Object(Vec<(String, Value)>),
    /// An associative array, which is an object with a count in front of it.
    /// Kept apart from [`Value::Object`] because `onMetaData` arrives as one
    /// and some players will not read it back as the other.
    EcmaArray(Vec<(String, Value)>),
    /// A dense array, whose members have positions rather than names.
    StrictArray(Vec<Value>),
    /// Milliseconds since the Unix epoch, as the bits of a double. The time
    /// zone that follows it on the wire is required to be zero and is ignored
    /// by everything, so it is neither kept nor asked about.
    Date(u64),
    Null,
    Undefined,
}

/// What a [`Value`] is.
pub enum ValueView {
    Number(u64),
    Boolean(bool),
    String(Seq<char>),
    Object(Seq<(Seq<char>, ValueView)>),
    EcmaArray(Seq<(Seq<char>, ValueView)>),
    StrictArray(Seq<ValueView>),
    Date(u64),
    Null,
    Undefined,
}

/// What a list of properties is.
pub open spec fn properties_view(properties: Seq<(String, Value)>) -> Seq<(Seq<char>, ValueView)>
    decreases properties,
{
    Seq::new(
        properties.len(),
        |i: int|
            if 0 <= i < properties.len() {
                (properties[i].0@, properties[i].1@)
            } else {
                (Seq::empty(), ValueView::Null)
            },
    )
}

/// What a list of values is.
pub open spec fn values_view(values: Seq<Value>) -> Seq<ValueView>
    decreases values,
{
    Seq::new(
        values.len(),
        |i: int|
            if 0 <= i < values.len() {
                values[i]@
            } else {
                ValueView::Null
            },
    )
}

impl Value {
    /// What the value is.
    pub open spec fn view(&self) -> ValueView
        decreases self,
    {
        match *self {
            Value::Number(bits) => ValueView::Number(bits),
            Value::Boolean(flag) => ValueView::Boolean(flag),
            Value::String(text) => ValueView::String(text@),
            Value::Object(properties) => ValueView::Object(properties_view(properties@)),
            Value::EcmaArray(properties) => ValueView::EcmaArray(properties_view(properties@)),
            Value::StrictArray(values) => ValueView::StrictArray(values_view(values@)),
            Value::Date(bits) => ValueView::Date(bits),
            Value::Null => ValueView::Null,
            Value::Undefined => ValueView::Undefined,
        }
    }
}

/// A copy of a value.
fn copy_value(value: &Value) -> (copy: Value)
    ensures
        copy@ == value@,
    decreases value,
{
    match value {
        Value::Number(bits) => Value::Number(*bits),
        Value::Boolean(flag) => Value::Boolean(*flag),
        Value::String(text) => Value::String(text.clone()),
        Value::Object(properties) => Value::Object(copy_properties(properties)),
        Value::EcmaArray(properties) => Value::EcmaArray(copy_properties(properties)),
        Value::StrictArray(values) => Value::StrictArray(copy_values(values)),
        Value::Date(bits) => Value::Date(*bits),
        Value::Null => Value::Null,
        Value::Undefined => Value::Undefined,
    }
}

fn copy_properties(properties: &Vec<(String, Value)>) -> (copy: Vec<(String, Value)>)
    ensures
        properties_view(copy@) == properties_view(properties@),
    decreases properties@,
{
    let mut copy: Vec<(String, Value)> = Vec::new();
    let mut i: usize = 0;
    while i < properties.len()
        invariant
            i <= properties@.len(),
            copy@.len() == i,
            forall|j: int|
                0 <= j < i ==> (#[trigger] copy@[j]).0@ == properties@[j].0@ && copy@[j].1@
                    == properties@[j].1@,
        decreases properties@.len() - i,
    {
        let property: &(String, Value) = &properties[i];
        copy.push((property.0.clone(), copy_value(&property.1)));
        i = i + 1;
    }
    assert(properties_view(copy@) =~= properties_view(properties@));
    copy
}

fn copy_values(values: &Vec<Value>) -> (copy: Vec<Value>)
    ensures
        values_view(copy@) == values_view(values@),
    decreases values@,
{
    let mut copy: Vec<Value> = Vec::new();
    let mut i: usize = 0;
    while i < values.len()
        invariant
            i <= values@.len(),
            copy@.len() == i,
            forall|j: int| 0 <= j < i ==> (#[trigger] copy@[j])@ == values@[j]@,
        decreases values@.len() - i,
    {
        copy.push(copy_value(&values[i]));
        i = i + 1;
    }
    assert(values_view(copy@) =~= values_view(values@));
    copy
}

impl Clone for Value {
    fn clone(&self) -> (copy: Self)
        ensures
            copy@ == self@,
    {
        copy_value(self)
    }
}

/// The bits of a double without its sign.
pub open spec fn magnitude(bits: u64) -> u64 {
    bits % 0x8000_0000_0000_0000
}

/// Whether bits are those of a double that is not a number: one past infinity.
pub open spec fn is_nan(bits: u64) -> bool {
    magnitude(bits) > 0x7ff0_0000_0000_0000
}

/// Whether the doubles that two runs of bits are compare equal.
pub open spec fn same_number(a: u64, b: u64) -> bool {
    &&& !is_nan(a) && !is_nan(b)
    &&& a == b || (magnitude(a) == 0 && magnitude(b) == 0)
}

/// Whether two values are equal.
pub open spec fn same(a: ValueView, b: ValueView) -> bool
    decreases a,
{
    match (a, b) {
        (ValueView::Number(a), ValueView::Number(b)) => same_number(a, b),
        (ValueView::Boolean(a), ValueView::Boolean(b)) => a == b,
        (ValueView::String(a), ValueView::String(b)) => a == b,
        (ValueView::Object(a), ValueView::Object(b)) => same_properties(a, b),
        (ValueView::EcmaArray(a), ValueView::EcmaArray(b)) => same_properties(a, b),
        (ValueView::StrictArray(a), ValueView::StrictArray(b)) => same_values(a, b),
        (ValueView::Date(a), ValueView::Date(b)) => same_number(a, b),
        (ValueView::Null, ValueView::Null) => true,
        (ValueView::Undefined, ValueView::Undefined) => true,
        _ => false,
    }
}

/// Whether two lists of properties are equal: the same keys with equal values,
/// in the same order.
pub open spec fn same_properties(
    a: Seq<(Seq<char>, ValueView)>,
    b: Seq<(Seq<char>, ValueView)>,
) -> bool
    decreases a,
{
    a.len() == b.len() && forall|i: int|
        0 <= i < a.len() ==> (#[trigger] a[i]).0 == b[i].0 && same(a[i].1, b[i].1)
}

/// Whether two lists of values are equal.
pub open spec fn same_values(a: Seq<ValueView>, b: Seq<ValueView>) -> bool
    decreases a,
{
    a.len() == b.len() && forall|i: int| 0 <= i < a.len() ==> same(#[trigger] a[i], b[i])
}

/// Whether the doubles that two runs of bits are compare equal.
fn equal_numbers(a: u64, b: u64) -> (equal: bool)
    ensures
        equal == same_number(a, b),
{
    let (x, y): (u64, u64) = (a % 0x8000_0000_0000_0000, b % 0x8000_0000_0000_0000);
    x <= 0x7ff0_0000_0000_0000 && y <= 0x7ff0_0000_0000_0000 && (a == b || (x == 0 && y == 0))
}

/// Whether two values are equal.
fn equal(a: &Value, b: &Value) -> (equal: bool)
    ensures
        equal == same(a@, b@),
    decreases a,
{
    match (a, b) {
        (Value::Number(a), Value::Number(b)) => equal_numbers(*a, *b),
        (Value::Boolean(a), Value::Boolean(b)) => *a == *b,
        (Value::String(a), Value::String(b)) => same_text(a.as_str(), b.as_str()),
        (Value::Object(a), Value::Object(b)) => equal_properties(a, b),
        (Value::EcmaArray(a), Value::EcmaArray(b)) => equal_properties(a, b),
        (Value::StrictArray(a), Value::StrictArray(b)) => equal_values(a, b),
        (Value::Date(a), Value::Date(b)) => equal_numbers(*a, *b),
        (Value::Null, Value::Null) => true,
        (Value::Undefined, Value::Undefined) => true,
        _ => false,
    }
}

fn equal_properties(a: &Vec<(String, Value)>, b: &Vec<(String, Value)>) -> (equal: bool)
    ensures
        equal == same_properties(properties_view(a@), properties_view(b@)),
    decreases a@,
{
    if a.len() != b.len() {
        return false;
    }
    let ghost (x, y) = (properties_view(a@), properties_view(b@));
    let mut i: usize = 0;
    while i < a.len()
        invariant
            i <= a@.len() == b@.len(),
            x == properties_view(a@),
            y == properties_view(b@),
            forall|j: int| 0 <= j < i ==> (#[trigger] x[j]).0 == y[j].0 && same(x[j].1, y[j].1),
        decreases a@.len() - i,
    {
        let (one, other): (&(String, Value), &(String, Value)) = (&a[i], &b[i]);
        assert(x[i as int] == (one.0@, one.1@) && y[i as int] == (other.0@, other.1@));
        if !same_text(one.0.as_str(), other.0.as_str()) {
            return false;
        }
        if !equal(&one.1, &other.1) {
            return false;
        }
        i = i + 1;
    }
    true
}

fn equal_values(a: &Vec<Value>, b: &Vec<Value>) -> (equal: bool)
    ensures
        equal == same_values(values_view(a@), values_view(b@)),
    decreases a@,
{
    if a.len() != b.len() {
        return false;
    }
    let ghost (x, y) = (values_view(a@), values_view(b@));
    let mut i: usize = 0;
    while i < a.len()
        invariant
            i <= a@.len() == b@.len(),
            x == values_view(a@),
            y == values_view(b@),
            forall|j: int| 0 <= j < i ==> same(#[trigger] x[j], y[j]),
        decreases a@.len() - i,
    {
        assert(x[i as int] == a@[i as int]@ && y[i as int] == b@[i as int]@);
        if !equal(&a[i], &b[i]) {
            return false;
        }
        i = i + 1;
    }
    true
}

impl PartialEq for Value {
    fn eq(&self, other: &Value) -> (same: bool) {
        equal(self, other)
    }
}

impl PartialEqSpecImpl for Value {
    open spec fn obeys_eq_spec() -> bool {
        true
    }

    open spec fn eq_spec(&self, other: &Value) -> bool {
        same(self@, other@)
    }
}

impl ValueView {
    /// The properties, for the two object-shaped variants.
    pub open spec fn properties(self) -> Option<Seq<(Seq<char>, ValueView)>> {
        match self {
            ValueView::Object(properties) => Some(properties),
            ValueView::EcmaArray(properties) => Some(properties),
            _ => None,
        }
    }

    /// The first property of a name, for the two object-shaped variants.
    pub open spec fn get(self, key: Seq<char>) -> Option<ValueView> {
        match self.properties() {
            Some(properties) => first_named(properties, key),
            None => None,
        }
    }
}

/// The value of the first property of a name.
pub open spec fn first_named(properties: Seq<(Seq<char>, ValueView)>, key: Seq<char>) -> Option<
    ValueView,
>
    decreases properties.len(),
{
    if properties.len() == 0 {
        None
    } else if properties.first().0 == key {
        Some(properties.first().1)
    } else {
        first_named(properties.drop_first(), key)
    }
}

impl Value {
    /// The first property named `key`, for the two object-shaped variants.
    ///
    /// First rather than last where a key repeats. AMF0 has no rule about
    /// duplicates and nothing that speaks RTMP produces them; taking the
    /// first is only a decision so that there is one.
    pub fn get(&self, key: &str) -> (value: Option<&Value>)
        ensures
            match value {
                Some(value) => self@.get(key@) == Some(value@),
                None => self@.get(key@) is None,
            },
    {
        let properties: &[(String, Value)] = match self.properties() {
            Some(properties) => properties,
            None => {
                return None;
            },
        };
        let ghost view = properties_view(properties@);
        let mut i: usize = 0;
        assert(view.skip(0) =~= view);
        while i < properties.len()
            invariant
                i <= properties@.len(),
                view == properties_view(properties@),
                self@.properties() == Some(view),
                first_named(view.skip(i as int), key@) == first_named(view, key@),
            decreases properties@.len() - i,
        {
            assert(view.skip(i as int).drop_first() =~= view.skip(i + 1));
            let property: &(String, Value) = &properties[i];
            assert(view.skip(i as int).first() == view[i as int]);
            if same_text(property.0.as_str(), key) {
                return Some(&property.1);
            }
            i = i + 1;
        }
        None
    }

    /// The properties, for the two object-shaped variants.
    pub fn properties(&self) -> (properties: Option<&[(String, Value)]>)
        ensures
            match properties {
                Some(properties) => self@.properties() == Some(properties_view(properties@)),
                None => self@.properties() is None,
            },
    {
        match self {
            Self::Object(properties) => Some(properties.as_slice()),
            Self::EcmaArray(properties) => Some(properties.as_slice()),
            _ => None,
        }
    }

    /// The text, for a string.
    pub fn as_str(&self) -> (text: Option<&str>)
        ensures
            match text {
                Some(text) => self@ == ValueView::String(text@),
                None => !(self@ is String),
            },
    {
        match self {
            Self::String(text) => Some(text.as_str()),
            _ => None,
        }
    }

    /// The bits of the number, for a number.
    pub fn as_bits(&self) -> (bits: Option<u64>)
        ensures
            match bits {
                Some(bits) => self@ == ValueView::Number(bits),
                None => !(self@ is Number),
            },
    {
        match self {
            Self::Number(bits) => Some(*bits),
            _ => None,
        }
    }

    /// The flag, for a boolean.
    pub fn as_bool(&self) -> (flag: Option<bool>)
        ensures
            match flag {
                Some(flag) => self@ == ValueView::Boolean(flag),
                None => !(self@ is Boolean),
            },
    {
        match self {
            Self::Boolean(flag) => Some(*flag),
            _ => None,
        }
    }
}

/// What can be wrong with an AMF0 payload.
#[derive(Debug, PartialEq, Eq)]
pub enum Amf0Error {
    /// A value ran past the end of the payload.
    Truncated { offset: usize, needed: usize },
    /// A type marker this does not know, which is a value of unknown length:
    /// see the module docs on why that ends the read.
    UnknownMarker { marker: u8, offset: usize },
    /// A type this does not read, named so that a log says which.
    UnreadType { name: &'static str, offset: usize },
    /// AMF0 strings are UTF-8 and this one is not. Refused rather than
    /// replaced, because every string RTMP carries is something a session is
    /// routed by, and a lossy one silently sends the stream somewhere else.
    NotUtf8 { offset: usize },
    /// Objects nested past [`MAX_DEPTH`].
    TooDeep { limit: usize },
    /// An object's terminator turned up where a value was expected, which
    /// means the object it would have closed was never opened.
    UnexpectedObjectEnd { offset: usize },
    /// A string too long for even the four-byte count of the long form.
    StringTooLong { length: usize },
    /// A property key of no bytes, which would read back as the terminator
    /// that ends the object, or one too long for its two-byte count.
    UnwritableKey { length: usize },
}

/// Whether `count` bytes are not all there at `at`.
pub open spec fn short(s: Seq<u8>, at: int, count: int) -> bool {
    s.len() - at < count
}

/// What is wrong where `count` bytes are not all there at `at`.
pub open spec fn truncated(s: Seq<u8>, at: int, count: int) -> Amf0Error {
    Amf0Error::Truncated { offset: at as usize, needed: (count - (s.len() - at)) as usize }
}

/// The text that `length` bytes at `at` encode.
pub open spec fn text_at(s: Seq<u8>, at: int, length: int) -> Result<Seq<char>, Amf0Error> {
    if short(s, at, length) {
        Err(truncated(s, at, length))
    } else if !valid_utf8(s.subrange(at, at + length)) {
        Err(Amf0Error::NotUtf8 { offset: at as usize })
    } else {
        Ok(decode_utf8(s.subrange(at, at + length)))
    }
}

/// The type a marker that is not read names.
pub open spec fn unread_name(marker: u8) -> Option<&'static str> {
    if marker == MOVIE_CLIP {
        Some("a movie clip")
    } else if marker == REFERENCE {
        Some("a reference")
    } else if marker == UNSUPPORTED {
        Some("an unsupported-type marker")
    } else if marker == RECORD_SET {
        Some("a record set")
    } else if marker == XML_DOCUMENT {
        Some("an XML document")
    } else if marker == TYPED_OBJECT {
        Some("a typed object")
    } else if marker == AVM_PLUS {
        Some("a switch to AMF3")
    } else {
        None
    }
}

/// The value at `at`, which stands inside `depth` objects and arrays, and
/// where it ends.
pub open spec fn value_at(s: Seq<u8>, at: int, depth: nat) -> Result<(ValueView, int), Amf0Error>
    decreases s.len() - at, 0nat,
{
    if short(s, at, 1) {
        Err(truncated(s, at, 1))
    } else if s[at] == NUMBER {
        if short(s, at + 1, 8) {
            Err(truncated(s, at + 1, 8))
        } else {
            Ok((ValueView::Number(num64(s, at + 1) as u64), at + 9))
        }
    } else if s[at] == BOOLEAN {
        if short(s, at + 1, 1) {
            Err(truncated(s, at + 1, 1))
        } else {
            Ok((ValueView::Boolean(s[at + 1] != 0), at + 2))
        }
    } else if s[at] == STRING {
        if short(s, at + 1, 2) {
            Err(truncated(s, at + 1, 2))
        } else {
            match text_at(s, at + 3, num16(s, at + 1)) {
                Ok(text) => Ok((ValueView::String(text), at + 3 + num16(s, at + 1))),
                Err(error) => Err(error),
            }
        }
    } else if s[at] == LONG_STRING {
        if short(s, at + 1, 4) {
            Err(truncated(s, at + 1, 4))
        } else {
            match text_at(s, at + 5, num32(s, at + 1)) {
                Ok(text) => Ok((ValueView::String(text), at + 5 + num32(s, at + 1))),
                Err(error) => Err(error),
            }
        }
    } else if s[at] == OBJECT {
        if depth >= MAX_DEPTH {
            Err(Amf0Error::TooDeep { limit: MAX_DEPTH })
        } else {
            match properties_at(s, at + 1, depth + 1) {
                Ok((properties, end)) => Ok((ValueView::Object(properties), end)),
                Err(error) => Err(error),
            }
        }
    } else if s[at] == ECMA_ARRAY {
        if short(s, at + 1, 4) {
            Err(truncated(s, at + 1, 4))
        } else if depth >= MAX_DEPTH {
            Err(Amf0Error::TooDeep { limit: MAX_DEPTH })
        } else {
            match properties_at(s, at + 5, depth + 1) {
                Ok((properties, end)) => Ok((ValueView::EcmaArray(properties), end)),
                Err(error) => Err(error),
            }
        }
    } else if s[at] == STRICT_ARRAY {
        if short(s, at + 1, 4) {
            Err(truncated(s, at + 1, 4))
        } else if depth >= MAX_DEPTH {
            Err(Amf0Error::TooDeep { limit: MAX_DEPTH })
        } else {
            match items_at(s, at + 5, num32(s, at + 1), depth + 1) {
                Ok((values, end)) => Ok((ValueView::StrictArray(values), end)),
                Err(error) => Err(error),
            }
        }
    } else if s[at] == DATE {
        if short(s, at + 1, 8) {
            Err(truncated(s, at + 1, 8))
        } else if short(s, at + 9, 2) {
            Err(truncated(s, at + 9, 2))
        } else {
            Ok((ValueView::Date(num64(s, at + 1) as u64), at + 11))
        }
    } else if s[at] == NULL {
        Ok((ValueView::Null, at + 1))
    } else if s[at] == UNDEFINED {
        Ok((ValueView::Undefined, at + 1))
    } else if s[at] == OBJECT_END {
        Err(Amf0Error::UnexpectedObjectEnd { offset: at as usize })
    } else if let Some(name) = unread_name(s[at]) {
        Err(Amf0Error::UnreadType { name, offset: at as usize })
    } else {
        Err(Amf0Error::UnknownMarker { marker: s[at], offset: at as usize })
    }
}

/// The named values at `at`, up to an empty key and the marker that confirms
/// it, and where that ends. A value ends after it starts, so what follows one
/// is always further on.
pub open spec fn properties_at(s: Seq<u8>, at: int, depth: nat) -> Result<
    (Seq<(Seq<char>, ValueView)>, int),
    Amf0Error,
>
    decreases s.len() - at, 1nat,
{
    if short(s, at, 2) {
        Err(truncated(s, at, 2))
    } else if num16(s, at) == 0 {
        if short(s, at + 2, 1) {
            Err(truncated(s, at + 2, 1))
        } else if s[at + 2] != OBJECT_END {
            Err(Amf0Error::UnknownMarker { marker: s[at + 2], offset: (at + 2) as usize })
        } else {
            Ok((Seq::empty(), at + 3))
        }
    } else {
        match text_at(s, at + 2, num16(s, at)) {
            Err(error) => Err(error),
            Ok(key) => match value_at(s, at + 2 + num16(s, at), depth) {
                Err(error) => Err(error),
                Ok((value, next)) => if at < next <= s.len() {
                    match properties_at(s, next, depth) {
                        Ok((others, end)) => Ok((seq![(key, value)] + others, end)),
                        Err(error) => Err(error),
                    }
                } else {
                    Err(truncated(s, at, 2))
                },
            },
        }
    }
}

/// The `count` values at `at`, and where they end. A value ends after it
/// starts, so what follows one is always further on.
pub open spec fn items_at(s: Seq<u8>, at: int, count: int, depth: nat) -> Result<
    (Seq<ValueView>, int),
    Amf0Error,
>
    decreases s.len() - at, 1nat,
{
    if count <= 0 {
        Ok((Seq::empty(), at))
    } else {
        match value_at(s, at, depth) {
            Err(error) => Err(error),
            Ok((value, next)) => if at < next <= s.len() {
                match items_at(s, next, count - 1, depth) {
                    Ok((others, end)) => Ok((seq![value] + others, end)),
                    Err(error) => Err(error),
                }
            } else {
                Err(truncated(s, at, 1))
            },
        }
    }
}

/// Every value from `at` to the end.
pub open spec fn all_at(s: Seq<u8>, at: int) -> Result<Seq<ValueView>, Amf0Error>
    decreases s.len() - at,
{
    if at >= s.len() {
        Ok(Seq::empty())
    } else {
        match value_at(s, at, 0) {
            Err(error) => Err(error),
            Ok((value, next)) => if at < next <= s.len() {
                match all_at(s, next) {
                    Ok(others) => Ok(seq![value] + others),
                    Err(error) => Err(error),
                }
            } else {
                Err(truncated(s, at, 1))
            },
        }
    }
}

/// A value ends after it starts, and inside the payload.
pub proof fn lemma_value_ends(s: Seq<u8>, at: int, depth: nat)
    requires
        0 <= at <= s.len(),
    ensures
        value_at(s, at, depth) matches Ok((_, end)) ==> at < end <= s.len(),
    decreases s.len() - at, 0nat,
{
    if !short(s, at, 1) {
        if s[at] == OBJECT {
            lemma_properties_end(s, at + 1, depth + 1);
        } else if s[at] == ECMA_ARRAY && !short(s, at + 1, 4) {
            lemma_properties_end(s, at + 5, depth + 1);
        } else if s[at] == STRICT_ARRAY && !short(s, at + 1, 4) {
            lemma_items_end(s, at + 5, num32(s, at + 1), depth + 1);
        }
    }
}

proof fn lemma_properties_end(s: Seq<u8>, at: int, depth: nat)
    requires
        0 <= at <= s.len(),
    ensures
        properties_at(s, at, depth) matches Ok((_, end)) ==> at < end <= s.len(),
    decreases s.len() - at, 1nat,
{
    if !short(s, at, 2) && num16(s, at) != 0 && text_at(s, at + 2, num16(s, at)) is Ok {
        let start = at + 2 + num16(s, at);
        lemma_value_ends(s, start, depth);
        if let Ok((_, next)) = value_at(s, start, depth) {
            lemma_properties_end(s, next, depth);
        }
    }
}

proof fn lemma_items_end(s: Seq<u8>, at: int, count: int, depth: nat)
    requires
        0 <= at <= s.len(),
    ensures
        items_at(s, at, count, depth) matches Ok((_, end)) ==> at <= end <= s.len(),
    decreases s.len() - at, 1nat,
{
    if count > 0 {
        lemma_value_ends(s, at, depth);
        if let Ok((_, next)) = value_at(s, at, depth) {
            lemma_items_end(s, next, count - 1, depth);
        }
    }
}

/// Reads every value in `data`, in order.
///
/// A command message holds several, with nothing between them and no count in
/// front, so the end of the payload is the only thing that says how many there
/// are.
pub fn read_all(data: &[u8]) -> (outcome: Result<Vec<Value>, Amf0Error>)
    ensures
        match outcome {
            Ok(values) => all_at(data@, 0) == Ok::<_, Amf0Error>(values_view(values@)),
            Err(error) => all_at(data@, 0) == Err::<Seq<ValueView>, _>(error),
        },
{
    let mut at: usize = 0;
    let mut values: Vec<Value> = Vec::new();
    assert(values_view(values@) =~= Seq::empty());
    while at < data.len()
        invariant
            at <= data@.len(),
            match all_at(data@, at as int) {
                Ok(others) => all_at(data@, 0) == Ok::<_, Amf0Error>(values_view(values@) + others),
                Err(error) => all_at(data@, 0) == Err::<Seq<ValueView>, _>(error),
            },
        decreases data@.len() - at,
    {
        proof {
            lemma_value_ends(data@, at as int, 0);
        }
        let (value, next) = match read_value(data, at, 0) {
            Ok(read) => read,
            Err(error) => {
                return Err(error);
            },
        };
        let ghost before = values@;
        values.push(value);
        proof {
            lemma_values_push(before, value);
            if let Ok(others) = all_at(data@, next as int) {
                assert(values_view(before) + (seq![value@] + others) =~= values_view(values@)
                    + others);
            }
        }
        at = next;
    }
    assert(values_view(values@) + Seq::empty() =~= values_view(values@));
    Ok(values)
}

proof fn lemma_values_push(values: Seq<Value>, value: Value)
    ensures
        values_view(values.push(value)) == values_view(values).push(value@),
{
    assert(values_view(values.push(value)) =~= values_view(values).push(value@));
}

proof fn lemma_properties_push(properties: Seq<(String, Value)>, key: String, value: Value)
    ensures
        properties_view(properties.push((key, value))) == properties_view(properties).push(
            (key@, value@),
        ),
{
    assert(properties_view(properties.push((key, value))) =~= properties_view(properties).push(
        (key@, value@),
    ));
}

/// Whether `count` bytes are there at `at`; if not, by how many they are short.
fn need(data: &[u8], at: usize, count: usize) -> (outcome: Result<(), Amf0Error>)
    requires
        at <= data@.len(),
    ensures
        outcome is Ok <==> !short(data@, at as int, count as int),
        outcome is Ok ==> at + count <= data@.len() <= usize::MAX,
        outcome matches Err(error) ==> error == truncated(data@, at as int, count as int),
{
    let have: usize = data.len() - at;
    if have < count {
        Err(Amf0Error::Truncated { offset: at, needed: count - have })
    } else {
        Ok(())
    }
}

fn read_string(data: &[u8], at: usize, length: usize) -> (outcome: Result<String, Amf0Error>)
    requires
        at <= data@.len(),
    ensures
        match outcome {
            Ok(text) => text_at(data@, at as int, length as int) == Ok::<_, Amf0Error>(text@),
            Err(error) => text_at(data@, at as int, length as int) == Err::<Seq<char>, _>(error),
        },
{
    match need(data, at, length) {
        Ok(()) => {},
        Err(error) => {
            return Err(error);
        },
    }
    match utf8(slice_subrange(data, at, at + length)) {
        Some(text) => Ok(text.to_owned()),
        None => Err(Amf0Error::NotUtf8 { offset: at }),
    }
}

/// Reads the value at `at`, and says where it ends.
fn read_value(data: &[u8], at: usize, depth: usize) -> (outcome: Result<
    (Value, usize),
    Amf0Error,
>)
    requires
        at <= data@.len(),
        depth <= MAX_DEPTH,
    ensures
        match outcome {
            Ok((value, end)) => value_at(data@, at as int, depth as nat) == Ok::<_, Amf0Error>(
                (value@, end as int),
            ) && at < end <= data@.len(),
            Err(error) => value_at(data@, at as int, depth as nat) == Err::<(ValueView, int), _>(
                error,
            ),
        },
    decreases data@.len() - at, 0nat,
{
    proof {
            lemma_value_ends(data@, at as int, depth as nat);
    }
    match need(data, at, 1) {
        Ok(()) => {},
        Err(error) => {
            return Err(error);
        },
    }
    let marker: u8 = data[at];
    let start: usize = at + 1;
    match marker {
        NUMBER => {
            match need(data, start, 8) {
                Ok(()) => Ok((Value::Number(get_u64(data, start)), start + 8)),
                Err(error) => Err(error),
            }
        },
        // Anything but zero is true. Encoders write 1, but a reader that
        // insisted on it would refuse a stream over a value it can read.
        BOOLEAN => {
            match need(data, start, 1) {
                Ok(()) => Ok((Value::Boolean(data[start] != 0), start + 1)),
                Err(error) => Err(error),
            }
        },
        STRING => {
            match need(data, start, 2) {
                Ok(()) => {},
                Err(error) => {
                    return Err(error);
                },
            }
            let length: usize = get_u16(data, start) as usize;
            match read_string(data, start + 2, length) {
                Ok(text) => Ok((Value::String(text), start + 2 + length)),
                Err(error) => Err(error),
            }
        },
        LONG_STRING => {
            match need(data, start, 4) {
                Ok(()) => {},
                Err(error) => {
                    return Err(error);
                },
            }
            let length: usize = get_u32(data, start) as usize;
            match read_string(data, start + 4, length) {
                Ok(text) => Ok((Value::String(text), start + 4 + length)),
                Err(error) => Err(error),
            }
        },
        OBJECT => {
            if depth >= MAX_DEPTH {
                return Err(Amf0Error::TooDeep { limit: MAX_DEPTH });
            }
            match read_properties(data, start, depth + 1) {
                Ok((properties, end)) => Ok((Value::Object(properties), end)),
                Err(error) => Err(error),
            }
        },
        ECMA_ARRAY => {
            // The count is unreliable, and implementations do write it as
            // zero, so it is passed over: the terminator is what says where
            // the array ends.
            match need(data, start, 4) {
                Ok(()) => {},
                Err(error) => {
                    return Err(error);
                },
            }
            if depth >= MAX_DEPTH {
                return Err(Amf0Error::TooDeep { limit: MAX_DEPTH });
            }
            match read_properties(data, start + 4, depth + 1) {
                Ok((properties, end)) => Ok((Value::EcmaArray(properties), end)),
                Err(error) => Err(error),
            }
        },
        STRICT_ARRAY => {
            match need(data, start, 4) {
                Ok(()) => {},
                Err(error) => {
                    return Err(error);
                },
            }
            if depth >= MAX_DEPTH {
                return Err(Amf0Error::TooDeep { limit: MAX_DEPTH });
            }
            let count: u32 = get_u32(data, start);
            match read_items(data, start + 4, count, depth + 1) {
                Ok((values, end)) => Ok((Value::StrictArray(values), end)),
                Err(error) => Err(error),
            }
        },
        DATE => {
            match need(data, start, 8) {
                Ok(()) => {},
                Err(error) => {
                    return Err(error);
                },
            }
            // The time zone, required to be zero and ignored everywhere.
            match need(data, start + 8, 2) {
                Ok(()) => Ok((Value::Date(get_u64(data, start)), start + 10)),
                Err(error) => Err(error),
            }
        },
        NULL => Ok((Value::Null, start)),
        UNDEFINED => Ok((Value::Undefined, start)),
        OBJECT_END => Err(Amf0Error::UnexpectedObjectEnd { offset: at }),
        MOVIE_CLIP => Err(Amf0Error::UnreadType { name: "a movie clip", offset: at }),
        REFERENCE => Err(Amf0Error::UnreadType { name: "a reference", offset: at }),
        UNSUPPORTED => Err(
            Amf0Error::UnreadType { name: "an unsupported-type marker", offset: at },
        ),
        RECORD_SET => Err(Amf0Error::UnreadType { name: "a record set", offset: at }),
        XML_DOCUMENT => Err(Amf0Error::UnreadType { name: "an XML document", offset: at }),
        TYPED_OBJECT => Err(Amf0Error::UnreadType { name: "a typed object", offset: at }),
        AVM_PLUS => Err(Amf0Error::UnreadType { name: "a switch to AMF3", offset: at }),
        marker => Err(Amf0Error::UnknownMarker { marker, offset: at }),
    }
}

/// Reads the body both object-shaped types share, and says where it ends.
fn read_properties(data: &[u8], at: usize, depth: usize) -> (outcome: Result<
    (Vec<(String, Value)>, usize),
    Amf0Error,
>)
    requires
        at <= data@.len(),
        depth <= MAX_DEPTH,
    ensures
        match outcome {
            Ok((properties, end)) => properties_at(data@, at as int, depth as nat) == Ok::<
                _,
                Amf0Error,
            >((properties_view(properties@), end as int)) && at < end <= data@.len(),
            Err(error) => properties_at(data@, at as int, depth as nat) == Err::<
                (Seq<(Seq<char>, ValueView)>, int),
                _,
            >(error),
        },
    decreases data@.len() - at, 1nat,
{
    proof {
        lemma_properties_end(data@, at as int, depth as nat);
    }
    let mut properties: Vec<(String, Value)> = Vec::new();
    let mut pos: usize = at;
    assert(properties_view(properties@) =~= Seq::empty());
    loop
        invariant
            at <= pos <= data@.len(),
            depth <= MAX_DEPTH,
            match properties_at(data@, pos as int, depth as nat) {
                Ok((others, end)) => properties_at(data@, at as int, depth as nat) == Ok::<
                    _,
                    Amf0Error,
                >((properties_view(properties@) + others, end)) && at < end <= data@.len(),
                Err(error) => properties_at(data@, at as int, depth as nat) == Err::<
                    (Seq<(Seq<char>, ValueView)>, int),
                    _,
                >(error),
            },
        decreases data@.len() - pos,
    {
        match need(data, pos, 2) {
            Ok(()) => {},
            Err(error) => {
                return Err(error);
            },
        }
        let length: usize = get_u16(data, pos) as usize;
        if length == 0 {
            match need(data, pos + 2, 1) {
                Ok(()) => {},
                Err(error) => {
                    return Err(error);
                },
            }
            let marker: u8 = data[pos + 2];
            if marker != OBJECT_END {
                return Err(Amf0Error::UnknownMarker { marker, offset: pos + 2 });
            }
            assert(properties_view(properties@) + Seq::empty() =~= properties_view(properties@));
            return Ok((properties, pos + 3));
        }
        let key: String = match read_string(data, pos + 2, length) {
            Ok(key) => key,
            Err(error) => {
                return Err(error);
            },
        };
        let (value, next) = match read_value(data, pos + 2 + length, depth) {
            Ok(read) => read,
            Err(error) => {
                return Err(error);
            },
        };
        let ghost before = properties@;
        properties.push((key, value));
        proof {
            lemma_properties_push(before, key, value);
            if let Ok((others, _)) = properties_at(data@, next as int, depth as nat) {
                assert(properties_view(before) + (seq![(key@, value@)] + others)
                    =~= properties_view(properties@) + others);
            }
        }
        pos = next;
    }
}

/// Reads `count` values, and says where they end.
///
/// The count is a number the peer chose, so nothing is allocated on the
/// strength of it: growing as values arrive makes the peer send them first.
fn read_items(data: &[u8], at: usize, count: u32, depth: usize) -> (outcome: Result<
    (Vec<Value>, usize),
    Amf0Error,
>)
    requires
        at <= data@.len(),
        depth <= MAX_DEPTH,
    ensures
        match outcome {
            Ok((values, end)) => items_at(data@, at as int, count as int, depth as nat) == Ok::<
                _,
                Amf0Error,
            >((values_view(values@), end as int)) && at <= end <= data@.len(),
            Err(error) => items_at(data@, at as int, count as int, depth as nat) == Err::<
                (Seq<ValueView>, int),
                _,
            >(error),
        },
    decreases data@.len() - at, 1nat,
{
    proof {
        lemma_items_end(data@, at as int, count as int, depth as nat);
    }
    let mut values: Vec<Value> = Vec::new();
    let mut pos: usize = at;
    let mut left: u32 = count;
    assert(values_view(values@) =~= Seq::empty());
    while left > 0
        invariant
            at <= pos <= data@.len(),
            depth <= MAX_DEPTH,
            match items_at(data@, pos as int, left as int, depth as nat) {
                Ok((others, end)) => items_at(data@, at as int, count as int, depth as nat) == Ok::<
                    _,
                    Amf0Error,
                >((values_view(values@) + others, end)) && at <= end <= data@.len(),
                Err(error) => items_at(data@, at as int, count as int, depth as nat) == Err::<
                    (Seq<ValueView>, int),
                    _,
                >(error),
            },
        decreases left,
    {
        let (value, next) = match read_value(data, pos, depth) {
            Ok(read) => read,
            Err(error) => {
                return Err(error);
            },
        };
        let ghost before = values@;
        values.push(value);
        proof {
            lemma_values_push(before, value);
            if let Ok((others, _)) = items_at(data@, next as int, left - 1, depth as nat) {
                assert(values_view(before) + (seq![value@] + others) =~= values_view(values@)
                    + others);
            }
        }
        pos = next;
        left = left - 1;
    }
    assert(values_view(values@) + Seq::empty() =~= values_view(values@));
    Ok((values, pos))
}

/// What writing puts out, and what stopped it, if anything did.
pub struct Emitted {
    pub bytes: Seq<u8>,
    pub stopped: Option<Amf0Error>,
}

/// What comes of writing `first` and, unless something is already wrong, what
/// `rest` is.
pub open spec fn followed(first: Seq<u8>, rest: Emitted) -> Emitted {
    Emitted { bytes: first + rest.bytes, stopped: rest.stopped }
}

/// A string with its marker and its count: short where that is enough.
pub open spec fn emitted_string(text: Seq<char>) -> Emitted {
    let bytes = encode_utf8(text);
    if bytes.len() <= 0xffff {
        Emitted { bytes: seq![STRING] + be16(bytes.len() as int) + bytes, stopped: None }
    } else if bytes.len() <= 0xffff_ffff {
        Emitted { bytes: seq![LONG_STRING] + be32(bytes.len() as int) + bytes, stopped: None }
    } else {
        Emitted {
            bytes: Seq::empty(),
            stopped: Some(Amf0Error::StringTooLong { length: bytes.len() as usize }),
        }
    }
}

/// What is written of a value.
pub open spec fn emitted(value: ValueView) -> Emitted
    decreases value,
{
    match value {
        ValueView::Number(bits) => Emitted {
            bytes: seq![NUMBER] + be64(bits as int),
            stopped: None,
        },
        ValueView::Boolean(flag) => Emitted {
            bytes: seq![
                BOOLEAN,
                if flag {
                    1u8
                } else {
                    0u8
                },
            ],
            stopped: None,
        },
        ValueView::String(text) => emitted_string(text),
        ValueView::Object(properties) => followed(seq![OBJECT], emitted_properties(properties)),
        ValueView::EcmaArray(properties) => followed(
            seq![ECMA_ARRAY] + be32(properties.len() as int % 0x1_0000_0000),
            emitted_properties(properties),
        ),
        ValueView::StrictArray(values) => followed(
            seq![STRICT_ARRAY] + be32(values.len() as int % 0x1_0000_0000),
            emitted_all(values),
        ),
        ValueView::Date(bits) => Emitted {
            bytes: seq![DATE] + be64(bits as int) + be16(0),
            stopped: None,
        },
        ValueView::Null => Emitted { bytes: seq![NULL], stopped: None },
        ValueView::Undefined => Emitted { bytes: seq![UNDEFINED], stopped: None },
    }
}

/// What is written of named values, with the terminator: an empty key, then
/// the marker that confirms it.
pub open spec fn emitted_properties(properties: Seq<(Seq<char>, ValueView)>) -> Emitted
    decreases properties,
{
    if properties.len() == 0 {
        Emitted { bytes: be16(0).push(OBJECT_END), stopped: None }
    } else {
        let key = encode_utf8(properties[0].0);
        if key.len() == 0 || key.len() > 0xffff {
            Emitted {
                bytes: Seq::empty(),
                stopped: Some(Amf0Error::UnwritableKey { length: key.len() as usize }),
            }
        } else {
            let named = followed(be16(key.len() as int) + key, emitted(properties[0].1));
            if named.stopped is Some {
                named
            } else {
                followed(
                    named.bytes,
                    emitted_properties(properties.subrange(1, properties.len() as int)),
                )
            }
        }
    }
}

/// What is written of values one after another.
pub open spec fn emitted_all(values: Seq<ValueView>) -> Emitted
    decreases values,
{
    if values.len() == 0 {
        Emitted { bytes: Seq::empty(), stopped: None }
    } else {
        let first = emitted(values[0]);
        if first.stopped is Some {
            first
        } else {
            followed(first.bytes, emitted_all(values.subrange(1, values.len() as int)))
        }
    }
}

/// Writes values one after another, appending to `out`.
pub fn write_all(out: &mut BytesMut, values: &[Value]) -> (outcome: Result<(), Amf0Error>)
    ensures
        final(out)@ == old(out)@ + emitted_all(values_view(values@)).bytes,
        outcome == match emitted_all(values_view(values@)).stopped {
            Some(error) => Err(error),
            None => Ok(()),
        },
    decreases values@,
{
    let mut i: usize = 0;
    let ghost view = values_view(values@);
    let ghost whole = emitted_all(view);
    assert(view.skip(0) =~= view);
    while i < values.len()
        invariant
            i <= values@.len(),
            view == values_view(values@),
            whole == emitted_all(view),
            old(out)@ + whole.bytes == out@ + emitted_all(view.skip(i as int)).bytes,
            whole.stopped == emitted_all(view.skip(i as int)).stopped,
        decreases values@.len() - i,
    {
        let ghost left = view.skip(i as int);
        let ghost before = out@;
        assert(left.subrange(1, left.len() as int) =~= view.skip(i + 1));
        assert(left[0] == values@[i as int]@);
        match write(out, &values[i]) {
            Ok(()) => {},
            Err(error) => {
                return Err(error);
            },
        }
        proof {
            let first = emitted(left[0]).bytes;
            let rest = emitted_all(view.skip(i + 1)).bytes;
            assert(before + (first + rest) =~= out@ + rest);
        }
        i = i + 1;
    }
    assert(out@ + Seq::empty() =~= out@);
    Ok(())
}

/// Writes one value, appending to `out`.
///
/// Round-trips by value rather than by bytes: a short string encoded in the
/// long form reads back the same and goes out in the short one, because the
/// choice between them is a property of the encoding and not of the string.
///
/// A value that cannot be written leaves what came before the part that
/// cannot.
pub fn write(out: &mut BytesMut, value: &Value) -> (outcome: Result<(), Amf0Error>)
    ensures
        final(out)@ == old(out)@ + emitted(value@).bytes,
        outcome == match emitted(value@).stopped {
            Some(error) => Err(error),
            None => Ok(()),
        },
    decreases value,
{
    let ghost start = out@;
    match value {
        Value::Number(bits) => {
            put_u8(out, NUMBER);
            put_u64(out, *bits);
        },
        Value::Boolean(flag) => {
            put_u8(out, BOOLEAN);
            put_u8(
                out,
                if *flag {
                    1
                } else {
                    0
                },
            );
        },
        Value::String(text) => {
            return put_string(out, text.as_str());
        },
        Value::Object(properties) => {
            put_u8(out, OBJECT);
            let outcome = put_properties(out, properties);
            assert(out@ =~= start + emitted(value@).bytes);
            return outcome;
        },
        Value::EcmaArray(properties) => {
            put_u8(out, ECMA_ARRAY);
            // The count no reader is supposed to trust. Written truthfully
            // anyway, for the readers that do.
            put_u32(out, (properties.len() as u64 % 0x1_0000_0000) as u32);
            let outcome = put_properties(out, properties);
            assert(out@ =~= start + emitted(value@).bytes);
            return outcome;
        },
        Value::StrictArray(values) => {
            put_u8(out, STRICT_ARRAY);
            put_u32(out, (values.len() as u64 % 0x1_0000_0000) as u32);
            let outcome = write_all(out, values.as_slice());
            assert(out@ =~= start + emitted(value@).bytes);
            return outcome;
        },
        Value::Date(bits) => {
            put_u8(out, DATE);
            put_u64(out, *bits);
            // The time zone, which is required to be zero.
            put_u16(out, 0);
        },
        Value::Null => put_u8(out, NULL),
        Value::Undefined => put_u8(out, UNDEFINED),
    }
    assert(out@ =~= start + emitted(value@).bytes);
    Ok(())
}

fn put_string(out: &mut BytesMut, text: &str) -> (outcome: Result<(), Amf0Error>)
    ensures
        final(out)@ == old(out)@ + emitted_string(text@).bytes,
        outcome == match emitted_string(text@).stopped {
            Some(error) => Err(error),
            None => Ok(()),
        },
{
    let bytes = text.as_bytes();
    let length: usize = bytes.len();
    if length <= 0xffff {
        put_u8(out, STRING);
        put_u16(out, length as u16);
    } else if length <= 0xffff_ffff {
        put_u8(out, LONG_STRING);
        put_u32(out, length as u32);
    } else {
        assert(out@ =~= old(out)@ + Seq::empty());
        return Err(Amf0Error::StringTooLong { length });
    }
    put_slice(out, bytes);
    assert(out@ =~= old(out)@ + emitted_string(text@).bytes);
    Ok(())
}

fn put_properties(out: &mut BytesMut, properties: &Vec<(String, Value)>) -> (outcome: Result<
    (),
    Amf0Error,
>)
    ensures
        final(out)@ == old(out)@ + emitted_properties(properties_view(properties@)).bytes,
        outcome == match emitted_properties(properties_view(properties@)).stopped {
            Some(error) => Err(error),
            None => Ok(()),
        },
    decreases properties@,
{
    let mut i: usize = 0;
    let ghost view = properties_view(properties@);
    let ghost whole = emitted_properties(view);
    assert(view.skip(0) =~= view);
    while i < properties.len()
        invariant
            i <= properties@.len(),
            view == properties_view(properties@),
            whole == emitted_properties(view),
            old(out)@ + whole.bytes == out@ + emitted_properties(view.skip(i as int)).bytes,
            whole.stopped == emitted_properties(view.skip(i as int)).stopped,
        decreases properties@.len() - i,
    {
        let ghost left = view.skip(i as int);
        let ghost before = out@;
        assert(left.subrange(1, left.len() as int) =~= view.skip(i + 1));
        assert(left[0] == (properties@[i as int].0@, properties@[i as int].1@));
        let key = properties[i].0.as_str().as_bytes();
        // A key of no bytes is what ends an object, so writing one would
        // truncate everything after it into something that still parses.
        if key.len() == 0 || key.len() > 0xffff {
            assert(out@ + Seq::empty() =~= out@);
            return Err(Amf0Error::UnwritableKey { length: key.len() });
        }
        put_u16(out, key.len() as u16);
        put_slice(out, key);
        let outcome = write(out, &properties[i].1);
        proof {
            let named = be16(key@.len() as int) + key@;
            let value = emitted(left[0].1).bytes;
            assert(out@ =~= before + (named + value));
        }
        match outcome {
            Ok(()) => {},
            Err(error) => {
                return Err(error);
            },
        }
        proof {
            let named = be16(key@.len() as int) + key@ + emitted(left[0].1).bytes;
            let rest = emitted_properties(view.skip(i + 1)).bytes;
            assert(before + (named + rest) =~= out@ + rest);
        }
        i = i + 1;
    }
    put_u16(out, 0);
    put_u8(out, OBJECT_END);
    assert(out@ =~= old(out)@ + whole.bytes);
    Ok(())
}

/// Whether a value that stands inside `depth` objects and arrays nests no
/// deeper than is read, and no dense array in it has more members than its
/// count can say.
pub open spec fn fits(value: ValueView, depth: nat) -> bool
    decreases value,
{
    match value {
        ValueView::Object(properties) => depth < MAX_DEPTH && properties_fit(properties, depth + 1),
        ValueView::EcmaArray(properties) => depth < MAX_DEPTH && properties_fit(
            properties,
            depth + 1,
        ),
        ValueView::StrictArray(values) => depth < MAX_DEPTH && values.len() <= 0xffff_ffff
            && values_fit(values, depth + 1),
        _ => true,
    }
}

/// Whether every value of a list of properties fits.
pub open spec fn properties_fit(properties: Seq<(Seq<char>, ValueView)>, depth: nat) -> bool
    decreases properties,
{
    properties.len() > 0 ==> fits(properties[0].1, depth) && properties_fit(
        properties.subrange(1, properties.len() as int),
        depth,
    )
}

/// Whether every value of a list fits.
pub open spec fn values_fit(values: Seq<ValueView>, depth: nat) -> bool
    decreases values,
{
    values.len() > 0 ==> fits(values[0], depth) && values_fit(
        values.subrange(1, values.len() as int),
        depth,
    )
}

/// Values that can be written and are not nested past the limit read back as
/// they were written.
pub proof fn law_written_values_read_back(values: Seq<ValueView>)
    requires
        emitted_all(values).stopped is None,
        values_fit(values, 0),
    ensures
        all_at(emitted_all(values).bytes, 0) == Ok::<_, Amf0Error>(values),
{
    let s = emitted_all(values).bytes;
    lemma_all_read(values, Seq::empty());
    assert(Seq::<u8>::empty() + s =~= s);
}

proof fn lemma_all_read(values: Seq<ValueView>, before: Seq<u8>)
    requires
        emitted_all(values).stopped is None,
        values_fit(values, 0),
    ensures
        all_at(before + emitted_all(values).bytes, before.len() as int) == Ok::<_, Amf0Error>(
            values,
        ),
    decreases values.len(),
{
    let s = before + emitted_all(values).bytes;
    if values.len() > 0 {
        let first = emitted(values[0]).bytes;
        let others = values.subrange(1, values.len() as int);
        let rest = emitted_all(others).bytes;
        lemma_value_reads(values[0], before, rest, 0);
        lemma_all_read(others, before + first);
        assert(s =~= before + first + rest);
        assert(values =~= seq![values[0]] + others);
        lemma_value_ends(s, before.len() as int, 0);
    } else {
        assert(values =~= Seq::empty());
    }
}

/// A string reads back in the middle of a payload.
proof fn lemma_text_reads(before: Seq<u8>, text: Seq<char>, after: Seq<u8>)
    ensures
        text_at(
            before + encode_utf8(text) + after,
            before.len() as int,
            encode_utf8(text).len() as int,
        ) == Ok::<_, Amf0Error>(text),
{
    broadcast use {vstd::utf8::encode_utf8_decode_utf8, vstd::utf8::encode_utf8_valid_utf8};

    let bytes = encode_utf8(text);
    let s = before + bytes + after;
    let at = before.len() as int;
    assert(s.subrange(at, at + bytes.len()) =~= bytes);
}

proof fn lemma_string_reads(text: Seq<char>, before: Seq<u8>, after: Seq<u8>, depth: nat)
    requires
        emitted_string(text).stopped is None,
    ensures
        value_at(before + emitted_string(text).bytes + after, before.len() as int, depth) == Ok::<
            _,
            Amf0Error,
        >((ValueView::String(text), (before + emitted_string(text).bytes).len() as int)),
{
    let bytes = encode_utf8(text);
    let length = bytes.len() as int;
    let s = before + emitted_string(text).bytes + after;
    let (marker, count) = if length <= 0xffff {
        (seq![STRING], be16(length))
    } else {
        (seq![LONG_STRING], be32(length))
    };
    assert(s =~= before + marker + count + (bytes + after));
    if length <= 0xffff {
        lemma_num16_amid(before + marker, length, bytes + after);
    } else {
        lemma_num32_amid(before + marker, length, bytes + after);
    }
    assert(s =~= (before + marker + count) + bytes + after);
    lemma_text_reads(before + marker + count, text, after);
    assert(s[before.len() as int] == marker[0]);
}

/// A written value that holds no other reads back in the middle of a payload.
proof fn lemma_scalar_reads(value: ValueView, before: Seq<u8>, after: Seq<u8>, depth: nat)
    requires
        value is Number || value is Boolean || value is Date || value is Null || value is Undefined,
    ensures
        value_at(before + emitted(value).bytes + after, before.len() as int, depth) == Ok::<
            _,
            Amf0Error,
        >((value, (before + emitted(value).bytes).len() as int)),
{
    let s = before + emitted(value).bytes + after;
    assert(s[before.len() as int] == emitted(value).bytes[0]);
    match value {
        ValueView::Number(bits) => {
            assert(s =~= before + seq![NUMBER] + be64(bits as int) + after);
            lemma_num64_amid(before + seq![NUMBER], bits as int, after);
        },
        ValueView::Date(bits) => {
            assert(s =~= before + seq![DATE] + be64(bits as int) + (be16(0) + after));
            lemma_num64_amid(before + seq![DATE], bits as int, be16(0) + after);
        },
        _ => {},
    }
}

/// A written value reads back in the middle of a payload, and ends where it
/// was written to.
#[verifier::rlimit(60)]
#[verifier::spinoff_prover]
proof fn lemma_value_reads(value: ValueView, before: Seq<u8>, after: Seq<u8>, depth: nat)
    requires
        emitted(value).stopped is None,
        fits(value, depth),
    ensures
        value_at(before + emitted(value).bytes + after, before.len() as int, depth) == Ok::<
            _,
            Amf0Error,
        >((value, (before + emitted(value).bytes).len() as int)),
    decreases value,
{
    let s = before + emitted(value).bytes + after;
    let at = before.len() as int;
    match value {
        ValueView::String(text) => {
            lemma_string_reads(text, before, after, depth);
        },
        ValueView::Object(properties) => {
            let body = emitted_properties(properties).bytes;
            assert(s =~= before + seq![OBJECT] + body + after);
            lemma_properties_read(properties, before + seq![OBJECT], after, depth + 1);
            assert(s[at] == OBJECT);
        },
        ValueView::EcmaArray(properties) => {
            let body = emitted_properties(properties).bytes;
            let head = seq![ECMA_ARRAY] + be32(properties.len() as int % 0x1_0000_0000);
            assert(s =~= before + head + body + after);
            lemma_properties_read(properties, before + head, after, depth + 1);
            assert(s[at] == ECMA_ARRAY);
        },
        ValueView::StrictArray(values) => {
            let body = emitted_all(values).bytes;
            let count = be32(values.len() as int);
            let head = seq![STRICT_ARRAY] + count;
            assert(s =~= before + seq![STRICT_ARRAY] + count + (body + after));
            lemma_num32_amid(before + seq![STRICT_ARRAY], values.len() as int, body + after);
            assert(s =~= before + head + body + after);
            lemma_items_read(values, before + head, after, depth + 1);
            assert(s[at] == STRICT_ARRAY);
        },
        _ => {
            lemma_scalar_reads(value, before, after, depth);
        },
    }
}

/// Six sequences on end are the same sequence however they are grouped.
proof fn lemma_regroup(
    a: Seq<u8>,
    b: Seq<u8>,
    c: Seq<u8>,
    d: Seq<u8>,
    e: Seq<u8>,
    f: Seq<u8>,
)
    ensures
        a + b + (c + d + e + f) == a + (b + c + d + e) + f,
        a + b + c + (d + e + f) == a + (b + c + d + e) + f,
        a + b + c + d + (e + f) == a + (b + c + d + e) + f,
        a + b + c + d + e + f == a + (b + c + d + e) + f,
{
    assert(a + b + (c + d + e + f) =~= a + (b + c + d + e) + f);
    assert(a + b + c + (d + e + f) =~= a + (b + c + d + e) + f);
    assert(a + b + c + d + (e + f) =~= a + (b + c + d + e) + f);
    assert(a + b + c + d + e + f =~= a + (b + c + d + e) + f);
}

#[verifier::rlimit(60)]
#[verifier::spinoff_prover]
proof fn lemma_properties_read(
    properties: Seq<(Seq<char>, ValueView)>,
    before: Seq<u8>,
    after: Seq<u8>,
    depth: nat,
)
    requires
        emitted_properties(properties).stopped is None,
        properties_fit(properties, depth),
    ensures
        properties_at(
            before + emitted_properties(properties).bytes + after,
            before.len() as int,
            depth,
        ) == Ok::<_, Amf0Error>(
            (properties, (before + emitted_properties(properties).bytes).len() as int),
        ),
    decreases properties,
{
    let s = before + emitted_properties(properties).bytes + after;
    let at = before.len() as int;
    if properties.len() == 0 {
        assert(s =~= before + be16(0) + (seq![OBJECT_END] + after));
        lemma_num16_amid(before, 0, seq![OBJECT_END] + after);
        assert(s[at + 2] == OBJECT_END);
        assert(properties =~= Seq::empty());
    } else {
        let (name, value) = properties[0];
        let key = encode_utf8(name);
        let length = key.len() as int;
        let count = be16(length);
        let first = emitted(value).bytes;
        let others = properties.subrange(1, properties.len() as int);
        let rest = emitted_properties(others).bytes;
        lemma_regroup(before, count, key, first, rest, after);
        lemma_num16_amid(before, length, key + first + rest + after);
        lemma_text_reads(before + count, name, first + rest + after);
        lemma_value_reads(value, before + count + key, rest + after, depth);
        lemma_properties_read(others, before + count + key + first, after, depth);
        assert(properties =~= seq![(name, value)] + others);
        lemma_value_ends(s, at + 2 + length, depth);
    }
}

proof fn lemma_items_read(values: Seq<ValueView>, before: Seq<u8>, after: Seq<u8>, depth: nat)
    requires
        emitted_all(values).stopped is None,
        values_fit(values, depth),
    ensures
        items_at(
            before + emitted_all(values).bytes + after,
            before.len() as int,
            values.len() as int,
            depth,
        ) == Ok::<_, Amf0Error>((values, (before + emitted_all(values).bytes).len() as int)),
    decreases values,
{
    let s = before + emitted_all(values).bytes + after;
    if values.len() == 0 {
        assert(values =~= Seq::empty());
    } else {
        let first = emitted(values[0]).bytes;
        let others = values.subrange(1, values.len() as int);
        let rest = emitted_all(others).bytes;
        assert(s =~= before + first + (rest + after));
        lemma_value_reads(values[0], before, rest + after, depth);
        assert(s =~= (before + first) + rest + after);
        lemma_items_read(others, before + first, after, depth);
        assert(values =~= seq![values[0]] + others);
        lemma_value_ends(s, before.len() as int, depth);
    }
}

/// Whether no dense array in a value, however deep, has more members than its
/// count can say.
pub open spec fn countable(value: ValueView) -> bool
    decreases value,
{
    match value {
        ValueView::Object(properties) => properties_countable(properties),
        ValueView::EcmaArray(properties) => properties_countable(properties),
        ValueView::StrictArray(values) => values.len() <= 0xffff_ffff && values_countable(values),
        _ => true,
    }
}

/// Whether every value of a list of properties is countable.
pub open spec fn properties_countable(properties: Seq<(Seq<char>, ValueView)>) -> bool
    decreases properties,
{
    properties.len() > 0 ==> countable(properties[0].1) && properties_countable(
        properties.subrange(1, properties.len() as int),
    )
}

/// Whether every value of a list is countable.
pub open spec fn values_countable(values: Seq<ValueView>) -> bool
    decreases values,
{
    values.len() > 0 ==> countable(values[0]) && values_countable(
        values.subrange(1, values.len() as int),
    )
}

/// How deeply objects and arrays nest in a value: not at all where it is
/// neither.
pub open spec fn nesting(value: ValueView) -> nat
    decreases value,
{
    match value {
        ValueView::Object(properties) => 1 + properties_nesting(properties),
        ValueView::EcmaArray(properties) => 1 + properties_nesting(properties),
        ValueView::StrictArray(values) => 1 + values_nesting(values),
        _ => 0,
    }
}

/// How deeply the value of a list of properties that nests deepest does.
pub open spec fn properties_nesting(properties: Seq<(Seq<char>, ValueView)>) -> nat
    decreases properties,
{
    if properties.len() == 0 {
        0
    } else {
        deeper(
            nesting(properties[0].1),
            properties_nesting(properties.subrange(1, properties.len() as int)),
        )
    }
}

/// How deeply the value of a list that nests deepest does.
pub open spec fn values_nesting(values: Seq<ValueView>) -> nat
    decreases values,
{
    if values.len() == 0 {
        0
    } else {
        deeper(nesting(values[0]), values_nesting(values.subrange(1, values.len() as int)))
    }
}

/// The greater of two depths.
pub open spec fn deeper(a: nat, b: nat) -> nat {
    if a < b {
        b
    } else {
        a
    }
}

/// What fits is what nests no deeper than the limit and can be counted.
proof fn lemma_value_fits(value: ValueView, depth: nat)
    requires
        depth <= MAX_DEPTH,
    ensures
        fits(value, depth) == (countable(value) && depth + nesting(value) <= MAX_DEPTH),
    decreases value,
{
    if depth < MAX_DEPTH {
        match value {
            ValueView::Object(properties) => lemma_properties_fit(properties, depth + 1),
            ValueView::EcmaArray(properties) => lemma_properties_fit(properties, depth + 1),
            ValueView::StrictArray(values) => lemma_values_fit(values, depth + 1),
            _ => {},
        }
    }
}

proof fn lemma_properties_fit(properties: Seq<(Seq<char>, ValueView)>, depth: nat)
    requires
        depth <= MAX_DEPTH,
    ensures
        properties_fit(properties, depth) == (properties_countable(properties) && depth
            + properties_nesting(properties) <= MAX_DEPTH),
    decreases properties,
{
    if properties.len() > 0 {
        lemma_value_fits(properties[0].1, depth);
        lemma_properties_fit(properties.subrange(1, properties.len() as int), depth);
    }
}

proof fn lemma_values_fit(values: Seq<ValueView>, depth: nat)
    requires
        depth <= MAX_DEPTH,
    ensures
        values_fit(values, depth) == (values_countable(values) && depth + values_nesting(values)
            <= MAX_DEPTH),
    decreases values,
{
    if values.len() > 0 {
        lemma_value_fits(values[0], depth);
        lemma_values_fit(values.subrange(1, values.len() as int), depth);
    }
}

/// Whether values can be read back depends on how deeply they nest alone: up to
/// the limit they read back as they were written, and past it, though they can
/// be written, they are refused as too deep.
pub proof fn law_nesting_past_the_limit_is_refused(values: Seq<ValueView>)
    requires
        emitted_all(values).stopped is None,
        values_countable(values),
    ensures
        all_at(emitted_all(values).bytes, 0) == if values_nesting(values) <= MAX_DEPTH {
            Ok::<_, Amf0Error>(values)
        } else {
            Err(Amf0Error::TooDeep { limit: MAX_DEPTH })
        },
{
    lemma_values_fit(values, 0);
    if values_nesting(values) <= MAX_DEPTH {
        law_written_values_read_back(values);
    } else {
        lemma_too_deep(values);
    }
}

proof fn lemma_too_deep(values: Seq<ValueView>)
    requires
        emitted_all(values).stopped is None,
        values_countable(values),
        !values_fit(values, 0),
    ensures
        all_at(emitted_all(values).bytes, 0) == Err::<Seq<ValueView>, _>(
            Amf0Error::TooDeep { limit: MAX_DEPTH },
        ),
{
    let s = emitted_all(values).bytes;
    lemma_all_too_deep(values, Seq::empty());
    assert(Seq::<u8>::empty() + s =~= s);
}

proof fn lemma_all_too_deep(values: Seq<ValueView>, before: Seq<u8>)
    requires
        emitted_all(values).stopped is None,
        values_countable(values),
        !values_fit(values, 0),
    ensures
        all_at(before + emitted_all(values).bytes, before.len() as int) == Err::<
            Seq<ValueView>,
            _,
        >(Amf0Error::TooDeep { limit: MAX_DEPTH }),
    decreases values.len(),
{
    let s = before + emitted_all(values).bytes;
    let first = emitted(values[0]).bytes;
    let others = values.subrange(1, values.len() as int);
    let rest = emitted_all(others).bytes;
    assert(s =~= before + first + rest);
    if fits(values[0], 0) {
        lemma_value_reads(values[0], before, rest, 0);
        lemma_all_too_deep(others, before + first);
        lemma_value_ends(s, before.len() as int, 0);
    } else {
        lemma_value_too_deep(values[0], before, rest, 0);
        if before.len() >= s.len() {
            assert(value_at(s, before.len() as int, 0) == Err::<(ValueView, int), _>(
                truncated(s, before.len() as int, 1),
            ));
        }
    }
}

/// A written value that is nested past the limit is refused in the middle of a
/// payload.
#[verifier::rlimit(60)]
#[verifier::spinoff_prover]
proof fn lemma_value_too_deep(value: ValueView, before: Seq<u8>, after: Seq<u8>, depth: nat)
    requires
        emitted(value).stopped is None,
        countable(value),
        !fits(value, depth),
    ensures
        value_at(before + emitted(value).bytes + after, before.len() as int, depth) == Err::<
            (ValueView, int),
            _,
        >(Amf0Error::TooDeep { limit: MAX_DEPTH }),
    decreases value,
{
    let s = before + emitted(value).bytes + after;
    let at = before.len() as int;
    match value {
        ValueView::Object(properties) => {
            let body = emitted_properties(properties).bytes;
            assert(s =~= before + seq![OBJECT] + body + after);
            if depth < MAX_DEPTH {
                lemma_properties_too_deep(properties, before + seq![OBJECT], after, depth + 1);
            }
            assert(s[at] == OBJECT);
        },
        ValueView::EcmaArray(properties) => {
            let body = emitted_properties(properties).bytes;
            let head = seq![ECMA_ARRAY] + be32(properties.len() as int % 0x1_0000_0000);
            assert(s =~= before + head + body + after);
            if depth < MAX_DEPTH {
                lemma_properties_too_deep(properties, before + head, after, depth + 1);
            }
            assert(s[at] == ECMA_ARRAY);
        },
        ValueView::StrictArray(values) => {
            let body = emitted_all(values).bytes;
            let count = be32(values.len() as int);
            let head = seq![STRICT_ARRAY] + count;
            assert(s =~= before + seq![STRICT_ARRAY] + count + (body + after));
            lemma_num32_amid(before + seq![STRICT_ARRAY], values.len() as int, body + after);
            assert(s =~= before + head + body + after);
            if depth < MAX_DEPTH {
                lemma_items_too_deep(values, before + head, after, depth + 1);
            }
            assert(s[at] == STRICT_ARRAY);
        },
        _ => {},
    }
}

#[verifier::rlimit(60)]
#[verifier::spinoff_prover]
proof fn lemma_properties_too_deep(
    properties: Seq<(Seq<char>, ValueView)>,
    before: Seq<u8>,
    after: Seq<u8>,
    depth: nat,
)
    requires
        emitted_properties(properties).stopped is None,
        properties_countable(properties),
        !properties_fit(properties, depth),
    ensures
        properties_at(
            before + emitted_properties(properties).bytes + after,
            before.len() as int,
            depth,
        ) == Err::<(Seq<(Seq<char>, ValueView)>, int), _>(Amf0Error::TooDeep { limit: MAX_DEPTH }),
    decreases properties,
{
    let s = before + emitted_properties(properties).bytes + after;
    let at = before.len() as int;
    let (name, value) = properties[0];
    let key = encode_utf8(name);
    let length = key.len() as int;
    let count = be16(length);
    let first = emitted(value).bytes;
    let others = properties.subrange(1, properties.len() as int);
    let rest = emitted_properties(others).bytes;
    lemma_regroup(before, count, key, first, rest, after);
    lemma_num16_amid(before, length, key + first + rest + after);
    lemma_text_reads(before + count, name, first + rest + after);
    if fits(value, depth) {
        lemma_value_reads(value, before + count + key, rest + after, depth);
        lemma_properties_too_deep(others, before + count + key + first, after, depth);
        lemma_value_ends(s, at + 2 + length, depth);
    } else {
        lemma_value_too_deep(value, before + count + key, rest + after, depth);
    }
}

proof fn lemma_items_too_deep(values: Seq<ValueView>, before: Seq<u8>, after: Seq<u8>, depth: nat)
    requires
        emitted_all(values).stopped is None,
        values_countable(values),
        !values_fit(values, depth),
    ensures
        items_at(
            before + emitted_all(values).bytes + after,
            before.len() as int,
            values.len() as int,
            depth,
        ) == Err::<(Seq<ValueView>, int), _>(Amf0Error::TooDeep { limit: MAX_DEPTH }),
    decreases values,
{
    let s = before + emitted_all(values).bytes + after;
    let first = emitted(values[0]).bytes;
    let others = values.subrange(1, values.len() as int);
    let rest = emitted_all(others).bytes;
    assert(s =~= before + first + (rest + after));
    if fits(values[0], depth) {
        lemma_value_reads(values[0], before, rest + after, depth);
        assert(s =~= (before + first) + rest + after);
        lemma_items_too_deep(others, before + first, after, depth);
        lemma_value_ends(s, before.len() as int, depth);
    } else {
        lemma_value_too_deep(values[0], before, rest + after, depth);
    }
}

/// Whether a key can be written: it is not empty, and its count can say how
/// long it is.
pub open spec fn writable_key(key: Seq<char>) -> bool {
    1 <= encode_utf8(key).len() <= 0xffff
}

/// Properties whose keys and values can all be written can be written.
pub proof fn lemma_properties_writable(properties: Seq<(Seq<char>, ValueView)>)
    requires
        forall|i: int|
            0 <= i < properties.len() ==> writable_key((#[trigger] properties[i]).0) && emitted(
                properties[i].1,
            ).stopped is None,
    ensures
        emitted_properties(properties).stopped is None,
    decreases properties.len(),
{
    if properties.len() > 0 {
        assert(writable_key(properties[0].0));
        let others = properties.subrange(1, properties.len() as int);
        assert forall|i: int| 0 <= i < others.len() implies writable_key((#[trigger] others[i]).0)
            && emitted(others[i].1).stopped is None by {
            assert(others[i] == properties[i + 1]);
        }
        lemma_properties_writable(others);
    }
}

/// Values that can each be written can be written one after another.
pub proof fn lemma_values_writable(values: Seq<ValueView>)
    requires
        forall|i: int| 0 <= i < values.len() ==> emitted(#[trigger] values[i]).stopped is None,
    ensures
        emitted_all(values).stopped is None,
    decreases values.len(),
{
    if values.len() > 0 {
        assert(emitted(values[0]).stopped is None);
        let others = values.subrange(1, values.len() as int);
        assert forall|i: int| 0 <= i < others.len() implies emitted(
            #[trigger] others[i],
        ).stopped is None by {
            assert(others[i] == values[i + 1]);
        }
        lemma_values_writable(others);
    }
}

/// A string that was read is no longer than the payload it was read from.
pub proof fn lemma_read_strings_fit(s: Seq<u8>, at: int, index: int)
    requires
        0 <= at <= s.len(),
        all_at(s, at) is Ok,
        0 <= index < all_at(s, at)->Ok_0.len(),
    ensures
        all_at(s, at)->Ok_0[index] matches ValueView::String(text) ==> encode_utf8(text).len()
            <= s.len(),
    decreases s.len() - at,
{
    broadcast use vstd::utf8::decode_utf8_encode_utf8;

    let (value, next) = value_at(s, at, 0)->Ok_0;
    lemma_value_ends(s, at, 0);
    if index > 0 {
        lemma_read_strings_fit(s, next, index - 1);
    } else if s[at] == STRING {
        let bytes = s.subrange(at + 3, at + 3 + num16(s, at + 1));
        assert(encode_utf8(decode_utf8(bytes)) == bytes);
    } else if s[at] == LONG_STRING {
        let bytes = s.subrange(at + 5, at + 5 + num32(s, at + 1));
        assert(encode_utf8(decode_utf8(bytes)) == bytes);
    }
}

} // verus!
