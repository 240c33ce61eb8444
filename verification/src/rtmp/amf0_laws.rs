//! AMF0 as whoever writes the other end knows it: which bytes are which value, and
//! what makes two values the same.

use crate::buffer::{
    be16, be64, lemma_num16_amid, lemma_num32_amid, lemma_num64_amid, lemma_widths, num16, num32,
    num64,
};
use crate::rtmp::amf0::{
    all_at, emitted, emitted_all, emitted_properties, first_named, items_at, properties_at, same, same_number,
    value_at, Amf0Error, ValueView,
};
use vstd::prelude::*;
use vstd::utf8::{encode_utf8, encode_utf8_decode_utf8, encode_utf8_valid_utf8};

verus! {

broadcast use lemma_widths;

/// Whether some bytes are a value and nothing else.
pub open spec fn reads_as(s: Seq<u8>, depth: nat, value: ValueView) -> bool {
    value_at(s, 0, depth) == Ok::<_, Amf0Error>((value, s.len() as int))
}

/// The values that hold no other, by their bytes: a number's eight after its
/// marker, a boolean that is true unless its byte is zero, a date's eight and two
/// more for the time zone, which is nothing to anyone, and the two that are a
/// marker alone.
pub proof fn law_plain_values_by_their_bytes(bytes: Seq<u8>, depth: nat)
    ensures
        bytes.len() == 9 && bytes[0] == 0 ==> reads_as(
            bytes,
            depth,
            ValueView::Number(num64(bytes, 1) as u64),
        ),
        bytes.len() == 2 && bytes[0] == 1 ==> reads_as(
            bytes,
            depth,
            ValueView::Boolean(bytes[1] != 0),
        ),
        bytes.len() == 11 && bytes[0] == 11 ==> reads_as(
            bytes,
            depth,
            ValueView::Date(num64(bytes, 1) as u64),
        ),
        bytes.len() == 1 && bytes[0] == 5 ==> reads_as(bytes, depth, ValueView::Null),
        bytes.len() == 1 && bytes[0] == 6 ==> reads_as(bytes, depth, ValueView::Undefined),
{
}

/// A string by its bytes: its length in two bytes after the one marker, or in four
/// after the other, and then the text.
pub proof fn law_strings_by_their_bytes(head: Seq<u8>, text: Seq<char>, depth: nat)
    ensures
        head.len() == 3 && head[0] == 2 && head[1] * 0x100 + head[2] == encode_utf8(text).len()
            ==> reads_as(head + encode_utf8(text), depth, ValueView::String(text)),
        head.len() == 5 && head[0] == 12 && head[1] * 0x100_0000 + head[2] * 0x1_0000 + head[3]
            * 0x100 + head[4] == encode_utf8(text).len() ==> reads_as(
            head + encode_utf8(text),
            depth,
            ValueView::String(text),
        ),
{
    let (bytes, s) = (encode_utf8(text), head + encode_utf8(text));
    encode_utf8_valid_utf8(text);
    encode_utf8_decode_utf8(text);
    assert(forall|i: int| 0 <= i < head.len() ==> s[i] == head[i]);
    assert(s.subrange(head.len() as int, s.len() as int) =~= bytes);
}

/// An object is its properties after its marker, and an array with names is the
/// same after another and a count that says nothing of how many there are.
pub proof fn law_objects_are_their_properties(s: Seq<u8>, depth: nat)
    requires
        s.len() >= 5,
    ensures
        s[0] == 3 ==> value_at(s, 0, depth) == (if depth >= 32 {
            Err(Amf0Error::TooDeep { limit: 32 })
        } else {
            match properties_at(s, 1, depth + 1) {
                Ok((properties, end)) => Ok((ValueView::Object(properties), end)),
                Err(error) => Err(error),
            }
        }),
        s[0] == 8 ==> value_at(s, 0, depth) == (if depth >= 32 {
            Err(Amf0Error::TooDeep { limit: 32 })
        } else {
            match properties_at(s, 5, depth + 1) {
                Ok((properties, end)) => Ok((ValueView::EcmaArray(properties), end)),
                Err(error) => Err(error),
            }
        }),
        s[0] == 10 ==> value_at(s, 0, depth) == (if depth >= 32 {
            Err(Amf0Error::TooDeep { limit: 32 })
        } else {
            match items_at(s, 5, num32(s, 1), depth + 1) {
                Ok((values, end)) => Ok((ValueView::StrictArray(values), end)),
                Err(error) => Err(error),
            }
        }),
{
}

/// Properties are a name, with its length in two bytes in front of it, and a value
/// each, until a name of no length and the marker that ends them; an array's items
/// are as many values as it says.
pub proof fn law_properties_by_their_bytes(s: Seq<u8>, at: int, depth: nat, name: Seq<char>)
    requires
        0 <= at,
        at + 2 <= s.len(),
    ensures
        num16(s, at) == 0 && at + 3 <= s.len() && s[at + 2] == 9 ==> properties_at(s, at, depth)
            == Ok::<_, Amf0Error>((Seq::<(Seq<char>, ValueView)>::empty(), at + 3)),
        ({
            let start = at + 2 + num16(s, at);
            start <= s.len() && num16(s, at) > 0 && s.subrange(at + 2, start) == encode_utf8(name)
                ==> (match value_at(s, start, depth) {
                Ok((value, next)) if at < next <= s.len() => match properties_at(s, next, depth) {
                    Ok((others, end)) => properties_at(s, at, depth) == Ok::<_, Amf0Error>(
                        (seq![(name, value)] + others, end),
                    ),
                    Err(error) => properties_at(s, at, depth) == Err::<
                        (Seq<(Seq<char>, ValueView)>, int),
                        _,
                    >(error),
                },
                Ok(_) => true,
                Err(error) => properties_at(s, at, depth) == Err::<
                    (Seq<(Seq<char>, ValueView)>, int),
                    _,
                >(error),
            })
        }),
        items_at(s, at, 0, depth) == Ok::<_, Amf0Error>((Seq::<ValueView>::empty(), at)),
        forall|count: int|
            count > 0 ==> (#[trigger] items_at(s, at, count, depth) matches Ok((values, _))
                ==> values.len() == count),
{
    encode_utf8_valid_utf8(name);
    encode_utf8_decode_utf8(name);
    assert forall|count: int| count > 0 implies (#[trigger] items_at(s, at, count, depth) matches Ok(
        (values, _),
    ) ==> values.len() == count) by {
        lemma_items_are_counted(s, at, count, depth);
    }
}

proof fn lemma_items_are_counted(s: Seq<u8>, at: int, count: int, depth: nat)
    requires
        0 <= count,
    ensures
        items_at(s, at, count, depth) matches Ok((values, _)) ==> values.len() == count,
    decreases count,
{
    if count > 0 {
        if let Ok((_, next)) = value_at(s, at, depth) {
            if at < next <= s.len() {
                lemma_items_are_counted(s, next, count - 1, depth);
            }
        }
    }
}

/// The markers that begin no value that is read: the one that ends an object, seven
/// that are named for what they would be, and all that are not defined.
pub proof fn law_other_markers_are_refused(s: Seq<u8>, at: int, depth: nat)
    requires
        0 <= at < s.len(),
    ensures
        s[at] == 9 ==> value_at(s, at, depth) == Err::<(ValueView, int), _>(
            Amf0Error::UnexpectedObjectEnd { offset: at as usize },
        ),
        s[at] == 4 || s[at] == 7 || 13 <= s[at] <= 17 ==> (value_at(s, at, depth) matches Err(error)
            && error matches Amf0Error::UnreadType { offset, .. } && offset == at as usize),
        s[at] > 17 ==> value_at(s, at, depth) == Err::<(ValueView, int), _>(
            Amf0Error::UnknownMarker { marker: s[at], offset: at as usize },
        ),
{
}

/// More bytes change nothing of a value that was read.
pub proof fn law_values_end_where_they_end(s: Seq<u8>, more: Seq<u8>, at: int, depth: nat)
    requires
        0 <= at <= s.len(),
        value_at(s, at, depth) is Ok,
    ensures
        value_at(s + more, at, depth) == value_at(s, at, depth),
    decreases s.len() - at, 0nat,
{
    let t = s + more;
    assert(forall|i: int| 0 <= i < s.len() ==> t[i] == s[i]);
    let marker = s[at];
    if marker == 2 {
        let length = num16(s, at + 1);
        assert(t.subrange(at + 3, at + 3 + length) =~= s.subrange(at + 3, at + 3 + length));
    } else if marker == 12 {
        let length = num32(s, at + 1);
        assert(t.subrange(at + 5, at + 5 + length) =~= s.subrange(at + 5, at + 5 + length));
    } else if marker == 3 {
        lemma_properties_end_where_they_end(s, more, at + 1, depth + 1);
    } else if marker == 8 {
        lemma_properties_end_where_they_end(s, more, at + 5, depth + 1);
    } else if marker == 10 {
        assert(num32(t, at + 1) == num32(s, at + 1));
        lemma_items_end_where_they_end(s, more, at + 5, num32(s, at + 1), depth + 1);
    }
}

proof fn lemma_properties_end_where_they_end(s: Seq<u8>, more: Seq<u8>, at: int, depth: nat)
    requires
        0 <= at <= s.len(),
        properties_at(s, at, depth) is Ok,
    ensures
        properties_at(s + more, at, depth) == properties_at(s, at, depth),
    decreases s.len() - at, 1nat,
{
    let t = s + more;
    assert(forall|i: int| 0 <= i < s.len() ==> t[i] == s[i]);
    let length = num16(s, at);
    if length != 0 {
        assert(t.subrange(at + 2, at + 2 + length) =~= s.subrange(at + 2, at + 2 + length));
        law_values_end_where_they_end(s, more, at + 2 + length, depth);
        let next = value_at(s, at + 2 + length, depth)->Ok_0.1;
        if at < next <= s.len() {
            lemma_properties_end_where_they_end(s, more, next, depth);
        }
    }
}

proof fn lemma_items_end_where_they_end(s: Seq<u8>, more: Seq<u8>, at: int, count: int, depth: nat)
    requires
        0 <= at <= s.len(),
        items_at(s, at, count, depth) is Ok,
    ensures
        items_at(s + more, at, count, depth) == items_at(s, at, count, depth),
    decreases s.len() - at, 1nat,
{
    if count > 0 {
        law_values_end_where_they_end(s, more, at, depth);
        let next = value_at(s, at, depth)->Ok_0.1;
        if at < next <= s.len() {
            lemma_items_end_where_they_end(s, more, next, count - 1, depth);
        }
    }
}

/// Values one after another are read as all of them, each from where the last one
/// ended; and no bytes are none.
pub proof fn law_values_follow_one_another(s: Seq<u8>, at: int)
    ensures
        at >= s.len() ==> all_at(s, at) == Ok::<_, Amf0Error>(Seq::<ValueView>::empty()),
        at < s.len() ==> (match value_at(s, at, 0) {
            Ok((value, next)) if at < next <= s.len() => match all_at(s, next) {
                Ok(others) => all_at(s, at) == Ok::<_, Amf0Error>(seq![value] + others),
                Err(error) => all_at(s, at) == Err::<Seq<ValueView>, _>(error),
            },
            Ok(_) => all_at(s, at) is Err,
            Err(error) => all_at(s, at) == Err::<Seq<ValueView>, _>(error),
        }),
{
}

/// The value that an object has under a name is the first that was given it.
pub proof fn law_the_first_of_a_name_counts(
    before: Seq<(Seq<char>, ValueView)>,
    name: Seq<char>,
    value: ValueView,
    after: Seq<(Seq<char>, ValueView)>,
)
    requires
        forall|i: int| 0 <= i < before.len() ==> (#[trigger] before[i]).0 != name,
    ensures
        ValueView::Object(before + seq![(name, value)] + after).get(name) == Some(value),
        ValueView::EcmaArray(before + seq![(name, value)] + after).get(name) == Some(value),
        ValueView::Object(before).get(name) is None,
        ValueView::String(name).get(name) is None,
    decreases before.len(),
{
    lemma_first_named(before, name, value, after);
}

proof fn lemma_first_named(
    before: Seq<(Seq<char>, ValueView)>,
    name: Seq<char>,
    value: ValueView,
    after: Seq<(Seq<char>, ValueView)>,
)
    requires
        forall|i: int| 0 <= i < before.len() ==> (#[trigger] before[i]).0 != name,
    ensures
        first_named(before + seq![(name, value)] + after, name) == Some(value),
        first_named(before, name) is None,
    decreases before.len(),
{
    let all = before + seq![(name, value)] + after;
    if before.len() == 0 {
        assert(all.first() == (name, value));
    } else {
        let rest = before.drop_first();
        assert(all.first() == before[0]);
        assert(all.drop_first() =~= rest + seq![(name, value)] + after);
        assert forall|i: int| 0 <= i < rest.len() implies (#[trigger] rest[i]).0 != name by {
            assert(rest[i] == before[i + 1]);
        }
        lemma_first_named(rest, name, value, after);
    }
}

/// Numbers are the same as doubles are: no number that is not one is the same as
/// any, itself included, both zeros are the same, and otherwise the bits decide.
pub proof fn law_numbers_compare_as_doubles(a: u64, b: u64)
    ensures
        0x7ff0_0000_0000_0000 < a <= 0x7fff_ffff_ffff_ffff || a > 0xfff0_0000_0000_0000
            ==> !same_number(a, b) && !same_number(b, a),
        same_number(0, 0x8000_0000_0000_0000) && same_number(0x8000_0000_0000_0000, 0),
        a <= 0x7ff0_0000_0000_0000 && a != 0 ==> (same_number(a, b) <==> a == b),
        0x8000_0000_0000_0000 < a <= 0xfff0_0000_0000_0000 ==> (same_number(a, b) <==> a == b),
        same_number(a, b) == same_number(b, a),
{
}

/// Values are the same only where they are of one kind and hold the same: texts
/// letter for letter, properties and items one by one and in order.
pub proof fn law_values_compare_by_what_they_hold(a: ValueView, b: ValueView)
    ensures
        same(a, b) ==> (a is Number <==> b is Number) && (a is Boolean <==> b is Boolean) && (
        a is String <==> b is String) && (a is Object <==> b is Object) && (a is EcmaArray
            <==> b is EcmaArray) && (a is StrictArray <==> b is StrictArray) && (a is Date
            <==> b is Date) && (a is Null <==> b is Null),
        a is Null && b is Null ==> same(a, b),
        a is Undefined && b is Undefined ==> same(a, b),
        a is String && b is String ==> (same(a, b) <==> a->String_0 == b->String_0),
        a is Boolean && b is Boolean ==> (same(a, b) <==> a->Boolean_0 == b->Boolean_0),
        a is StrictArray && b is StrictArray ==> (same(a, b) <==> {
            &&& a->StrictArray_0.len() == b->StrictArray_0.len()
            &&& forall|i: int|
                0 <= i < a->StrictArray_0.len() ==> same(
                    #[trigger] a->StrictArray_0[i],
                    b->StrictArray_0[i],
                )
        }),
        a is Object && b is Object ==> (same(a, b) <==> {
            &&& a->Object_0.len() == b->Object_0.len()
            &&& forall|i: int|
                0 <= i < a->Object_0.len() ==> (#[trigger] a->Object_0[i]).0 == b->Object_0[i].0
                    && same(a->Object_0[i].1, b->Object_0[i].1)
        }),
{
}

/// A text is written in the short form where its length can be said in two bytes,
/// and in the long one otherwise; and a name that is empty or longer is not written.
pub proof fn law_texts_take_the_shorter_form(text: Seq<char>, value: ValueView)
    requires
        encode_utf8(text).len() <= 0xffff_ffff,
    ensures
        ({
            let (length, written) = (encode_utf8(text).len(), emitted(ValueView::String(text)));
            &&& written.stopped is None
            &&& length <= 0xffff ==> written.bytes.len() == 3 + length && written.bytes[0] == 2
            &&& length > 0xffff ==> written.bytes.len() == 5 + length && written.bytes[0] == 12
            &&& length == 0 || length > 0xffff ==> emitted_properties(
                seq![(text, value)],
            ).stopped == Some(Amf0Error::UnwritableKey { length: length as usize })
        }),
{
}

/// Arrays are written with how many they hold, and dates with a time zone of zero.
pub proof fn law_counts_are_written(
    properties: Seq<(Seq<char>, ValueView)>,
    values: Seq<ValueView>,
    bits: u64,
)
    requires
        properties.len() <= 0xffff_ffff,
        values.len() <= 0xffff_ffff,
    ensures
        ({
            let named = emitted(ValueView::EcmaArray(properties)).bytes;
            let items = emitted(ValueView::StrictArray(values)).bytes;
            let date = emitted(ValueView::Date(bits)).bytes;
            &&& named[0] == 8 && num32(named, 1) == properties.len()
            &&& items[0] == 10 && num32(items, 1) == values.len()
            &&& date.len() == 11 && date[0] == 11 && date[9] == 0 && date[10] == 0
            &&& num64(date, 1) == bits
        }),
{
    let (p, v) = (properties.len() as int, values.len() as int);
    let (named, items) = (emitted_properties(properties).bytes, emitted_all(values).bytes);
    lemma_num32_amid(seq![8u8], p, named);
    lemma_num32_amid(seq![10u8], v, items);
    lemma_num64_amid(seq![11u8], bits as int, be16(0));
    lemma_num16_amid(seq![11u8] + be64(bits as int), 0, Seq::empty());
    let date = emitted(ValueView::Date(bits)).bytes;
    assert(seq![11u8] + be64(bits as int) + be16(0) + Seq::<u8>::empty() =~= date);
}

} // verus!
