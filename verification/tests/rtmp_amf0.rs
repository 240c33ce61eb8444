use bytes::BytesMut;
use relaybay::rtmp::amf0;
use relaybay::rtmp::amf0::{read_all, write_all, Amf0Error, Value, MAX_DEPTH};

fn string(text: &str) -> Value {
    Value::String(text.to_owned())
}

fn number(value: f64) -> Value {
    Value::Number(value.to_bits())
}

fn date(value: f64) -> Value {
    Value::Date(value.to_bits())
}

fn as_f64(value: &Value) -> Option<f64> {
    value.as_bits().map(f64::from_bits)
}

fn object(properties: Vec<(&str, Value)>) -> Value {
    Value::Object(
        properties
            .into_iter()
            .map(|(key, value)| (key.to_owned(), value))
            .collect(),
    )
}

fn round_trip(values: &[Value]) -> Vec<Value> {
    let mut out = BytesMut::new();
    write_all(&mut out, values).expect("writable");
    read_all(&out).expect("readable")
}

#[test]
fn every_value_round_trips() {
    let values = vec![
        number(1.0),
        number(-0.5),
        Value::Boolean(true),
        Value::Boolean(false),
        string("connect"),
        string(""),
        Value::Null,
        Value::Undefined,
        date(1_700_000_000_000.0),
        Value::StrictArray(vec![number(1.0), string("two")]),
        Value::EcmaArray(vec![("duration".to_owned(), number(0.0))]),
        object(vec![
            ("app", string("live")),
            ("audioCodecs", number(4071.0)),
            ("nested", object(vec![("deep", Value::Boolean(true))])),
        ]),
    ];
    assert_eq!(round_trip(&values), values);
}

#[test]
fn an_object_with_no_properties_round_trips() {
    let values = vec![object(vec![]), Value::EcmaArray(Vec::new())];
    assert_eq!(round_trip(&values), values);
}

#[test]
fn properties_keep_the_order_they_were_written_in() {
    let value = object(vec![
        ("z", number(1.0)),
        ("a", number(2.0)),
        ("m", number(3.0)),
    ]);
    let read = round_trip(&[value]);
    let keys: Vec<_> = read[0]
        .properties()
        .expect("an object")
        .iter()
        .map(|(key, _)| key.as_str())
        .collect();
    assert_eq!(keys, ["z", "a", "m"]);
}

/// Bytes written by hand rather than by [`write`], so that the reader is
/// checked against the encoding and not against this module's own idea
/// of it.
#[test]
fn a_connect_command_reads_as_the_values_it_is_made_of() {
    let payload = [
        // "connect"
        &[0x02, 0x00, 0x07][..],
        b"connect",
        // 1.0
        &[0x00, 0x3f, 0xf0, 0x00, 0x00, 0x00, 0x00, 0x00, 0x00],
        // { app: "live", fpad: false }
        &[0x03],
        &[0x00, 0x03],
        b"app",
        &[0x02, 0x00, 0x04],
        b"live",
        &[0x00, 0x04],
        b"fpad",
        &[0x01, 0x00],
        &[0x00, 0x00, 0x09],
    ]
    .concat();

    let values = read_all(&payload).expect("a well-formed command");
    assert_eq!(values[0].as_str(), Some("connect"));
    assert_eq!(as_f64(&values[1]), Some(1.0));
    assert_eq!(values[2].get("app").and_then(Value::as_str), Some("live"));
    assert_eq!(values[2].get("fpad").and_then(Value::as_bool), Some(false));
    assert_eq!(values[2].get("absent"), None);
    assert_eq!(values.len(), 3);
}

#[test]
fn an_ecma_array_ends_where_its_terminator_is_and_not_where_its_count_says() {
    // A count of 99 with two properties in it, which is what an encoder
    // that writes the count wrongly, or as zero, produces.
    let payload = [
        &[0x08, 0x00, 0x00, 0x00, 0x63][..],
        &[0x00, 0x08],
        b"duration",
        &[0x00, 0x40, 0x24, 0x00, 0x00, 0x00, 0x00, 0x00, 0x00],
        &[0x00, 0x05],
        b"width",
        &[0x00, 0x40, 0x94, 0x00, 0x00, 0x00, 0x00, 0x00, 0x00],
        &[0x00, 0x00, 0x09],
        // A value after the array, which is only reached if the array
        // stopped at its terminator.
        &[0x05],
    ]
    .concat();

    let values = read_all(&payload).expect("a well-formed array");
    assert_eq!(values.len(), 2);
    assert_eq!(
        values[0].get("duration").and_then(as_f64),
        Some(10.0)
    );
    assert_eq!(values[0].get("width").and_then(as_f64), Some(1280.0));
    assert_eq!(values[1], Value::Null);
}

#[test]
fn a_string_too_long_for_a_two_byte_count_is_written_long_and_read_back() {
    let long = "x".repeat(usize::from(u16::MAX) + 1);
    let mut out = BytesMut::new();
    relaybay::rtmp::amf0::write(&mut out, &string(&long)).unwrap();
    assert_eq!(out[0], amf0::LONG_STRING);
    assert_eq!(read_all(&out).unwrap(), vec![string(&long)]);
}

#[test]
fn a_strict_array_that_promises_more_than_it_sends_is_refused() {
    // Four bytes claiming four billion members, and nothing after them.
    let payload = [0x0a, 0xff, 0xff, 0xff, 0xff];
    assert_eq!(
        read_all(&payload),
        Err(Amf0Error::Truncated {
            offset: 5,
            needed: 1
        })
    );
}

#[test]
fn a_value_cut_short_is_refused_at_the_field_that_is_wrong() {
    // A number needs eight bytes and three are here.
    assert_eq!(
        read_all(&[0x00, 0x3f, 0xf0, 0x00]),
        Err(Amf0Error::Truncated {
            offset: 1,
            needed: 5
        })
    );
    // A string that says seven bytes and carries four.
    assert_eq!(
        read_all(&[0x02, 0x00, 0x07, b'c', b'o', b'n', b'n']),
        Err(Amf0Error::Truncated {
            offset: 3,
            needed: 3
        })
    );
}

#[test]
fn an_object_that_never_closes_is_refused() {
    let payload = [&[0x03, 0x00, 0x03][..], b"app", &[0x05]].concat();
    assert!(matches!(
        read_all(&payload),
        Err(Amf0Error::Truncated { .. })
    ));
}

#[test]
fn an_unknown_marker_is_refused() {
    assert_eq!(
        read_all(&[0x05, 0x2a]),
        Err(Amf0Error::UnknownMarker {
            marker: 0x2a,
            offset: 1
        })
    );
}

#[test]
fn a_type_this_does_not_read_says_which_it_was() {
    assert_eq!(
        read_all(&[amf0::AVM_PLUS]),
        Err(Amf0Error::UnreadType {
            name: "a switch to AMF3",
            offset: 0
        })
    );
    assert_eq!(
        read_all(&[amf0::TYPED_OBJECT]),
        Err(Amf0Error::UnreadType {
            name: "a typed object",
            offset: 0
        })
    );
}

#[test]
fn a_terminator_with_no_object_open_is_refused() {
    assert_eq!(
        read_all(&[amf0::OBJECT_END]),
        Err(Amf0Error::UnexpectedObjectEnd { offset: 0 })
    );
}

#[test]
fn a_string_that_is_not_utf8_is_refused() {
    assert_eq!(
        read_all(&[0x02, 0x00, 0x02, 0xff, 0xfe]),
        Err(Amf0Error::NotUtf8 { offset: 3 })
    );
}

#[test]
fn values_nested_past_the_limit_are_refused() {
    // An object holding one property named "k" whose value is another,
    // per level, and nothing that closes any of them: the depth is
    // reached before the truncation is.
    let payload = [amf0::OBJECT, 0x00, 0x01, b'k'].repeat(MAX_DEPTH + 1);
    assert_eq!(
        read_all(&payload),
        Err(Amf0Error::TooDeep { limit: MAX_DEPTH })
    );
}

#[test]
fn nesting_up_to_the_limit_is_read() {
    let nested = || {
        let mut value = Value::Null;
        for _ in 0..MAX_DEPTH {
            value = Value::Object(vec![("k".to_owned(), value)]);
        }
        value
    };
    assert_eq!(round_trip(&[nested()]), vec![nested()]);
}

#[test]
fn a_key_that_would_read_back_as_a_terminator_is_refused() {
    let value = Value::Object(vec![(String::new(), Value::Null)]);
    let mut out = BytesMut::new();
    assert_eq!(
        relaybay::rtmp::amf0::write(&mut out, &value),
        Err(Amf0Error::UnwritableKey { length: 0 })
    );
}

#[test]
fn an_empty_payload_holds_no_values() {
    assert_eq!(read_all(&[]), Ok(Vec::new()));
}
