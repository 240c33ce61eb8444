use std::collections::HashSet;
use std::sync::Arc;

use bytes::{Bytes, BytesMut};
use relaybay::codec::aac::{self, AacError};
use relaybay::codec::h264::{self, H264Error};
use relaybay::rtmp::amf0::{self, Amf0Error, Value};
use relaybay::rtmp::chunk::{Message, MessageType};
use relaybay::rtmp::flv::{self, FlvError, VideoTag};
use relaybay::rtmp::session::{Action, Session, SessionError};
use relaybay::rtsp::message::{read, RtspError, MAX_HEAD};
use relaybay::rtsp::message::{Headers, Method, Request};
use relaybay::rtsp::session;
use relaybay::rtsp::session::{path_of, split_track};
use relaybay::time::MediaTime;
use relaybay::track::{Codec, Description, DescriptionError, MAX_TRACKS};

fn message(kind: MessageType, payload: &[u8]) -> Message {
    Message {
        timestamp: 0,
        kind,
        stream_id: 1,
        payload: Bytes::copy_from_slice(payload),
    }
}

/// A session that `publish` has been accepted on.
fn publishing() -> Session {
    let mut session = Session::new();
    for values in [
        vec![
            Value::String("connect".to_owned()),
            Value::Number(1.0f64.to_bits()),
            Value::Object(vec![("app".to_owned(), Value::String("live".to_owned()))]),
        ],
        vec![
            Value::String("publish".to_owned()),
            Value::Number(2.0f64.to_bits()),
            Value::Null,
            Value::String("cam1".to_owned()),
        ],
    ] {
        let mut payload = BytesMut::new();
        amf0::write_all(&mut payload, &values).unwrap();
        session
            .handle(message(MessageType::Amf0Command, &payload))
            .unwrap();
    }
    session
}

#[test]
fn more_tracks_than_an_index_can_name_are_refused() {
    let record = aac::Parameters::parse(Bytes::from_static(&[0x12, 0x10])).unwrap();
    let codecs = vec![Codec::Aac(record); MAX_TRACKS + 1];
    assert_eq!(
        Description::new(codecs[..MAX_TRACKS].to_vec())
            .unwrap()
            .tracks()
            .len(),
        MAX_TRACKS
    );
    assert_eq!(
        Description::new(codecs),
        Err(DescriptionError::TooManyTracks { limit: MAX_TRACKS })
    );
}

#[test]
fn a_unit_of_no_length_is_refused() {
    assert_eq!(
        h264::split_length_prefixed(&Bytes::from_static(&[0, 1, 0x65, 0, 0]), 2),
        Err(H264Error::EmptyNalUnit { offset: 5 })
    );
}

#[test]
fn a_session_says_which_layer_refused() {
    let mut session = publishing();
    assert_eq!(
        session.handle(message(MessageType::Amf0Command, &[0x02, 0, 5])),
        Err(SessionError::Amf0(Amf0Error::Truncated {
            offset: 3,
            needed: 5
        }))
    );
    assert_eq!(
        session.handle(message(MessageType::Amf0Command, &[0x05])),
        Err(SessionError::Nameless)
    );
    assert_eq!(
        session.handle(message(MessageType::Amf0Command, &[])),
        Err(SessionError::Nameless)
    );
    assert_eq!(
        session.handle(message(MessageType::Video, &[0x12])),
        Err(SessionError::Flv(FlvError::UnreadVideoCodec(2)))
    );
    assert_eq!(
        session.handle(message(MessageType::Video, &[0x17, 0, 0, 0, 0, 9])),
        Err(SessionError::H264(H264Error::UnsupportedConfigVersion(9)))
    );
    assert!(matches!(
        session.handle(message(MessageType::Audio, &[0xaf, 0, 0x12])),
        Err(SessionError::Aac(AacError::Truncated { .. }))
    ));
    // None of which was the end of it.
    assert_eq!(session.path(), Some("live/cam1"));
}

#[test]
fn a_tag_too_short_for_its_header_is_refused() {
    for (bytes, offset) in [(&[0x17, 0, 0][..], 3), (&[0x17, 1, 0, 0][..], 4)] {
        assert_eq!(
            flv::read_video(&Bytes::copy_from_slice(bytes)),
            Err(FlvError::Truncated {
                offset,
                needed: 5 - offset
            })
        );
    }
    assert_eq!(
        flv::read_video(&Bytes::from_static(&[0x17, 2])),
        Ok(VideoTag::End)
    );
}

#[test]
fn a_content_length_that_is_no_number_is_refused() {
    for value in ["many", "-1", "1 2", "99999999999999999999999"] {
        let text = format!("OPTIONS * RTSP/1.0\r\nContent-Length: {value}\r\n\r\n");
        assert_eq!(
            read(&mut BytesMut::from(text.as_bytes())),
            Err(RtspError::MalformedContentLength(value.to_owned())),
            "{value}"
        );
    }
    // A sign in front of one is still a number.
    let mut buf = BytesMut::from(&b"OPTIONS * RTSP/1.0\r\nContent-Length: +2\r\n\r\nhi"[..]);
    assert!(read(&mut buf).unwrap().is_some());
    assert!(buf.is_empty());
}

#[test]
fn a_head_too_long_is_refused_though_it_ends() {
    let mut text = String::from("OPTIONS * RTSP/1.0\r\nX: ");
    text.push_str(&"a".repeat(MAX_HEAD));
    text.push_str("\r\n\r\n");
    assert!(matches!(
        read(&mut BytesMut::from(text.as_bytes())),
        Err(RtspError::TooLong { limit: MAX_HEAD, .. })
    ));
}

#[test]
fn a_head_that_is_not_text_is_refused() {
    let mut buf = BytesMut::from(&b"OPTIONS * RTSP/1.0\r\nX: \xff\r\n\r\n"[..]);
    assert_eq!(read(&mut buf), Err(RtspError::NotRtsp));
}

#[test]
fn a_query_is_no_part_of_a_path() {
    assert_eq!(path_of("rtsp://h:8554/live/cam1?token=x"), path_of("rtsp://h/live/cam1"));
    assert_eq!(path_of("rtsp://h/live/cam1/"), "live/cam1");
    assert_eq!(split_track("live/cam1/trackID=1"), ("live/cam1".to_owned(), Some(1)));
}

#[test]
fn text_outside_ascii_reads_back_whole() {
    let values = vec![Value::String("días — 映像".to_owned()), Value::Boolean(true)];
    let mut out = BytesMut::new();
    amf0::write_all(&mut out, &values).unwrap();
    assert_eq!(amf0::read_all(&out).unwrap(), values);
}

#[test]
fn a_moment_is_counted_in_nanoseconds_and_never_before_the_start() {
    assert_eq!(MediaTime::zero().as_nanos(), 0);
    assert_eq!(MediaTime::from_secs(2), MediaTime::from_millis(2000));
    assert_eq!(
        MediaTime::from_secs(1).plus(MediaTime::from_millis(5)).as_nanos(),
        1_005_000_000
    );
    assert_eq!(
        MediaTime::from_millis(5).saturating_sub(MediaTime::from_secs(1)),
        MediaTime::zero()
    );
    assert_eq!(
        MediaTime::from_secs(1).saturating_sub(MediaTime::from_millis(1)),
        MediaTime::from_millis(999)
    );
}

/// A command of a publisher.
fn command(name: &str, rest: Vec<Value>) -> Message {
    let mut values = vec![Value::String(name.to_owned()), Value::Number(0)];
    values.extend(rest);
    let mut payload = BytesMut::new();
    amf0::write_all(&mut payload, &values).unwrap();
    message(MessageType::Amf0Command, &payload)
}

const VIDEO_HEADER: &[u8] = &[
    0x17, 0, 0, 0, 0, 1, 0x42, 0xc0, 0x1e, 0xff, 0xe1, 0, 4, 0x67, 0x42, 0xc0, 0x1e, 1, 0, 2, 0x68,
    0xce,
];
const PICTURE: &[u8] = &[0x17, 1, 0, 0, 0, 0, 0, 0, 2, 0x65, 0x88];
const AUDIO_HEADER: &[u8] = &[0xaf, 0, 0x12, 0x10];
const SOUND: &[u8] = &[0xaf, 1, 0x21];

#[test]
fn a_frame_before_its_own_sequence_header_is_refused_and_settles_nothing() {
    let mut session = publishing();
    session
        .handle(message(MessageType::Audio, AUDIO_HEADER))
        .unwrap();
    assert_eq!(
        session.handle(message(MessageType::Video, PICTURE)),
        Err(SessionError::NoParameters("video"))
    );
    session
        .handle(message(MessageType::Video, VIDEO_HEADER))
        .unwrap();
    let actions = session
        .handle(message(MessageType::Video, PICTURE))
        .unwrap();
    assert!(
        matches!(&actions[0], Action::Publish { description, .. } if description.tracks().len() == 2)
    );

    let mut session = publishing();
    session
        .handle(message(MessageType::Video, VIDEO_HEADER))
        .unwrap();
    assert_eq!(
        session.handle(message(MessageType::Audio, SOUND)),
        Err(SessionError::NoParameters("audio"))
    );
    assert_eq!(
        session
            .handle(message(MessageType::Video, PICTURE))
            .unwrap()
            .len(),
        2
    );
    // Once the description has settled without it, it is a different stream.
    assert_eq!(
        session.handle(message(MessageType::Audio, SOUND)),
        Err(SessionError::ParametersChanged("audio"))
    );
}

#[test]
fn publishing_again_is_announced_again() {
    let mut session = publishing();
    session
        .handle(message(MessageType::Video, VIDEO_HEADER))
        .unwrap();
    let first = session
        .handle(message(MessageType::Video, PICTURE))
        .unwrap();
    assert!(matches!(&first[0], Action::Publish { path, .. } if path == "live/cam1"));
    assert_eq!(
        session.handle(command("deleteStream", vec![])).unwrap(),
        vec![Action::Unpublish]
    );
    let again = vec![Value::Null, Value::String("cam2".to_owned())];
    session.handle(command("publish", again.clone())).unwrap();
    let second = session
        .handle(message(MessageType::Video, PICTURE))
        .unwrap();
    assert_eq!(second.len(), 2);
    assert!(matches!(&second[0], Action::Publish { path, .. } if path == "live/cam2"));
    assert!(matches!(&second[1], Action::Unit(_)));
    // And once only.
    let third = session
        .handle(message(MessageType::Video, PICTURE))
        .unwrap();
    assert_eq!(third.len(), 1);
    // Without taking the path back first, too.
    session.handle(command("publish", again)).unwrap();
    let fourth = session
        .handle(message(MessageType::Video, PICTURE))
        .unwrap();
    assert!(matches!(&fourth[0], Action::Publish { path, .. } if path == "live/cam2"));
}

#[test]
fn a_three_byte_length_prefix_is_refused() {
    for (byte, expected) in [
        (0xfc, Ok(1)),
        (0xfd, Ok(2)),
        (0xfe, Err(H264Error::UnsupportedLengthSize(3))),
        (0xff, Ok(4)),
    ] {
        let mut record = VIDEO_HEADER[5..].to_vec();
        record[4] = byte;
        assert_eq!(
            h264::AvcConfig::parse(&Bytes::from(record)).map(|config| config.nal_length_size),
            expected
        );
    }
}

#[test]
fn a_payload_that_splits_is_written_back_as_it_was() {
    for (size, payload) in [
        (1, &[1, 0x65, 2, 0x41, 9][..]),
        (2, &[0, 2, 0x65, 1][..]),
        (4, &[0, 0, 0, 1, 0x41][..]),
    ] {
        let data = Bytes::copy_from_slice(payload);
        let nalus = h264::split_length_prefixed(&data, size).unwrap();
        assert_eq!(h264::to_length_prefixed(&nalus, size).unwrap(), data);
    }
}

#[test]
fn a_length_can_look_like_a_start_code() {
    let one = h264::Nal::new(Bytes::from_static(&[0x41])).unwrap();
    let some = h264::Nal::new(Bytes::from(vec![0x41; 300])).unwrap();
    let more = h264::Nal::new(Bytes::from(vec![0x41; 512])).unwrap();
    for (nal, looks) in [(one, true), (some, true), (more, false)] {
        let data = h264::to_length_prefixed(&[nal], 4).unwrap();
        assert_eq!(h264::starts_with_start_code(&data), looks);
    }
}

#[test]
fn a_request_line_with_a_word_too_many_is_refused() {
    let mut buf = BytesMut::from(&b"OPTIONS * RTSP/1.0 extra\r\nCSeq: 1\r\n\r\n"[..]);
    let before = buf.clone();
    assert_eq!(
        read(&mut buf),
        Err(RtspError::MalformedRequestLine(
            "OPTIONS * RTSP/1.0 extra".to_owned()
        ))
    );
    assert_eq!(buf, before);
}

#[test]
fn a_head_cut_in_its_blank_line_waits_for_the_rest() {
    let line = "OPTIONS * RTSP/1.0\r\nX: ";
    let mut text = String::from(line);
    text.push_str(&"a".repeat(MAX_HEAD - line.len()));
    assert_eq!(text.len(), MAX_HEAD);
    text.push_str("\r\n\r\n");
    for cut in [MAX_HEAD, MAX_HEAD + 1, MAX_HEAD + 2, MAX_HEAD + 3] {
        let mut buf = BytesMut::from(&text.as_bytes()[..cut]);
        assert_eq!(read(&mut buf), Ok(None));
        buf.extend_from_slice(&text.as_bytes()[cut..]);
        assert!(read(&mut buf).unwrap().is_some());
        assert!(buf.is_empty());
    }
    // One byte more is a head that is too long, wherever it ends.
    let mut longer = BytesMut::from(text.replace("X: ", "X: a").as_bytes());
    assert!(matches!(
        read(&mut longer),
        Err(RtspError::TooLong { limit: MAX_HEAD, .. })
    ));
    longer.truncate(MAX_HEAD + 4);
    assert!(matches!(
        read(&mut longer),
        Err(RtspError::TooLong { limit: MAX_HEAD, .. })
    ));
}

#[test]
fn a_head_past_the_limit_is_refused_as_soon_as_it_cannot_end() {
    for length in [MAX_HEAD - 1, MAX_HEAD] {
        let mut buf = BytesMut::from("x".repeat(length).as_bytes());
        assert_eq!(read(&mut buf), Ok(None));
    }
    for length in MAX_HEAD + 1..MAX_HEAD + 6 {
        let mut buf = BytesMut::from("x".repeat(length).as_bytes());
        assert_eq!(
            read(&mut buf),
            Err(RtspError::TooLong {
                part: "request head",
                limit: MAX_HEAD
            })
        );
    }
    // A head that is shorter may have the end of its blank line past the limit.
    for end in MAX_HEAD - 4..=MAX_HEAD {
        for begun in 0..4 {
            let text = "x".repeat(end) + &"\r\n\r\n"[..begun];
            assert_eq!(read(&mut BytesMut::from(text.as_bytes())), Ok(None));
        }
    }
    let text = "x".repeat(MAX_HEAD + 1) + "\r\n";
    assert!(read(&mut BytesMut::from(text.as_bytes())).is_err());
}

#[test]
fn numbers_are_equal_as_doubles_are() {
    let number = |value: f64| Value::Number(value.to_bits());
    let date = |value: f64| Value::Date(value.to_bits());
    let some = [
        0.0,
        -0.0,
        1.0,
        -1.0,
        f64::MIN_POSITIVE,
        f64::INFINITY,
        f64::NEG_INFINITY,
        f64::NAN,
        -f64::NAN,
        f64::MAX,
    ];
    for a in some {
        for b in some {
            assert_eq!(number(a) == number(b), a == b, "{a} {b}");
            assert_eq!(date(a) == date(b), a == b, "{a} {b}");
            let (x, y) = (number(a), number(b));
            assert_eq!(
                Value::StrictArray(vec![Value::Null, x.clone()])
                    == Value::StrictArray(vec![Value::Null, y.clone()]),
                a == b
            );
            let key = || "k".to_owned();
            assert_eq!(
                Value::Object(vec![(key(), x)]) == Value::Object(vec![(key(), y)]),
                a == b
            );
        }
    }
    assert_ne!(number(1.0), date(1.0));
    assert_ne!(Value::Object(vec![]), Value::EcmaArray(vec![]));
    assert_ne!(Value::StrictArray(vec![]), Value::StrictArray(vec![Value::Null]));
}

#[test]
fn a_payload_of_no_units_needs_no_prefix() {
    assert_eq!(h264::to_length_prefixed(&[], 100), Ok(Bytes::new()));
}

#[test]
fn an_annex_b_stream_opens_with_the_start_code() {
    let nal = h264::Nal::new(Bytes::from_static(&[0x65, 1])).unwrap();
    let stream = h264::to_annex_b(&[nal]);
    assert_eq!(&stream[..4], &h264::START_CODE);
    assert_eq!(&stream[4..], &[0x65, 1]);
}

fn request(method: Method, uri: &str, transport: &str) -> Request {
    Request {
        method,
        uri: uri.to_owned(),
        headers: Headers::new()
            .with("CSeq", "1")
            .with("Transport", transport),
        body: Bytes::new(),
    }
}

#[test]
fn describing_another_path_does_not_move_a_session() {
    let record = aac::Parameters::parse(Bytes::from_static(&[0x12, 0x10])).unwrap();
    let known = Arc::new(Description::new(vec![Codec::Aac(record)]).unwrap());
    let mut session = session::Session::new(0);
    let tcp = "RTP/AVP/TCP;unicast;interleaved=0-1";
    for (method, uri, status) in [
        (Method::Setup, "rtsp://h/live/cam1/trackID=0", 200),
        (Method::Describe, "rtsp://h/live/other", 404),
        (Method::Describe, "rtsp://h/live/cam1", 200),
        (Method::Setup, "rtsp://h/live/other/trackID=0", 404),
    ] {
        let actions = session.handle(&request(method, uri, tcp), |_| Some(Arc::clone(&known)));
        let session::Action::Respond(response) = &actions[0] else {
            panic!("an answer")
        };
        assert_eq!(response.status.0, status, "{uri}");
        assert_eq!(session.path(), Some("live/cam1"));
    }
    let actions = session.handle(&request(Method::Play, "rtsp://h/live/cam1", ""), |_| None);
    assert!(
        matches!(&actions[1], session::Action::Play { path, tracks } if path == "live/cam1" && tracks.len() == 1)
    );
}

#[test]
fn no_two_of_many_sessions_share_an_id() {
    let mut ids = HashSet::new();
    for number in (0..5000).chain([u64::from(u32::MAX), 1 << 31, 0xffff, 0x1_0000]) {
        let session = session::Session::new(number);
        assert_eq!(session.id().len(), 8);
        assert!(session
            .id()
            .chars()
            .all(|c| c.is_ascii_digit() || ('a'..='f').contains(&c)));
        assert_eq!(session.path(), None);
        ids.insert(session.id().to_owned());
    }
    assert_eq!(ids.len(), 5004);
}

#[test]
fn values_nest_as_deeply_as_the_limit_and_no_deeper() {
    let nested = |depth: usize| {
        let mut value = Value::Null;
        for level in 0..depth {
            value = match level % 3 {
                0 => Value::Object(vec![("k".to_owned(), value)]),
                1 => Value::StrictArray(vec![Value::Boolean(true), value]),
                _ => Value::EcmaArray(vec![("k".to_owned(), value)]),
            };
        }
        value
    };
    let values = vec![Value::Undefined, nested(amf0::MAX_DEPTH)];
    let mut out = BytesMut::new();
    amf0::write_all(&mut out, &values).unwrap();
    assert_eq!(amf0::read_all(&out), Ok(values));

    let mut out = BytesMut::new();
    amf0::write_all(&mut out, &[nested(amf0::MAX_DEPTH + 1)]).unwrap();
    assert_eq!(
        amf0::read_all(&out),
        Err(Amf0Error::TooDeep {
            limit: amf0::MAX_DEPTH
        })
    );
    // A copy is the same, all the way down.
    assert_eq!(nested(40).clone(), nested(40));
}

#[test]
fn a_copy_is_the_same() {
    let tag = VideoTag::Picture {
        keyframe: true,
        composition_time: -3,
        data: Bytes::from_static(&[1, 2]),
    };
    assert_eq!(tag.clone(), tag);
    let sound = flv::AudioTag::Frame(Bytes::from_static(&[7]));
    assert_eq!(sound.clone(), sound);
    let step = relaybay::rtmp::handshake::Step::Send(Bytes::from_static(&[3]));
    assert_eq!(step.clone(), step);
    let mut session = publishing();
    session
        .handle(message(MessageType::Video, VIDEO_HEADER))
        .unwrap();
    let actions = session
        .handle(message(MessageType::Video, PICTURE))
        .unwrap();
    assert_eq!(actions.clone(), actions);
}
