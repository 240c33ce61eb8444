use bytes::{BufMut, Bytes, BytesMut};
use relaybay::codec::h264;
use relaybay::rtmp::amf0::{self, Value};
use relaybay::rtmp::chunk::{ChunkStreamId, Message, MessageType};
use relaybay::rtmp::flv::{self, AudioTag, VideoTag};
use relaybay::rtmp::session::{Action, Session, SessionError, PUBLISH_STREAM, WINDOW_SIZE};
use relaybay::time::MediaTime;
use relaybay::track::Kind as TrackKind;
use relaybay::unit::{AudioPayload, Unit, VideoPayload};

/// An `AVCDecoderConfigurationRecord` with four-byte length prefixes.
fn avc_record() -> Bytes {
    let config = h264::AvcConfig {
        parameters: h264::Parameters {
            sps: vec![
                h264::Nal::new(Bytes::from_static(&[
                    0x67, 0x42, 0xc0, 0x1e, 0xd9, 0x00, 0x80,
                ]))
                .unwrap(),
            ],
            pps: vec![h264::Nal::new(Bytes::from_static(&[0x68, 0xce, 0x3c, 0x80])).unwrap()],
        },
        nal_length_size: 4,
    };
    config.to_bytes().unwrap()
}

fn as_f64(value: &Value) -> Option<f64> {
    value.as_bits().map(f64::from_bits)
}

fn command(name: &str, transaction: f64, rest: Vec<Value>) -> Message {
    let mut values = vec![
        Value::String(name.to_owned()),
        Value::Number(transaction.to_bits()),
    ];
    values.extend(rest);
    let mut payload = BytesMut::new();
    amf0::write_all(&mut payload, &values).unwrap();
    Message {
        timestamp: 0,
        kind: MessageType::Amf0Command,
        stream_id: 0,
        payload: payload.freeze(),
    }
}

fn connect(app: &str) -> Message {
    command(
        "connect",
        1.0,
        vec![Value::Object(vec![(
            "app".to_owned(),
            Value::String(app.to_owned()),
        )])],
    )
}

fn publish(key: &str) -> Message {
    command(
        "publish",
        4.0,
        vec![
            Value::Null,
            Value::String(key.to_owned()),
            Value::String("live".to_owned()),
        ],
    )
}

fn media(kind: MessageType, timestamp: u32, payload: Bytes) -> Message {
    Message {
        timestamp,
        kind,
        stream_id: PUBLISH_STREAM,
        payload,
    }
}

fn video_header() -> Message {
    media(
        MessageType::Video,
        0,
        flv::write_video(&VideoTag::SequenceHeader(avc_record())).unwrap(),
    )
}

fn audio_header() -> Message {
    media(
        MessageType::Audio,
        0,
        flv::write_audio(&AudioTag::SequenceHeader(Bytes::from_static(&[0x12, 0x10]))),
    )
}

/// One access unit of length-prefixed NAL units: an IDR.
fn picture(timestamp: u32, composition_time: i32) -> Message {
    let mut data = BytesMut::new();
    data.put_u32(2);
    data.put_slice(&[0x65, 0x88]);
    media(
        MessageType::Video,
        timestamp,
        flv::write_video(&VideoTag::Picture {
            keyframe: true,
            composition_time,
            data: data.freeze(),
        })
        .unwrap(),
    )
}

fn frame(timestamp: u32) -> Message {
    media(
        MessageType::Audio,
        timestamp,
        flv::write_audio(&AudioTag::Frame(Bytes::from_static(&[0x21, 0x00]))),
    )
}

/// Runs a session up to and including `publish`, discarding the replies.
fn publishing() -> Session {
    let mut session = Session::new();
    session.handle(connect("live")).unwrap();
    session.handle(command("createStream", 2.0, vec![])).unwrap();
    session.handle(publish("cam1")).unwrap();
    session
}

fn only_unit(actions: Vec<Action>) -> Unit {
    let [Action::Unit(unit)] = <[Action; 1]>::try_from(actions).expect("one action") else {
        panic!("a unit");
    };
    *unit
}

#[test]
fn connect_is_answered_with_the_four_things_a_client_waits_for() {
    let mut session = Session::new();
    let actions = session.handle(connect("live")).unwrap();

    let kinds: Vec<_> = actions
        .iter()
        .filter_map(|action| match action {
            Action::Send { message, .. } => Some(message.kind),
            _ => None,
        })
        .collect();
    assert_eq!(
        kinds,
        [
            MessageType::WindowAckSize,
            MessageType::SetPeerBandwidth,
            MessageType::SetChunkSize,
            MessageType::Amf0Command,
        ]
    );

    // The chunk size takes effect after the message announcing it, or
    // the peer reads the announcement itself at the wrong size.
    let announced = actions
        .iter()
        .position(|action| matches!(action, Action::Send { message, .. } if message.kind == MessageType::SetChunkSize));
    let applied = actions
        .iter()
        .position(|action| matches!(action, Action::SetChunkSize(_)));
    assert!(announced < applied);
}

#[test]
fn the_result_carries_the_transaction_it_answers_and_says_it_succeeded() {
    let mut session = Session::new();
    let actions = session.handle(connect("live")).unwrap();
    let Some(Action::Send { message, .. }) = actions.last() else {
        panic!("a reply")
    };
    let values = amf0::read_all(&message.payload).unwrap();
    assert_eq!(values[0].as_str(), Some("_result"));
    assert_eq!(as_f64(&values[1]), Some(1.0));
    assert_eq!(
        values[3].get("code").and_then(Value::as_str),
        Some("NetConnection.Connect.Success")
    );
}

#[test]
fn create_stream_hands_out_the_stream_publish_then_arrives_on() {
    let mut session = Session::new();
    session.handle(connect("live")).unwrap();
    let actions = session.handle(command("createStream", 2.0, vec![])).unwrap();
    let [Action::Send { message, .. }] = &actions[..] else {
        panic!("one reply")
    };
    let values = amf0::read_all(&message.payload).unwrap();
    assert_eq!(values[0].as_str(), Some("_result"));
    assert_eq!(as_f64(&values[1]), Some(2.0));
    assert_eq!(as_f64(&values[3]), Some(f64::from(PUBLISH_STREAM)));
}

#[test]
fn publish_is_answered_with_stream_begin_and_a_status() {
    let mut session = Session::new();
    session.handle(connect("live")).unwrap();
    let actions = session.handle(publish("cam1")).unwrap();
    let [
        Action::Send {
            message: begin,
            csid,
        },
        Action::Send {
            message: status, ..
        },
    ] = &actions[..]
    else {
        panic!("two replies")
    };
    assert_eq!(*csid, ChunkStreamId::control());
    assert_eq!(begin.kind, MessageType::UserControl);
    // Event 0, on the published stream.
    assert_eq!(&begin.payload[..], &[0, 0, 0, 0, 0, 1]);

    let values = amf0::read_all(&status.payload).unwrap();
    assert_eq!(values[0].as_str(), Some("onStatus"));
    assert_eq!(
        values[3].get("code").and_then(Value::as_str),
        Some("NetStream.Publish.Start")
    );
    assert_eq!(status.stream_id, PUBLISH_STREAM);
}

#[test]
fn a_path_is_the_app_and_the_stream_key() {
    let mut session = Session::new();
    session.handle(connect("live")).unwrap();
    session.handle(publish("cam1")).unwrap();
    assert_eq!(session.path(), Some("live/cam1"));
}

#[test]
fn a_stream_key_loses_the_query_an_encoder_puts_on_it() {
    // Where a token goes. Leaving it in would put the stream somewhere
    // no reader thinks to look.
    let mut session = Session::new();
    session.handle(connect("/live/")).unwrap();
    session.handle(publish("cam1?token=abc&x=1")).unwrap();
    assert_eq!(session.path(), Some("live/cam1"));
}

#[test]
fn a_publish_with_no_stream_key_is_refused() {
    let mut session = Session::new();
    session.handle(connect("live")).unwrap();
    assert_eq!(
        session.handle(publish("?token=abc")),
        Err(SessionError::NoStream)
    );
}

#[test]
fn a_connect_that_names_no_app_is_refused() {
    let mut session = Session::new();
    assert_eq!(
        session.handle(command("connect", 1.0, vec![Value::Object(Vec::new())])),
        Err(SessionError::NoApp)
    );
}

#[test]
fn the_description_settles_at_the_first_frame_and_not_before() {
    let mut session = publishing();
    assert!(session.handle(video_header()).unwrap().is_empty());
    assert!(session.handle(audio_header()).unwrap().is_empty());

    let actions = session.handle(picture(0, 0)).unwrap();
    let [Action::Publish { path, description }, Action::Unit(_)] = &actions[..] else {
        panic!("a publish and then a unit, got {actions:?}")
    };
    assert_eq!(path, "live/cam1");
    assert_eq!(description.tracks().len(), 2);
    assert_eq!(description.tracks()[0].kind(), TrackKind::Video);
    assert_eq!(description.tracks()[1].kind(), TrackKind::Audio);

    // And only once.
    let actions = session.handle(picture(33, 0)).unwrap();
    assert!(matches!(&actions[..], [Action::Unit(_)]));
}

#[test]
fn a_stream_with_no_sound_does_not_wait_for_any() {
    let mut session = publishing();
    session.handle(video_header()).unwrap();
    let actions = session.handle(picture(0, 0)).unwrap();
    let [Action::Publish { description, .. }, _] = &actions[..] else {
        panic!("a publish")
    };
    assert_eq!(description.tracks().len(), 1);
    assert_eq!(description.tracks()[0].kind(), TrackKind::Video);
}

#[test]
fn a_stream_with_no_pictures_puts_its_sound_on_the_first_track() {
    let mut session = publishing();
    session.handle(audio_header()).unwrap();
    let actions = session.handle(frame(0)).unwrap();
    let [Action::Publish { description, .. }, _] = &actions[..] else {
        panic!("a publish")
    };
    assert_eq!(description.tracks().len(), 1);
    assert_eq!(description.tracks()[0].kind(), TrackKind::Audio);
}

#[test]
fn pictures_arrive_as_unframed_nal_units_on_the_video_track() {
    let mut session = publishing();
    session.handle(video_header()).unwrap();
    session.handle(picture(0, 0)).unwrap();

    let unit = only_unit(session.handle(picture(33, 0)).unwrap());
    let Unit::Video(video) = unit else {
        panic!("a picture")
    };
    assert_eq!(video.track.index(), 0);
    assert!(video.keyframe);
    assert_eq!(
        video.payload,
        VideoPayload::H264(vec![
            h264::Nal::new(Bytes::from_static(&[0x65, 0x88])).unwrap()
        ])
    );
}

#[test]
fn a_timeline_starts_where_the_publisher_started() {
    // A publisher whose counter does not begin at zero. A reader still
    // needs a timeline that does.
    let mut session = publishing();
    session.handle(video_header()).unwrap();
    session.handle(picture(1_000_000, 0)).unwrap();

    let unit = only_unit(session.handle(picture(1_000_033, 0)).unwrap());
    assert_eq!(unit.pts(), MediaTime::from_millis(33));
}

#[test]
fn a_counter_that_wraps_does_not_send_the_stream_back_to_the_beginning() {
    let mut session = publishing();
    session.handle(video_header()).unwrap();
    session.handle(picture(u32::MAX - 100, 0)).unwrap();

    // 100 ms to the wrap, then 33 past it.
    let unit = only_unit(session.handle(picture(32, 0)).unwrap());
    assert_eq!(unit.pts(), MediaTime::from_millis(133));
}

#[test]
fn a_presentation_time_can_be_ahead_of_a_decode_time() {
    let mut session = publishing();
    session.handle(video_header()).unwrap();
    session.handle(picture(0, 0)).unwrap();

    let unit = only_unit(session.handle(picture(100, 66)).unwrap());
    let Unit::Video(video) = unit else {
        panic!("a picture")
    };
    assert_eq!(video.dts, MediaTime::from_millis(100));
    assert_eq!(video.pts, MediaTime::from_millis(166));

    // And behind it, which is what a stream with B-frames sends.
    let unit = only_unit(session.handle(picture(200, -30)).unwrap());
    let Unit::Video(video) = unit else {
        panic!("a picture")
    };
    assert_eq!(video.pts, MediaTime::from_millis(170));
}

#[test]
fn sound_arrives_as_raw_frames_on_its_own_track() {
    let mut session = publishing();
    session.handle(video_header()).unwrap();
    session.handle(audio_header()).unwrap();
    session.handle(picture(0, 0)).unwrap();

    let unit = only_unit(session.handle(frame(23)).unwrap());
    let Unit::Audio(audio) = unit else {
        panic!("a frame")
    };
    assert_eq!(audio.track.index(), 1);
    assert_eq!(audio.pts, MediaTime::from_millis(23));
    assert_eq!(
        audio.payload,
        AudioPayload::Aac(Bytes::from_static(&[0x21, 0x00]))
    );
}

#[test]
fn media_before_publish_is_refused() {
    let mut session = Session::new();
    session.handle(connect("live")).unwrap();
    assert_eq!(
        session.handle(video_header()),
        Err(SessionError::NotPublishing("video"))
    );
    assert_eq!(
        session.handle(audio_header()),
        Err(SessionError::NotPublishing("audio"))
    );
}

#[test]
fn a_frame_before_any_sequence_header_is_refused() {
    let mut session = publishing();
    assert_eq!(
        session.handle(picture(0, 0)),
        Err(SessionError::NoParameters("media"))
    );
}

#[test]
fn a_repeated_sequence_header_is_taken_as_the_same_stream() {
    // Some encoders send the headers again before every keyframe.
    let mut session = publishing();
    session.handle(video_header()).unwrap();
    assert!(session.handle(video_header()).unwrap().is_empty());
    session.handle(picture(0, 0)).unwrap();
    assert!(session.handle(video_header()).unwrap().is_empty());
}

#[test]
fn a_sequence_header_that_says_something_else_ends_the_connection() {
    let mut session = publishing();
    session.handle(video_header()).unwrap();

    // The same parameter sets at a different prefix width is still a
    // different stream: every payload after it is framed another way.
    let changed = h264::AvcConfig {
        parameters: h264::AvcConfig::parse(&avc_record()).unwrap().parameters,
        nal_length_size: 2,
    };
    let message = media(
        MessageType::Video,
        0,
        flv::write_video(&VideoTag::SequenceHeader(changed.to_bytes().unwrap())).unwrap(),
    );
    assert_eq!(
        session.handle(message),
        Err(SessionError::ParametersChanged("video"))
    );
}

#[test]
fn sound_that_turns_up_after_the_description_settled_ends_the_connection() {
    let mut session = publishing();
    session.handle(video_header()).unwrap();
    session.handle(picture(0, 0)).unwrap();
    assert_eq!(
        session.handle(audio_header()),
        Err(SessionError::ParametersChanged("audio"))
    );
}

#[test]
fn closing_the_stream_says_the_source_is_gone() {
    let mut session = publishing();
    assert_eq!(
        session.handle(command("deleteStream", 5.0, vec![])).unwrap(),
        vec![Action::Unpublish]
    );
    // And again is nothing: there is no source left to lose.
    assert!(
        session
            .handle(command("closeStream", 6.0, vec![]))
            .unwrap()
            .is_empty()
    );
}

#[test]
fn the_calls_an_encoder_makes_and_does_not_wait_for_are_let_by() {
    let mut session = Session::new();
    session.handle(connect("live")).unwrap();
    for name in ["releaseStream", "FCPublish", "somethingElse"] {
        assert!(
            session
                .handle(command(name, 3.0, vec![Value::Null]))
                .unwrap()
                .is_empty(),
            "{name}"
        );
    }
}

#[test]
fn an_acknowledgement_is_owed_once_a_window_has_arrived() {
    let mut session = Session::new();
    assert_eq!(session.received(WINDOW_SIZE as usize - 1), None);
    let Some(Action::Send { message, csid }) = session.received(1) else {
        panic!("an acknowledgement")
    };
    assert_eq!(csid, ChunkStreamId::control());
    assert_eq!(message.kind, MessageType::Acknowledgement);
    assert_eq!(&message.payload[..], &WINDOW_SIZE.to_be_bytes());

    // And not again until the next window.
    assert_eq!(session.received(1), None);
}

#[test]
fn a_message_type_this_does_not_read_is_named() {
    let mut session = Session::new();
    let message = Message {
        timestamp: 0,
        kind: MessageType::Amf3Command,
        stream_id: 0,
        payload: Bytes::new(),
    };
    assert_eq!(
        session.handle(message),
        Err(SessionError::UnreadMessage(MessageType::Amf3Command))
    );
}
