use bytes::{Bytes, BytesMut};
use relaybay::codec::{aac, h264};
use relaybay::rtp::{payload_type, Header, MTU};
use relaybay::rtsp::message::{
    interleave, read, Headers, Incoming, Method, Request, RtspError, Transport,
};
use relaybay::rtsp::server::{take_request, Connection, Playing, Todo};
use relaybay::rtsp::session::{Action, Session, Setup};
use relaybay::time::MediaTime;
use relaybay::track::{Codec, Description};
use relaybay::unit::{AudioPayload, AudioUnit, Unit, VideoPayload, VideoUnit};

fn description() -> Description {
    Description::new(vec![
        Codec::H264(h264::Parameters {
            sps: vec![
                h264::Nal::new(Bytes::from_static(&[0x67, 0x42, 0xc0, 0x1e, 0xd9])).unwrap(),
            ],
            pps: vec![h264::Nal::new(Bytes::from_static(&[0x68, 0xce, 0x3c])).unwrap()],
        }),
        Codec::Aac(aac::Parameters::parse(Bytes::from_static(&[0x12, 0x10])).unwrap()),
    ])
    .unwrap()
}

fn picture(pts: u64, keyframe: bool, length: usize) -> Unit {
    let mut data = vec![if keyframe { 0x65 } else { 0x41 }];
    data.extend(std::iter::repeat_n(0xab, length));
    Unit::Video(VideoUnit::new(
        description().tracks()[0].id(),
        VideoPayload::H264(vec![h264::Nal::new(Bytes::from_owner(data)).unwrap()]),
        MediaTime::from_millis(pts),
        MediaTime::from_millis(pts),
    ))
}

fn sound(pts: u64) -> Unit {
    Unit::Audio(AudioUnit {
        track: description().tracks()[1].id(),
        payload: AudioPayload::Aac(Bytes::from_static(&[0x21, 0x00, 0x03])),
        pts: MediaTime::from_millis(pts),
    })
}

fn known(path: &str) -> Option<Description> {
    (path == "live/cam1").then(description)
}

/// Says something to a connection, and gives back the head of the answer and
/// what is left to do.
fn say(connection: &mut Connection, text: &str) -> (String, Todo) {
    let mut buf = BytesMut::from(text.as_bytes());
    let request = take_request(&mut buf).unwrap().expect("a request");
    assert!(buf.is_empty());
    let found = connection
        .session()
        .asks(&request)
        .and_then(|path| known(&path));
    let mut out = BytesMut::new();
    let todo = connection.answer(&request, found.as_ref(), &mut out);
    (String::from_utf8(out.to_vec()).unwrap(), todo)
}

fn set_up(connection: &mut Connection, track: usize, channels: &str) -> String {
    say(
        connection,
        &format!(
            "SETUP rtsp://127.0.0.1/live/cam1/trackID={track} RTSP/1.0\r\nCSeq: 2\r\n\
             Transport: RTP/AVP/TCP;unicast;interleaved={channels}\r\n\r\n"
        ),
    )
    .0
}

fn play(connection: &mut Connection) {
    let (answer, todo) = say(
        connection,
        "PLAY rtsp://127.0.0.1/live/cam1 RTSP/1.0\r\nCSeq: 3\r\n\r\n",
    );
    assert!(answer.starts_with("RTSP/1.0 200 OK\r\nCSeq: 3\r\n"), "{answer}");
    let Todo::Attach { path, tracks } = todo else {
        panic!("a stream to attach to")
    };
    assert_eq!(path, "live/cam1");
    connection.attach(&description(), &tracks, 7);
    assert!(connection.is_playing());
}

/// The frames that bytes are.
fn frames(out: &mut BytesMut) -> Vec<(u8, Bytes)> {
    let mut frames = Vec::new();
    while let Some(incoming) = read(out).unwrap() {
        let Incoming::Interleaved { channel, data } = incoming else {
            panic!("a frame")
        };
        frames.push((channel, data));
    }
    assert!(out.is_empty());
    frames
}

#[test]
fn a_request_is_what_the_session_is_given() {
    // The driver hands the session what the message layer read, and
    // nothing else: no rewriting in between.
    let request = Request {
        method: Method::Options,
        uri: "*".to_owned(),
        headers: Headers::new().with("CSeq", "1"),
        body: Bytes::new(),
    };
    let mut session = Session::new(0);
    let actions = session.handle(&request, |_| None);
    assert!(matches!(actions[0], Action::Respond(_)));
}

#[test]
fn a_client_describes_sets_up_and_plays() {
    let mut connection = Connection::new(0);
    let (options, todo) = say(&mut connection, "OPTIONS * RTSP/1.0\r\nCSeq: 1\r\n\r\n");
    assert!(options.starts_with("RTSP/1.0 200 OK\r\n"));
    assert!(options.contains("PLAY"));
    assert_eq!(todo, Todo::GoOn);

    let (described, _) = say(
        &mut connection,
        "DESCRIBE rtsp://127.0.0.1/live/cam1 RTSP/1.0\r\nCSeq: 2\r\n\r\n",
    );
    assert!(described.contains("m=video"), "{described}");
    assert!(described.contains("sprop-parameter-sets="), "{described}");

    assert!(set_up(&mut connection, 0, "0-1").contains("Session: "));
    assert!(!connection.is_playing());
    play(&mut connection);

    let mut out = BytesMut::new();
    connection.write(&picture(0, true, 100), &mut out);
    let sent = frames(&mut out);
    assert_eq!(sent.len(), 1);
    let (channel, packet) = &sent[0];
    assert_eq!(*channel, 0);
    let (header, payload) = Header::parse(packet).unwrap();
    assert_eq!(header.payload_type, payload_type::VIDEO);
    assert_eq!(header.ssrc, 7);
    assert!(header.marker, "one small picture is one packet, and its end");
    assert_eq!(payload[0], 0x65, "the NAL unit, unchanged");
}

#[test]
fn a_picture_too_large_for_a_packet_arrives_in_pieces() {
    let mut connection = Connection::new(0);
    set_up(&mut connection, 0, "0-1");
    play(&mut connection);

    let mut out = BytesMut::new();
    connection.write(&picture(0, true, MTU * 3), &mut out);
    let mut rebuilt = Vec::new();
    let sent = frames(&mut out);
    for (index, (_, packet)) in sent.iter().enumerate() {
        let (header, payload) = Header::parse(packet).unwrap();
        assert!(packet.len() <= MTU);
        assert_eq!(payload[0] & 0x1f, 28, "a fragment");
        if payload[1] & 0x80 != 0 {
            rebuilt.push((payload[0] & 0xe0) | (payload[1] & 0x1f));
        }
        rebuilt.extend_from_slice(&payload[2..]);
        assert_eq!(header.marker, index + 1 == sent.len());
    }
    assert_eq!(rebuilt.len(), MTU * 3 + 1);
    assert_eq!(rebuilt[0], 0x65);
}

#[test]
fn two_tracks_go_out_on_the_channels_they_were_set_up_on() {
    let mut connection = Connection::new(0);
    set_up(&mut connection, 0, "0-1");
    set_up(&mut connection, 1, "2-3");
    play(&mut connection);

    let mut out = BytesMut::new();
    connection.write(&picture(0, true, 50), &mut out);
    connection.write(&sound(20), &mut out);
    let sent = frames(&mut out);
    assert_eq!(sent.len(), 2);

    assert_eq!(sent[0].0, 0);
    let (header, _) = Header::parse(&sent[0].1).unwrap();
    assert_eq!(header.payload_type, payload_type::VIDEO);
    assert_eq!(header.ssrc, 7);

    assert_eq!(sent[1].0, 2);
    let (header, payload) = Header::parse(&sent[1].1).unwrap();
    assert_eq!(header.payload_type, payload_type::AUDIO);
    assert_eq!(header.ssrc, 8);
    // One AU header of sixteen bits, then the frame.
    assert_eq!(u16::from_be_bytes([payload[0], payload[1]]), 16);
    assert_eq!(&payload[4..], &[0x21, 0x00, 0x03]);
}

#[test]
fn a_track_the_client_did_not_set_up_is_not_sent() {
    let mut connection = Connection::new(0);
    set_up(&mut connection, 1, "2-3");
    play(&mut connection);

    let mut out = BytesMut::new();
    connection.write(&picture(0, true, 50), &mut out);
    assert!(out.is_empty());
    connection.write(&sound(20), &mut out);
    let sent = frames(&mut out);
    assert_eq!(sent.len(), 1);
    assert_eq!(sent[0].0, 2);
}

#[test]
fn a_client_that_will_only_take_udp_is_told_to_ask_again() {
    let mut connection = Connection::new(0);
    let (refused, todo) = say(
        &mut connection,
        "SETUP rtsp://127.0.0.1/live/cam1/trackID=0 RTSP/1.0\r\nCSeq: 2\r\n\
         Transport: RTP/AVP;unicast;client_port=8000-8001\r\n\r\n",
    );
    assert!(refused.starts_with("RTSP/1.0 461 "), "{refused}");
    // And the connection goes on, which is the point of answering rather
    // than closing.
    assert_eq!(todo, Todo::GoOn);
    assert!(set_up(&mut connection, 0, "0-1").starts_with("RTSP/1.0 200 "));

    // What it offers second is taken where the first is not.
    let (taken, _) = say(
        &mut connection,
        "SETUP rtsp://127.0.0.1/live/cam1/trackID=1 RTSP/1.0\r\nCSeq: 2\r\n\
         Transport: RTP/AVP;unicast;client_port=8000-8001,RTP/AVP/TCP;unicast;interleaved=4-5\r\n\r\n",
    );
    assert!(taken.contains("Transport: RTP/AVP/TCP;unicast;interleaved=4-5\r\n"), "{taken}");
}

#[test]
fn server_describing_a_path_nothing_is_publishing_to_is_answered_not_found() {
    let (answer, todo) = say(
        &mut Connection::new(0),
        "DESCRIBE rtsp://127.0.0.1/live/nobody RTSP/1.0\r\nCSeq: 1\r\n\r\n",
    );
    assert!(answer.starts_with("RTSP/1.0 404 "), "{answer}");
    assert_eq!(todo, Todo::GoOn);
}

#[test]
fn a_client_that_tears_down_is_answered_and_then_closed() {
    let (answer, todo) = say(
        &mut Connection::new(0),
        "TEARDOWN rtsp://127.0.0.1/live/cam1 RTSP/1.0\r\nCSeq: 4\r\n\r\n",
    );
    assert!(answer.starts_with("RTSP/1.0 200 OK\r\nCSeq: 4\r\n"), "{answer}");
    assert_eq!(todo, Todo::Close);
}

#[test]
fn pausing_stops_what_is_sent() {
    let mut connection = Connection::new(0);
    set_up(&mut connection, 0, "0-1");
    play(&mut connection);
    let (_, todo) = say(
        &mut connection,
        "PAUSE rtsp://127.0.0.1/live/cam1 RTSP/1.0\r\nCSeq: 4\r\n\r\n",
    );
    assert_eq!(todo, Todo::GoOn);
    assert!(!connection.is_playing());
    let mut out = BytesMut::new();
    connection.write(&picture(0, true, 50), &mut out);
    assert!(out.is_empty());
    play(&mut connection);
}

#[test]
fn an_interleaved_report_from_the_client_does_not_confuse_the_connection() {
    // A receiver report on the second channel, then a request. If the
    // frame were not read past, the request after it would be read as
    // rubbish.
    let mut connection = Connection::new(0);
    set_up(&mut connection, 0, "0-1");
    let mut buf = BytesMut::new();
    interleave(&mut buf, 1, &[0x81, 0xc9, 0x00, 0x07]).unwrap();
    buf.extend_from_slice(b"GET_PARAMETER rtsp://h/live/cam1 RTSP/1.0\r\nCSeq: 9\r\n\r\n$");
    let request = take_request(&mut buf).unwrap().expect("a request");
    assert_eq!(request.method, Method::GetParameter);
    let mut out = BytesMut::new();
    assert_eq!(connection.answer(&request, None, &mut out), Todo::GoOn);
    assert!(out.starts_with(b"RTSP/1.0 200 OK\r\nCSeq: 9\r\n"));
    assert_eq!(&buf[..], b"$");
    assert_eq!(take_request(&mut buf), Ok(None));
}

#[test]
fn bytes_that_are_no_request_end_the_connection() {
    let mut buf = BytesMut::from(&b"\x00"[..]);
    assert_eq!(take_request(&mut buf), Err(RtspError::NotRtsp));
}

#[test]
fn a_request_this_does_not_serve_is_refused_without_closing() {
    let mut connection = Connection::new(0);
    let (answer, todo) = say(
        &mut connection,
        "RECORD rtsp://127.0.0.1/live/cam1 RTSP/1.0\r\nCSeq: 1\r\n\r\n",
    );
    assert!(answer.starts_with("RTSP/1.0 405 "), "{answer}");
    assert_eq!(todo, Todo::GoOn);
    let (answer, _) = say(&mut connection, "OPTIONS * RTSP/1.0\r\nCSeq: 2\r\n\r\n");
    assert!(answer.starts_with("RTSP/1.0 200 "), "{answer}");
}

#[test]
fn a_frame_that_cannot_be_expressed_is_dropped_and_the_stream_goes_on() {
    let description = description();
    let setups = [Setup {
        track: description.tracks()[1].id(),
        transport: Transport::Interleaved { rtp: 2, rtcp: 3 },
    }];
    let mut playing = Playing::attach(&description, &setups, 1);
    let mut out = BytesMut::new();
    playing.write(
        &mut out,
        &Unit::Audio(AudioUnit {
            track: description.tracks()[1].id(),
            payload: AudioPayload::Aac(Bytes::from_owner(vec![0; 8192])),
            pts: MediaTime::zero(),
        }),
    );
    assert!(out.is_empty());
    playing.write(&mut out, &sound(0));
    assert_eq!(frames(&mut out).len(), 1);
}

#[test]
fn a_track_over_udp_is_not_bound() {
    let description = description();
    let setups = [Setup {
        track: description.tracks()[0].id(),
        transport: Transport::Udp { rtp: 8000, rtcp: 8001 },
    }];
    let mut playing = Playing::attach(&description, &setups, 1);
    let mut out = BytesMut::new();
    playing.write(&mut out, &picture(0, true, 10));
    assert!(out.is_empty());
}
