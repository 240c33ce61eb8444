use bytes::{BufMut, Bytes, BytesMut};
use relaybay::codec::h264;
use relaybay::path::{Feed, Next, Registry};
use relaybay::rtmp::amf0::{self, Value};
use relaybay::rtmp::chunk::{Message, MessageType};
use relaybay::rtmp::flv::{self, AudioTag, VideoTag};
use relaybay::rtmp::session::{Action, Session};
use relaybay::rtp::Header;
use relaybay::rtsp::message::{read, Incoming};
use relaybay::rtsp::sdp;
use relaybay::rtsp::server::{take_request, Connection, Todo};
use relaybay::track::Description;
use relaybay::unit::Unit;

const SPS: &[u8] = &[0x67, 0x42, 0xc0, 0x1e, 0xd9];
const PPS: &[u8] = &[0x68, 0xce, 0x3c];

fn nal(bytes: &[u8]) -> h264::Nal {
    h264::Nal::new(Bytes::copy_from_slice(bytes)).unwrap()
}

fn command(name: &str, rest: Vec<Value>) -> Message {
    let mut values = vec![
        Value::String(name.to_owned()),
        Value::Number(1.0f64.to_bits()),
    ];
    values.extend(rest);
    let mut payload = BytesMut::new();
    amf0::write_all(&mut payload, &values).unwrap();
    Message {
        timestamp: 0,
        kind: MessageType::Amf0Command,
        stream_id: 0,
        payload: payload.freeze(),
    }
}

fn media(kind: MessageType, timestamp: u32, payload: Bytes) -> Message {
    Message {
        timestamp,
        kind,
        stream_id: 1,
        payload,
    }
}

/// A publisher whose pictures have length prefixes `width` bytes wide.
struct Publisher {
    session: Session,
    width: usize,
}

impl Publisher {
    fn new(width: usize) -> Self {
        let mut session = Session::new();
        let app = Value::Object(vec![("app".to_owned(), Value::String("live".to_owned()))]);
        session.handle(command("connect", vec![app])).unwrap();
        session
            .handle(command(
                "publish",
                vec![Value::Null, Value::String("cam1".to_owned())],
            ))
            .unwrap();
        let config = h264::AvcConfig {
            parameters: h264::Parameters {
                sps: vec![nal(SPS)],
                pps: vec![nal(PPS)],
            },
            nal_length_size: width,
        };
        let header =
            flv::write_video(&VideoTag::SequenceHeader(config.to_bytes().unwrap())).unwrap();
        session
            .handle(media(MessageType::Video, 0, header))
            .unwrap();
        let header =
            flv::write_audio(&AudioTag::SequenceHeader(Bytes::from_static(&[0x12, 0x10])));
        session
            .handle(media(MessageType::Audio, 0, header))
            .unwrap();
        Self { session, width }
    }

    fn picture(&mut self, timestamp: u32, nalus: &[h264::Nal]) -> Vec<Action> {
        let data = h264::to_length_prefixed(nalus, self.width).unwrap();
        let payload = flv::write_video(&VideoTag::Picture {
            keyframe: true,
            composition_time: 40,
            data,
        })
        .unwrap();
        self.session
            .handle(media(MessageType::Video, timestamp, payload))
            .unwrap()
    }

    fn sound(&mut self, timestamp: u32, frame: &[u8]) -> Vec<Action> {
        let payload = flv::write_audio(&AudioTag::Frame(Bytes::copy_from_slice(frame)));
        self.session
            .handle(media(MessageType::Audio, timestamp, payload))
            .unwrap()
    }
}

/// A client that has set both tracks up and is playing.
fn playing(description: &Description) -> Connection {
    let mut connection = Connection::new(1);
    let mut attach = Todo::GoOn;
    for text in [
        "SETUP rtsp://h/live/cam1/trackID=0 RTSP/1.0\r\nCSeq: 1\r\n\
         Transport: RTP/AVP/TCP;unicast;interleaved=0-1\r\n\r\n",
        "SETUP rtsp://h/live/cam1/trackID=1 RTSP/1.0\r\nCSeq: 2\r\n\
         Transport: RTP/AVP/TCP;unicast;interleaved=2-3\r\n\r\n",
        "PLAY rtsp://h/live/cam1 RTSP/1.0\r\nCSeq: 3\r\n\r\n",
    ] {
        let mut buf = BytesMut::from(text.as_bytes());
        let request = take_request(&mut buf).unwrap().unwrap();
        attach = connection.answer(&request, Some(description), &mut BytesMut::new());
    }
    let Todo::Attach { tracks, .. } = attach else {
        panic!("a stream to attach to")
    };
    connection.attach(description, &tracks, 100);
    connection
}

/// The payloads in what was sent, after each packet's header, with the
/// timestamp they share.
fn payloads(out: &mut BytesMut, on: u8) -> (u32, Vec<Bytes>) {
    let mut found = Vec::new();
    let mut moment = None;
    while let Some(Incoming::Interleaved { channel, data }) = read(out).unwrap() {
        assert_eq!(channel, on);
        let (header, payload) = Header::parse(&data).unwrap();
        assert_eq!(*moment.get_or_insert(header.timestamp), header.timestamp);
        found.push(data.slice(data.len() - payload.len()..));
    }
    (moment.unwrap(), found)
}

/// The units that the payloads of a picture put together are.
fn watched(payloads: &[Bytes]) -> Vec<Vec<u8>> {
    let mut units = Vec::new();
    let mut open = Vec::new();
    for payload in payloads {
        if payload[0] & 0x1f == 28 {
            if payload[1] & 0x80 != 0 {
                open = vec![(payload[0] & 0xe0) | (payload[1] & 0x1f)];
            }
            open.extend_from_slice(&payload[2..]);
            if payload[1] & 0x40 != 0 {
                units.push(std::mem::take(&mut open));
            }
        } else {
            units.push(payload.to_vec());
        }
    }
    assert!(open.is_empty());
    units
}

fn unit_of(actions: &[Action]) -> Unit {
    match actions.last() {
        Some(Action::Unit(unit)) => (**unit).clone(),
        other => panic!("a unit, got {other:?}"),
    }
}

#[test]
fn what_arrives_over_rtmp_leaves_over_rtsp_unchanged() {
    for width in [1, 2, 4] {
        let longest = if width == 1 { 255 } else { 5000 };
        let mut slice = vec![0x65];
        slice.extend((1..longest).map(|n| (n % 251) as u8));
        let nalus = [nal(&[0x06, 0x05, 0x01]), nal(&slice), nal(&[0x65])];

        let mut publisher = Publisher::new(width);
        let actions = publisher.picture(1000, &nalus);
        let Action::Publish { path, description } = &actions[0] else {
            panic!("a stream to publish")
        };
        assert_eq!(path, "live/cam1");

        let mut registry = Registry::new();
        let (token, _) = registry.publish(path, (**description).clone());
        let (_, told, mut reader) = registry.read(path).unwrap();
        assert_eq!(told, **description);
        let mut client = playing(&told);
        let mut relayed = |registry: &mut Registry, unit: Unit| {
            assert!(registry.push("live/cam1", token, &unit));
            match reader.receive(Feed::Unit(unit)) {
                Next::Unit(unit) => {
                    let mut out = BytesMut::new();
                    client.write(&unit, &mut out);
                    out
                }
                _ => panic!("a unit to send"),
            }
        };

        let mut out = relayed(&mut registry, unit_of(&actions));
        let (first, packets) = payloads(&mut out, 0);
        let sent: Vec<Vec<u8>> = nalus.iter().map(|nal| nal.data().to_vec()).collect();
        assert_eq!(watched(&packets), sent);

        // A second on, at 90 kHz, and the offset between decoding and showing
        // is the same.
        let later = publisher.picture(2000, &nalus[..1]);
        assert_eq!(later.len(), 1);
        let mut out = relayed(&mut registry, unit_of(&later));
        let (second, packets) = payloads(&mut out, 0);
        assert_eq!(second.wrapping_sub(first), 90_000);
        assert_eq!(watched(&packets), [sent[0].clone()]);

        let frame: Vec<u8> = (0..4000).map(|n| (n % 253) as u8).collect();
        let mut out = relayed(&mut registry, unit_of(&publisher.sound(2000, &frame)));
        let (_, packets) = payloads(&mut out, 2);
        assert!(packets.len() > 1);
        let heard: Vec<u8> = packets.iter().flat_map(|packet| packet[4..].to_vec()).collect();
        assert_eq!(heard, frame);
        for packet in &packets {
            assert_eq!(u16::from_be_bytes([packet[2], packet[3]]) >> 3, 4000);
        }
    }
}

#[test]
fn the_parameter_sets_a_publisher_states_are_the_ones_a_reader_is_told() {
    let mut publisher = Publisher::new(4);
    let actions = publisher.picture(0, &[nal(&[0x65, 1])]);
    let Action::Publish { description, .. } = &actions[0] else {
        panic!("a stream to publish")
    };
    let text = sdp::describe(description, "live/cam1");
    let sets = format!("{},{}", sdp::base64(SPS), sdp::base64(PPS));
    assert!(text.contains(&sets), "{text}");
    assert!(text.contains(&sdp::hex(&[0x12, 0x10])), "{text}");
}

#[test]
fn a_description_that_has_settled_is_not_stated_again() {
    let mut publisher = Publisher::new(4);
    assert_eq!(publisher.picture(0, &[nal(&[0x65, 1])]).len(), 2);
    assert_eq!(publisher.picture(40, &[nal(&[0x41, 1])]).len(), 1);
    assert_eq!(publisher.sound(40, &[1]).len(), 1);
}

#[test]
fn a_late_reader_gets_the_group_and_then_what_follows() {
    let mut publisher = Publisher::new(4);
    let actions = publisher.picture(0, &[nal(&[0x65, 1])]);
    let Action::Publish { path, description } = &actions[0] else {
        panic!("a stream to publish")
    };
    let mut registry = Registry::new();
    let (token, _) = registry.publish(path, (**description).clone());
    let mut sent = Vec::new();
    for actions in [
        publisher.picture(40, &[nal(&[0x65, 2])]),
        publisher.sound(50, &[3]),
        publisher.picture(80, &[nal(&[0x41, 4])]),
    ] {
        let unit = unit_of(&actions);
        registry.push(path, token, &unit);
        sent.push(unit);
    }
    let (_, _, mut reader) = registry.read(path).unwrap();
    let mut got = Vec::new();
    while let Some(unit) = reader.take() {
        got.push(unit);
    }
    let next = unit_of(&publisher.sound(90, &[5]));
    match reader.receive(Feed::Unit(next.clone())) {
        Next::Unit(unit) => got.push(unit),
        _ => panic!("a reader in step"),
    }
    sent.push(next);
    assert_eq!(got, sent);
}

#[test]
fn a_sender_that_keeps_nothing_in_its_buffer_still_frames_everything() {
    // The packets of one unit come out of one buffer that was not empty.
    let mut publisher = Publisher::new(2);
    let actions = publisher.picture(0, &[nal(&[0x65, 1])]);
    let Action::Publish { description, .. } = &actions[0] else {
        panic!("a stream to publish")
    };
    let mut client = playing(description);
    let mut out = BytesMut::new();
    out.put_slice(b"$\x09\x00\x01\xff");
    client.write(&unit_of(&actions), &mut out);
    let first = read(&mut out).unwrap();
    assert_eq!(
        first,
        Some(Incoming::Interleaved {
            channel: 9,
            data: Bytes::from_static(&[0xff])
        })
    );
    let (_, packets) = payloads(&mut out, 0);
    assert_eq!(watched(&packets), [vec![0x65, 1]]);
}
