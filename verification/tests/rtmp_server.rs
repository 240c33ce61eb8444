use bytes::{BufMut, Bytes, BytesMut};
use relaybay::codec::h264;
use relaybay::rtmp::amf0::{self, Value};
use relaybay::rtmp::chunk::{
    ChunkError, ChunkStreamId, Message, MessageType, Reader, Writer, DEFAULT_CHUNK_SIZE,
};
use relaybay::rtmp::flv::{self, AudioTag, VideoTag};
use relaybay::rtmp::handshake::{HandshakeError, HANDSHAKE_SIZE, VERSION};
use relaybay::rtmp::server::{Connection, ConnectionError, Effect, Progress};
use relaybay::rtmp::session::{SessionError, CHUNK_SIZE, WINDOW_SIZE};
use relaybay::time::MediaTime;
use relaybay::track::Kind;
use relaybay::unit::Unit;

/// A client that speaks just enough RTMP to publish, and the connection it
/// speaks to.
struct Client {
    connection: Connection,
    buf: BytesMut,
    out: BytesMut,
    effects: Vec<Effect>,
    writer: Writer,
    reader: Reader,
}

impl Client {
    /// One that has shaken hands.
    fn connect() -> Self {
        let mut client = Self {
            connection: Connection::new(),
            buf: BytesMut::new(),
            out: BytesMut::new(),
            effects: Vec::new(),
            writer: Writer::new(),
            reader: Reader::new(),
        };
        client.buf.put_u8(VERSION);
        client.buf.put_slice(&[0; HANDSHAKE_SIZE]);
        assert_eq!(client.advance(), Ok(Progress::Waits));
        assert_eq!(client.out.len(), 1 + 2 * HANDSHAKE_SIZE);
        assert_eq!(client.connection.client_version(), None);
        client.out.clear();
        client.buf.put_slice(&[0; HANDSHAKE_SIZE]);
        assert_eq!(client.advance(), Ok(Progress::Waits));
        assert_eq!(client.connection.client_version(), Some(0));
        client
    }

    /// Goes on until there is no more to deal with.
    fn advance(&mut self) -> Result<Progress, ConnectionError> {
        loop {
            match self
                .connection
                .advance(&mut self.buf, &mut self.out, &mut self.effects)
            {
                Ok(Progress::GoesOn) => {}
                other => return other,
            }
        }
    }

    fn send(&mut self, csid: ChunkStreamId, message: &Message) -> Result<Progress, ConnectionError> {
        self.writer.write(&mut self.buf, csid, message).unwrap();
        self.advance()
    }

    fn command(
        &mut self,
        name: &str,
        transaction: f64,
        rest: Vec<Value>,
    ) -> Result<Progress, ConnectionError> {
        let mut values = vec![
            Value::String(name.to_owned()),
            Value::Number(transaction.to_bits()),
        ];
        values.extend(rest);
        let mut payload = BytesMut::new();
        amf0::write_all(&mut payload, &values).unwrap();
        self.send(
            ChunkStreamId::command(),
            &Message {
                timestamp: 0,
                kind: MessageType::Amf0Command,
                stream_id: 0,
                payload: payload.freeze(),
            },
        )
    }

    fn media(
        &mut self,
        kind: MessageType,
        timestamp: u32,
        payload: Bytes,
    ) -> Result<Progress, ConnectionError> {
        let csid = if kind == MessageType::Video {
            ChunkStreamId::video()
        } else {
            ChunkStreamId::audio()
        };
        self.send(
            csid,
            &Message {
                timestamp,
                kind,
                stream_id: 1,
                payload,
            },
        )
    }

    /// Every message that has come back.
    fn replies(&mut self) -> Vec<Message> {
        let mut replies = Vec::new();
        while let Some(message) = self.reader.read(&mut self.out).unwrap() {
            replies.push(message);
        }
        assert!(self.out.is_empty());
        replies
    }

    fn open(&mut self, app: &str) {
        let object = Value::Object(vec![("app".to_owned(), Value::String(app.to_owned()))]);
        self.command("connect", 1.0, vec![object]).unwrap();
    }

    fn publish(&mut self, app: &str, key: &str) {
        self.open(app);
        self.command("createStream", 2.0, vec![]).unwrap();
        self.command(
            "publish",
            3.0,
            vec![
                Value::Null,
                Value::String(key.to_owned()),
                Value::String("live".to_owned()),
            ],
        )
        .unwrap();
    }

    fn sequence_headers(&mut self) {
        let config = h264::AvcConfig {
            parameters: h264::Parameters {
                sps: vec![
                    h264::Nal::new(Bytes::from_static(&[0x67, 0x42, 0xc0, 0x1e, 0xd9])).unwrap(),
                ],
                pps: vec![h264::Nal::new(Bytes::from_static(&[0x68, 0xce, 0x3c])).unwrap()],
            },
            nal_length_size: 4,
        };
        let header =
            flv::write_video(&VideoTag::SequenceHeader(config.to_bytes().unwrap())).unwrap();
        self.media(MessageType::Video, 0, header).unwrap();
        self.media(
            MessageType::Audio,
            0,
            flv::write_audio(&AudioTag::SequenceHeader(Bytes::from_static(&[0x12, 0x10]))),
        )
        .unwrap();
    }

    fn picture(&mut self, timestamp: u32, keyframe: bool) {
        let mut data = BytesMut::new();
        data.put_u32(2);
        data.put_slice(&[if keyframe { 0x65 } else { 0x41 }, timestamp as u8]);
        let tag = flv::write_video(&VideoTag::Picture {
            keyframe,
            composition_time: 0,
            data: data.freeze(),
        })
        .unwrap();
        self.media(MessageType::Video, timestamp, tag).unwrap();
    }
}

#[test]
fn a_publish_comes_out_as_a_path_and_its_units() {
    let mut client = Client::connect();
    client.publish("live", "cam1");
    client.sequence_headers();
    assert!(client.effects.is_empty(), "nothing a reader could be given");
    assert_eq!(client.connection.path(), Some("live/cam1"));

    client.picture(0, true);
    client.picture(33, false);
    let effects = std::mem::take(&mut client.effects);
    let [Effect::Publish { path, description }, Effect::Unit(first), Effect::Unit(second)] =
        &effects[..]
    else {
        panic!("a path and two pictures, got {effects:?}")
    };
    assert_eq!(path, "live/cam1");
    assert_eq!(description.tracks().len(), 2);
    assert_eq!(description.tracks()[0].kind(), Kind::Video);
    let (Unit::Video(first), Unit::Video(second)) = (&**first, &**second) else {
        panic!("pictures")
    };
    assert!(first.keyframe && !second.keyframe);
    assert_eq!(first.pts, MediaTime::zero());
    assert_eq!(second.pts, MediaTime::from_millis(33));
}

#[test]
fn the_chunk_size_the_server_announces_is_the_one_it_then_uses() {
    let mut client = Client::connect();
    client.open("live");

    // The client's reader starts at 128 and is only right about the
    // messages after the announcement if the server changed size in the
    // same order. `_result` is the first message after it.
    assert_eq!(client.reader.chunk_size(), DEFAULT_CHUNK_SIZE);
    let replies = client.replies();
    let kinds: Vec<_> = replies.iter().map(|message| message.kind).collect();
    assert_eq!(
        kinds,
        [
            MessageType::WindowAckSize,
            MessageType::SetPeerBandwidth,
            MessageType::SetChunkSize,
            MessageType::Amf0Command
        ]
    );
    let values = amf0::read_all(&replies[3].payload).unwrap();
    assert_eq!(values[0].as_str(), Some("_result"));
    assert_eq!(
        values[3].get("code").and_then(Value::as_str),
        Some("NetConnection.Connect.Success")
    );
    assert_eq!(client.reader.chunk_size(), CHUNK_SIZE);
}

#[test]
fn bytes_that_arrive_one_at_a_time_do_what_they_do_at_once() {
    let mut whole = Client::connect();
    whole.publish("live", "cam1");
    let expected = whole.replies();

    // The same bytes again, a byte at a time.
    let mut client = Client::connect();
    let mut bytes = BytesMut::new();
    let mut spoken = Client::connect();
    spoken.publish("live", "cam1");
    for message in [
        ("connect", 1.0, vec![("app".to_owned(), Value::String("live".to_owned()))]),
        ("createStream", 2.0, vec![]),
    ] {
        let (name, transaction, properties) = message;
        let mut payload = BytesMut::new();
        amf0::write_all(
            &mut payload,
            &[
                Value::String(name.to_owned()),
                Value::Number(f64::to_bits(transaction)),
                Value::Object(properties),
            ],
        )
        .unwrap();
        client
            .writer
            .write(
                &mut bytes,
                ChunkStreamId::command(),
                &Message {
                    timestamp: 0,
                    kind: MessageType::Amf0Command,
                    stream_id: 0,
                    payload: payload.freeze(),
                },
            )
            .unwrap();
    }
    for byte in bytes {
        client.buf.put_u8(byte);
        assert_eq!(client.advance(), Ok(Progress::Waits));
    }
    assert_eq!(client.replies()[..], expected[..5]);
    assert_eq!(spoken.replies(), expected);
}

#[test]
fn unpublishing_ends_the_connection() {
    let mut client = Client::connect();
    client.publish("live", "cam1");
    client.sequence_headers();
    client.picture(0, true);
    client.effects.clear();
    assert_eq!(
        client.command("deleteStream", 5.0, vec![]),
        Ok(Progress::Over)
    );
    assert_eq!(client.effects, vec![Effect::Unpublish]);
}

#[test]
fn each_layer_says_what_was_wrong() {
    // The handshake.
    let mut connection = Connection::new();
    let mut buf = BytesMut::from(&[6; 1 + HANDSHAKE_SIZE][..]);
    assert_eq!(
        connection.advance(&mut buf, &mut BytesMut::new(), &mut Vec::new()),
        Err(ConnectionError::Handshake(
            HandshakeError::UnsupportedVersion(6)
        ))
    );

    // The chunk stream.
    let mut client = Client::connect();
    client.buf.put_slice(&[0xc6, 0, 0, 0]);
    assert_eq!(
        client.advance(),
        Err(ConnectionError::Chunk(ChunkError::NothingToInherit {
            csid: 6,
            fmt: 3
        }))
    );

    // The session.
    let mut client = Client::connect();
    client.open("live");
    assert_eq!(
        client.media(MessageType::Video, 0, Bytes::from_static(&[0x17, 1, 0, 0, 0])),
        Err(ConnectionError::Session(SessionError::NotPublishing(
            "video"
        )))
    );
}

#[test]
fn what_arrives_is_counted_once_the_handshake_is_over() {
    let mut early = Connection::new();
    let mut out = BytesMut::new();
    early.received(WINDOW_SIZE as usize, &mut out);
    assert!(out.is_empty());

    let mut client = Client::connect();
    client.connection.received(WINDOW_SIZE as usize - 1, &mut client.out);
    assert!(client.out.is_empty());
    client.connection.received(1, &mut client.out);
    let replies = client.replies();
    assert_eq!(replies.len(), 1);
    assert_eq!(replies[0].kind, MessageType::Acknowledgement);
    assert_eq!(&replies[0].payload[..], &WINDOW_SIZE.to_be_bytes());
}
