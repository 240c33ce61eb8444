//! What a publishing RTMP connection does, with the socket left out.
//!
//! Everything below this reads bytes; this decides what they mean. Messages
//! go in, and what to do about them comes back: replies to write, a stream
//! to publish, units to fan out. It holds no socket, spawns nothing and
//! waits for nothing, so the driver above can be swapped without any of this
//! changing.
//!
//! # The exchange
//!
//! ```text
//! connect("live")        ──▶  window size, peer bandwidth, chunk size,
//!                             _result(NetConnection.Connect.Success)
//! createStream()         ──▶  _result(1)
//! publish("cam1")        ──▶  Stream Begin, onStatus(Publish.Start)
//! @setDataFrame          ──▶  (read past)
//! video sequence header  ──▶  (kept)
//! audio sequence header  ──▶  (kept)
//! first frame            ──▶  Publish { path, description }, then units
//! ```
//!
//! # Why the description waits for a frame
//!
//! A publisher states its tracks one sequence header at a time and never
//! says how many there will be. Waiting for both would hang on a stream that
//! has no sound; publishing at the first would give a silent description to
//! a stream about to send some. So the description is settled at the first
//! frame of actual media: by then a publisher has sent every sequence header
//! it is going to, because a decoder could not read the frame otherwise.
//!
//! Video is track 0 where there is video, whichever header arrived first.

use crate::buffer::{be16, be32, num24, octets, put_u16, put_u32, put_u8, Contents};
use crate::codec::aac::{fields_of, AacError};
use crate::codec::h264::{
    config_of, has, law_a_payload_that_splits_is_written_back, law_length_prefixed_round_trips,
    length_prefixed, nal_type, prefix_width, prefixed_units, AvcConfigView, H264Error, NalType,
};
use crate::codec::{aac, h264};
use crate::rtmp::amf0::{
    all_at, emitted, emitted_all, fits, law_written_values_read_back, lemma_properties_writable,
    lemma_read_strings_fit, lemma_values_writable, properties_view, read_all, values_fit,
    values_view, writable_key, write_all, Amf0Error, Value, ValueView,
};
use crate::rtmp::chunk::{ChunkStreamId, Message, MessageType, MessageView};
use crate::rtmp::flv;
use crate::rtmp::flv::{
    audio_of, signed24, video_of, AudioTagView, FlvError, FlvErrorView, VideoTagView,
};
use crate::text::{
    before, characters, lemma_encoded_length, lemma_part_encodes_shorter, lemma_trim_is_part,
    position, push_text, same_text, text_of, trim, trim_chars, Edge,
};
use crate::time::{MediaTime, END_OF_TIME};
use crate::track::{
    codec_views, first_unplayable, undescribable, Codec, CodecView, Description, DescriptionError, TrackId,
};
use crate::unit::{AudioPayload, AudioUnit, Unit, UnitView, VideoPayload, VideoUnit};
use bytes::{Bytes, BytesMut};
use vstd::prelude::*;
use vstd::slice::slice_subrange;
use vstd::utf8::encode_utf8;

verus! {

/// How many bytes may arrive between acknowledgements. A window this size is
/// what every implementation announces; the number itself does not matter,
/// only that both ends agree one is owed.
pub const WINDOW_SIZE: u32 = 2_500_000;

/// The size this chunks what it sends. Larger than the 128 a connection
/// opens at, because the default costs a header every 128 bytes and this
/// side has no small messages to interleave around.
pub const CHUNK_SIZE: usize = 65_536;

/// The message stream a published track arrives on. Handed out by
/// `createStream`, and 1 because there is only ever one.
pub const PUBLISH_STREAM: u32 = 1;

/// The bits of the double 1.0, which is the publish stream as a number.
pub const ONE: u64 = 0x3ff0_0000_0000_0000;

/// The bits of the double 31.0.
pub const THIRTY_ONE: u64 = 0x403f_0000_0000_0000;

/// The bits of the double 0.0.
pub const ZERO: u64 = 0;

/// What the session wants done.
///
/// Order matters: a [`Action::SetChunkSize`] follows the message that
/// announces it, because the peer goes on reading at the old size until that
/// message reaches it.
#[derive(Debug, PartialEq)]
pub enum Action {
    /// Write this message on this chunk stream.
    Send { csid: ChunkStreamId, message: Box<Message> },
    /// Chunk what is written after this at the new size.
    SetChunkSize(usize),
    /// A publisher has said what it is sending. Nothing arrives before this
    /// and everything after belongs to it.
    Publish { path: String, description: Box<Description> },
    /// One access unit of the published stream.
    Unit(Box<Unit>),
    /// The publisher is done. Any reader on this path has lost its source.
    Unpublish,
}

/// What an [`Action`] asks for.
pub enum ActionView {
    Send { csid: u32, message: MessageView },
    SetChunkSize(nat),
    Publish { path: Seq<char>, description: Seq<CodecView> },
    Unit(UnitView),
    Unpublish,
}

impl View for Action {
    type V = ActionView;

    open spec fn view(&self) -> ActionView {
        match *self {
            Action::Send { csid, message } => ActionView::Send {
                csid: csid.spec_value(),
                message: message@,
            },
            Action::SetChunkSize(size) => ActionView::SetChunkSize(size as nat),
            Action::Publish { path, description } => ActionView::Publish {
                path: path@,
                description: description@,
            },
            Action::Unit(unit) => ActionView::Unit(unit@),
            Action::Unpublish => ActionView::Unpublish,
        }
    }
}

impl Clone for Action {
    fn clone(&self) -> (copy: Self)
        ensures
            copy@ == self@,
    {
        match self {
            Action::Send { csid, message } => Action::Send {
                csid: *csid,
                message: Box::new((**message).clone()),
            },
            Action::SetChunkSize(size) => Action::SetChunkSize(*size),
            Action::Publish { path, description } => Action::Publish {
                path: path.clone(),
                description: Box::new((**description).clone()),
            },
            Action::Unit(unit) => Action::Unit(Box::new((**unit).clone())),
            Action::Unpublish => Action::Unpublish,
        }
    }
}

/// What a list of actions asks for.
pub open spec fn action_views(actions: Seq<Action>) -> Seq<ActionView> {
    actions.map_values(|action: Action| action@)
}

/// Why a connection cannot go on.
#[derive(Debug, PartialEq)]
pub enum SessionError {
    Amf0(Amf0Error),
    Flv(FlvError),
    H264(H264Error),
    Aac(AacError),
    Description(DescriptionError),
    /// A command message whose first value is not a command name.
    Nameless,
    /// `connect` without the `app` its command object is defined to carry.
    /// There is nowhere to publish to without it.
    NoApp,
    /// `publish` without a stream key, which is the rest of the path.
    NoStream,
    /// Media before `publish`, which is media with nowhere to go.
    NotPublishing(&'static str),
    /// Media before the sequence header that says how to read it. A video
    /// frame cannot even be split into NAL units without the prefix width
    /// the header declares.
    NoParameters(&'static str),
    /// A second sequence header, saying something different from the first.
    ///
    /// A description is fixed for the life of a stream, so this is a publisher
    /// starting a different one. The connection ends and the publisher may
    /// open another.
    ParametersChanged(&'static str),
    /// A message type this does not read. AMF3 and aggregate messages are
    /// carried by nothing that publishes.
    UnreadMessage(MessageType),
}

/// What a [`SessionError`] says.
pub enum SessionErrorView {
    Amf0(Amf0Error),
    Flv(FlvErrorView),
    H264(H264Error),
    Aac(AacError),
    Description(DescriptionError),
    Nameless,
    NoApp,
    NoStream,
    NotPublishing(&'static str),
    NoParameters(&'static str),
    ParametersChanged(&'static str),
    UnreadMessage(MessageType),
}

impl View for SessionError {
    type V = SessionErrorView;

    open spec fn view(&self) -> SessionErrorView {
        match *self {
            SessionError::Amf0(error) => SessionErrorView::Amf0(error),
            SessionError::Flv(error) => SessionErrorView::Flv(error@),
            SessionError::H264(error) => SessionErrorView::H264(error),
            SessionError::Aac(error) => SessionErrorView::Aac(error),
            SessionError::Description(error) => SessionErrorView::Description(error),
            SessionError::Nameless => SessionErrorView::Nameless,
            SessionError::NoApp => SessionErrorView::NoApp,
            SessionError::NoStream => SessionErrorView::NoStream,
            SessionError::NotPublishing(kind) => SessionErrorView::NotPublishing(kind),
            SessionError::NoParameters(kind) => SessionErrorView::NoParameters(kind),
            SessionError::ParametersChanged(kind) => SessionErrorView::ParametersChanged(kind),
            SessionError::UnreadMessage(kind) => SessionErrorView::UnreadMessage(kind),
        }
    }
}

/// A settled stream: which id each of its tracks has, and how wide the length
/// prefix of its pictures is.
struct Published {
    video: Option<(TrackId, usize)>,
    audio: Option<TrackId>,
}

/// A settled stream.
pub struct PublishedView {
    pub video: Option<(nat, nat)>,
    pub audio: Option<nat>,
}

impl Published {
    spec fn view(&self) -> PublishedView {
        PublishedView {
            video: match self.video {
                Some((track, size)) => Some((track.spec_index(), size as nat)),
                None => None,
            },
            audio: match self.audio {
                Some(track) => Some(track.spec_index()),
                None => None,
            },
        }
    }
}

/// How far a connection has come.
#[derive(Clone, Copy, Debug, PartialEq, Eq, Structural)]
pub enum Stage {
    /// Before `connect`.
    New,
    /// Connected, and not yet publishing.
    Connected,
    /// `publish` accepted. Media may arrive.
    Publishing,
}

/// Turns RTMP's counter into a timeline that starts at zero and goes
/// forwards.
///
/// The counter is 32 bits of milliseconds from an origin the publisher chose
/// and never states, so the first message seen is the origin, and it wraps
/// after 49 days. A stream that ran that long and then went back to zero is
/// not starting again.
struct Timeline {
    origin: Option<u32>,
    last: u32,
    wraps: u64,
}

/// What a timeline remembers.
pub struct TimelineView {
    pub origin: Option<u32>,
    pub last: u32,
    pub wraps: nat,
}

/// A timeline that has seen nothing.
pub open spec fn no_timeline() -> TimelineView {
    TimelineView { origin: None, last: 0, wraps: 0 }
}

/// A timeline after a timestamp more.
///
/// A large step backwards is the counter wrapping; a small one is a publisher
/// whose timestamps are out of order, which happens and which nothing can be
/// done about.
pub open spec fn timed(t: TimelineView, timestamp: u32) -> TimelineView {
    TimelineView {
        origin: match t.origin {
            Some(origin) => Some(origin),
            None => Some(timestamp),
        },
        last: timestamp,
        wraps: if t.last - timestamp > u32::MAX / 2 {
            t.wraps + 1
        } else {
            t.wraps
        },
    }
}

/// How many milliseconds in a timeline's last timestamp is: none at the
/// origin, and no fewer before it.
pub open spec fn elapsed(t: TimelineView) -> nat {
    let counted = (t.wraps * 0x1_0000_0000) as nat % 0x1_0000_0000_0000_0000 + t.last;
    let bounded = if counted > u64::MAX {
        u64::MAX as int
    } else {
        counted as int
    };
    if bounded < t.origin->0 {
        0
    } else {
        (bounded - t.origin->0) as nat
    }
}

/// A presentation time in milliseconds, which is a decode time plus an offset
/// that is negative wherever there are B-frames. Nothing is before the start.
pub open spec fn presented(decoded: nat, composition_time: i32) -> nat {
    if decoded + composition_time < 0 {
        0
    } else {
        (decoded + composition_time) as nat
    }
}

impl Timeline {
    spec fn view(&self) -> TimelineView {
        TimelineView { origin: self.origin, last: self.last, wraps: self.wraps as nat }
    }

    /// Takes in a timestamp, and says when it is.
    fn at(&mut self, timestamp: u32) -> (time: MediaTime)
        requires
            old(self)@.wraps < u64::MAX,
        ensures
            final(self)@ == timed(old(self)@, timestamp),
            time@ == elapsed(final(self)@) * 1_000_000,
            elapsed(final(self)@) <= u64::MAX,
    {
        let origin: u32 = match self.origin {
            Some(origin) => origin,
            None => timestamp,
        };
        self.origin = Some(origin);
        if timestamp < self.last && self.last - timestamp > u32::MAX / 2 {
            self.wraps = self.wraps + 1;
        }
        self.last = timestamp;
        let wraps: u64 = self.wraps;
        let shifted: u64 = (wraps as u128 * 0x1_0000_0000 % 0x1_0000_0000_0000_0000) as u64;
        let counted: u64 = shifted.saturating_add(timestamp as u64);
        MediaTime::from_millis(counted.saturating_sub(origin as u64))
    }
}

/// A presentation time, which is a decode time plus an offset that is negative
/// wherever there are B-frames.
fn offset(dts: MediaTime, composition_time: i32) -> (pts: MediaTime)
    requires
        dts@ + 0x8000_0000 * 1_000_000 < END_OF_TIME,
    ensures
        pts@ == if dts@ + composition_time * 1_000_000 < 0 {
            0
        } else {
            (dts@ + composition_time * 1_000_000) as nat
        },
{
    if composition_time < 0 {
        // Only at the very start of a stream, where the first picture's decode
        // time is zero and its offset points before it. There is no earlier
        // moment to name.
        dts.saturating_sub(MediaTime::from_millis((-(composition_time as i64)) as u64))
    } else {
        dts.plus(MediaTime::from_millis(composition_time as u64))
    }
}

/// A message to write on a chunk stream, at no particular time.
pub open spec fn sent(csid: u32, kind: MessageType, stream_id: u32, payload: Seq<u8>) -> ActionView {
    ActionView::Send { csid, message: MessageView { timestamp: 0, kind, stream_id, payload } }
}

/// A command's answer, which carries the transaction number it answers.
pub open spec fn result_of(transaction: u64, values: Seq<ValueView>) -> ActionView {
    sent(
        3,
        MessageType::Amf0Command,
        0,
        emitted_all(
            seq![ValueView::String("_result"@), ValueView::Number(transaction)] + values,
        ).bytes,
    )
}

/// A status: how it went, in a code and in words, and whatever else there is
/// to say.
pub open spec fn status_of(
    code: Seq<char>,
    description: Seq<char>,
    extra: (Seq<char>, ValueView),
) -> ValueView {
    ValueView::Object(
        seq![
            ("level"@, ValueView::String("status"@)),
            ("code"@, ValueView::String(code)),
            ("description"@, ValueView::String(description)),
            extra,
        ],
    )
}

/// A status told to the publisher rather than asked of it, so it answers no
/// transaction and goes on the stream it is about.
pub open spec fn told_status(status: ValueView) -> ActionView {
    sent(
        3,
        MessageType::Amf0Command,
        PUBLISH_STREAM,
        emitted_all(
            seq![
                ValueView::String("onStatus"@),
                ValueView::Number(ZERO),
                ValueView::Null,
                status,
            ],
        ).bytes,
    )
}

/// What `connect` is answered with. The chunk size takes effect after the
/// message that announces it, never before. The bandwidth's limit type is 2,
/// "dynamic": the peer may use the window as it sees fit.
pub open spec fn connect_answer(transaction: u64) -> Seq<ActionView> {
    seq![
        sent(2, MessageType::WindowAckSize, 0, be32(WINDOW_SIZE as int)),
        sent(2, MessageType::SetPeerBandwidth, 0, be32(WINDOW_SIZE as int).push(2)),
        sent(2, MessageType::SetChunkSize, 0, be32(CHUNK_SIZE as int)),
        ActionView::SetChunkSize(CHUNK_SIZE as nat),
        result_of(
            transaction,
            seq![
                ValueView::Object(
                    seq![
                        ("fmsVer"@, ValueView::String("FMS/3,0,1,123"@)),
                        ("capabilities"@, ValueView::Number(THIRTY_ONE)),
                    ],
                ),
                status_of(
                    "NetConnection.Connect.Success"@,
                    "Connection succeeded."@,
                    ("objectEncoding"@, ValueView::Number(ZERO)),
                ),
            ],
        ),
    ]
}

/// What `createStream` is answered with.
pub open spec fn create_stream_answer(transaction: u64) -> Seq<ActionView> {
    seq![result_of(transaction, seq![ValueView::Null, ValueView::Number(ONE)])]
}

/// What `publish` is answered with: user control event 0, "Stream Begin", and
/// a status.
pub open spec fn publish_answer(key: Seq<char>) -> Seq<ActionView> {
    seq![
        sent(2, MessageType::UserControl, 0, be16(0) + be32(PUBLISH_STREAM as int)),
        told_status(
            status_of(
                "NetStream.Publish.Start"@,
                "Publishing."@,
                ("details"@, ValueView::String(key)),
            ),
        ),
    ]
}

fn send(csid: ChunkStreamId, kind: MessageType, stream_id: u32, payload: Bytes) -> (action: Action)
    ensures
        action@ == sent(csid.spec_value(), kind, stream_id, payload@),
{
    Action::Send {
        csid,
        message: Box::new(Message { timestamp: 0, kind, stream_id, payload }),
    }
}

fn four_bytes(value: u32) -> (payload: BytesMut)
    ensures
        payload@ == be32(value as int),
{
    let mut payload = BytesMut::new();
    put_u32(&mut payload, value);
    assert(payload@ =~= be32(value as int));
    payload
}

fn property(key: &str, value: Value) -> (property: (String, Value))
    ensures
        property.0@ == key@,
        property.1 == value,
{
    (key.to_owned(), value)
}

fn text_value(text: &str) -> (value: Value)
    ensures
        value@ == ValueView::String(text@),
{
    Value::String(text.to_owned())
}

/// Values that can be written, written.
fn written(values: &Vec<Value>) -> (payload: Bytes)
    requires
        emitted_all(values_view(values@)).stopped is None,
    ensures
        payload@ == emitted_all(values_view(values@)).bytes,
{
    let mut out = BytesMut::new();
    let _ = write_all(&mut out, values.as_slice());
    assert(out@ =~= emitted_all(values_view(values@)).bytes);
    out.freeze()
}

/// A short text can be written, as a value and, unless it is empty, as a key.
proof fn lemma_short_text_is_writable(text: Seq<char>)
    requires
        text.len() <= 0x3fff,
    ensures
        emitted(ValueView::String(text)).stopped is None,
        text.len() > 0 ==> writable_key(text),
{
    lemma_encoded_length(text);
}

proof fn lemma_status_is_writable(
    code: Seq<char>,
    description: Seq<char>,
    extra: (Seq<char>, ValueView),
)
    requires
        code.len() <= 0x3fff,
        description.len() <= 0x3fff,
        writable_key(extra.0),
        emitted(extra.1).stopped is None,
    ensures
        emitted(status_of(code, description, extra)).stopped is None,
{
    reveal_strlit("level");
    reveal_strlit("status");
    reveal_strlit("code");
    reveal_strlit("description");
    lemma_short_text_is_writable("level"@);
    lemma_short_text_is_writable("status"@);
    lemma_short_text_is_writable("code"@);
    lemma_short_text_is_writable("description"@);
    lemma_short_text_is_writable(code);
    lemma_short_text_is_writable(description);
    lemma_properties_writable(status_of(code, description, extra)->Object_0);
}

/// A command's answer, which carries the transaction number it answers.
fn result(transaction: u64, values: Vec<Value>) -> (action: Action)
    requires
        forall|i: int|
            0 <= i < values@.len() ==> emitted((#[trigger] values@[i])@).stopped is None,
    ensures
        action@ == result_of(transaction, values_view(values@)),
{
    let ghost given = values_view(values@);
    let ghost before = values@;
    let mut values = values;
    let mut all: Vec<Value> = Vec::new();
    all.push(text_value("_result"));
    all.push(Value::Number(transaction));
    all.append(&mut values);
    proof {
        reveal_strlit("_result");
        lemma_short_text_is_writable("_result"@);
        let expected = seq![ValueView::String("_result"@), ValueView::Number(transaction)] + given;
        assert(values_view(all@) =~= expected);
        assert forall|i: int| 0 <= i < expected.len() implies emitted(
            #[trigger] expected[i],
        ).stopped is None by {
            if i >= 2 {
                assert(expected[i] == before[i - 2]@);
            }
        }
        lemma_values_writable(expected);
    }
    let payload = written(&all);
    send(ChunkStreamId::command(), MessageType::Amf0Command, 0, payload)
}

fn status(code: &str, description: &str, extra: (String, Value)) -> (status: Value)
    ensures
        status@ == status_of(code@, description@, (extra.0@, extra.1@)),
{
    let mut properties: Vec<(String, Value)> = Vec::new();
    properties.push(property("level", text_value("status")));
    properties.push(property("code", text_value(code)));
    properties.push(property("description", text_value(description)));
    properties.push(extra);
    assert(properties_view(properties@) =~= status_of(
        code@,
        description@,
        (extra.0@, extra.1@),
    )->Object_0);
    Value::Object(properties)
}

/// A status told to the publisher rather than asked of it, so it answers no
/// transaction and goes on the stream it is about.
fn on_status(status: Value) -> (action: Action)
    requires
        emitted(status@).stopped is None,
    ensures
        action@ == told_status(status@),
{
    let mut all: Vec<Value> = Vec::new();
    all.push(text_value("onStatus"));
    all.push(Value::Number(ZERO));
    all.push(Value::Null);
    all.push(status);
    proof {
        reveal_strlit("onStatus");
        lemma_short_text_is_writable("onStatus"@);
        let expected = seq![
            ValueView::String("onStatus"@),
            ValueView::Number(ZERO),
            ValueView::Null,
            status@,
        ];
        assert(values_view(all@) =~= expected);
        lemma_values_writable(expected);
    }
    let payload = written(&all);
    send(ChunkStreamId::command(), MessageType::Amf0Command, PUBLISH_STREAM, payload)
}

fn connect_reply(transaction: u64) -> (actions: Vec<Action>)
    ensures
        action_views(actions@) == connect_answer(transaction),
{
    let window = four_bytes(WINDOW_SIZE);
    let mut bandwidth = four_bytes(WINDOW_SIZE);
    put_u8(&mut bandwidth, 2);
    let chunk_size = four_bytes(CHUNK_SIZE as u32);

    let mut properties: Vec<(String, Value)> = Vec::new();
    properties.push(property("fmsVer", text_value("FMS/3,0,1,123")));
    properties.push(property("capabilities", Value::Number(THIRTY_ONE)));
    let ghost server = seq![
        ("fmsVer"@, ValueView::String("FMS/3,0,1,123"@)),
        ("capabilities"@, ValueView::Number(THIRTY_ONE)),
    ];
    assert(properties_view(properties@) =~= server);
    let succeeded = status(
        "NetConnection.Connect.Success",
        "Connection succeeded.",
        property("objectEncoding", Value::Number(ZERO)),
    );
    proof {
        reveal_strlit("fmsVer");
        reveal_strlit("FMS/3,0,1,123");
        reveal_strlit("capabilities");
        reveal_strlit("NetConnection.Connect.Success");
        reveal_strlit("Connection succeeded.");
        reveal_strlit("objectEncoding");
        lemma_short_text_is_writable("fmsVer"@);
        lemma_short_text_is_writable("FMS/3,0,1,123"@);
        lemma_short_text_is_writable("capabilities"@);
        lemma_short_text_is_writable("objectEncoding"@);
        lemma_properties_writable(server);
        lemma_status_is_writable(
            "NetConnection.Connect.Success"@,
            "Connection succeeded."@,
            ("objectEncoding"@, ValueView::Number(ZERO)),
        );
    }
    let mut values: Vec<Value> = Vec::new();
    values.push(Value::Object(properties));
    values.push(succeeded);
    let ghost answer = seq![
        ValueView::Object(server),
        status_of(
            "NetConnection.Connect.Success"@,
            "Connection succeeded."@,
            ("objectEncoding"@, ValueView::Number(ZERO)),
        ),
    ];
    assert(values_view(values@) =~= answer);

    let mut actions: Vec<Action> = Vec::new();
    actions.push(
        send(ChunkStreamId::control(), MessageType::WindowAckSize, 0, window.freeze()),
    );
    actions.push(
        send(ChunkStreamId::control(), MessageType::SetPeerBandwidth, 0, bandwidth.freeze()),
    );
    actions.push(
        send(ChunkStreamId::control(), MessageType::SetChunkSize, 0, chunk_size.freeze()),
    );
    actions.push(Action::SetChunkSize(CHUNK_SIZE));
    actions.push(result(transaction, values));
    assert(action_views(actions@) =~= connect_answer(transaction));
    actions
}

fn create_stream_reply(transaction: u64) -> (actions: Vec<Action>)
    ensures
        action_views(actions@) == create_stream_answer(transaction),
{
    let mut values: Vec<Value> = Vec::new();
    values.push(Value::Null);
    values.push(Value::Number(ONE));
    assert(values_view(values@) =~= seq![ValueView::Null, ValueView::Number(ONE)]);
    let mut actions: Vec<Action> = Vec::new();
    actions.push(result(transaction, values));
    assert(action_views(actions@) =~= create_stream_answer(transaction));
    actions
}

fn publish_reply(key: &[char]) -> (actions: Vec<Action>)
    requires
        encode_utf8(key@).len() <= 0xffff_ffff,
    ensures
        action_views(actions@) == publish_answer(key@),
{
    let mut begin = BytesMut::new();
    put_u16(&mut begin, 0);
    put_u32(&mut begin, PUBLISH_STREAM);
    assert(begin@ =~= be16(0) + be32(PUBLISH_STREAM as int));
    let started = status(
        "NetStream.Publish.Start",
        "Publishing.",
        property("details", Value::String(text_of(key))),
    );
    proof {
        reveal_strlit("NetStream.Publish.Start");
        reveal_strlit("Publishing.");
        reveal_strlit("details");
        lemma_short_text_is_writable("details"@);
        lemma_status_is_writable(
            "NetStream.Publish.Start"@,
            "Publishing."@,
            ("details"@, ValueView::String(key@)),
        );
    }
    let mut actions: Vec<Action> = Vec::new();
    actions.push(send(ChunkStreamId::control(), MessageType::UserControl, 0, begin.freeze()));
    actions.push(on_status(started));
    assert(action_views(actions@) =~= publish_answer(key@));
    actions
}

/// One publishing connection's state.
///
/// Fed whole messages, in the order they arrived. See the module docs.
pub struct Session {
    stage: Stage,
    app: String,
    path: String,
    video: Option<h264::AvcConfig>,
    audio: Option<aac::Parameters>,
    published: Option<Published>,
    timeline: Timeline,
    received: u64,
    acknowledged: u64,
}

/// What a [`Session`] remembers.
pub struct SessionView {
    pub stage: Stage,
    pub app: Seq<char>,
    pub path: Seq<char>,
    /// The video sequence header, once there has been one.
    pub video: Option<AvcConfigView>,
    /// The audio sequence header, once there has been one.
    pub audio: Option<Seq<u8>>,
    /// The tracks, once the description is settled.
    pub published: Option<PublishedView>,
    pub timeline: TimelineView,
    /// How many bytes have arrived.
    pub received: nat,
    /// How many of them had when the last acknowledgement was owed.
    pub acknowledged: nat,
}

impl View for Session {
    type V = SessionView;

    closed spec fn view(&self) -> SessionView {
        SessionView {
            stage: self.stage,
            app: self.app@,
            path: self.path@,
            video: match self.video {
                Some(config) => Some(config@),
                None => None,
            },
            audio: match self.audio {
                Some(parameters) => Some(parameters@),
                None => None,
            },
            published: match self.published {
                Some(published) => Some(published@),
                None => None,
            },
            timeline: self.timeline@,
            received: self.received as nat,
            acknowledged: self.acknowledged as nat,
        }
    }
}

impl SessionView {
    /// What holds of every session: no more has been acknowledged than has
    /// arrived.
    pub open spec fn wf(self) -> bool {
        self.acknowledged <= self.received
    }
}

/// A connection that has done nothing but shake hands.
pub open spec fn fresh_session() -> SessionView {
    SessionView {
        stage: Stage::New,
        app: Seq::empty(),
        path: Seq::empty(),
        video: None,
        audio: None,
        published: None,
        timeline: no_timeline(),
        received: 0,
        acknowledged: 0,
    }
}

/// What a session makes of a message: what it wants done or why it cannot go
/// on, and the session after it.
pub struct Handled {
    pub outcome: Result<Seq<ActionView>, SessionErrorView>,
    pub session: SessionView,
}

/// A session that cannot go on.
pub open spec fn refused(s: SessionView, error: SessionErrorView) -> Handled {
    Handled { outcome: Err(error), session: s }
}

/// A session that wants some things done.
pub open spec fn answered(s: SessionView, actions: Seq<ActionView>) -> Handled {
    Handled { outcome: Ok(actions), session: s }
}

/// What a session makes of a message.
///
/// Metadata is read past: everything in it about the tracks is also in the
/// sequence headers, stated by the encoder rather than by the muxer. The chunk
/// layer has already acted on `SetChunkSize` and `Abort`, and the rest are the
/// peer's own housekeeping or a type nobody defines.
pub open spec fn handled(s: SessionView, message: MessageView) -> Handled {
    if message.kind == MessageType::Amf0Command {
        commanded(s, message.payload)
    } else if message.kind == MessageType::Video {
        pictured(s, message)
    } else if message.kind == MessageType::Audio {
        sounded(s, message)
    } else if message.kind == MessageType::Amf3Command || message.kind == MessageType::Amf3Data
        || message.kind == MessageType::Aggregate {
        refused(s, SessionErrorView::UnreadMessage(message.kind))
    } else {
        answered(s, Seq::empty())
    }
}

/// The name of a command: its first value.
pub open spec fn command_name(values: Seq<ValueView>) -> Option<Seq<char>> {
    if values.len() > 0 && values[0] is String {
        Some(values[0]->String_0)
    } else {
        None
    }
}

/// The transaction a command asks to be answered with: its second value.
pub open spec fn transaction_of(values: Seq<ValueView>) -> u64 {
    if values.len() > 1 && values[1] is Number {
        values[1]->Number_0
    } else {
        ZERO
    }
}

/// What a session makes of a command.
///
/// A command this is not a server for is not answered: not answering is the
/// answer.
pub open spec fn commanded(s: SessionView, payload: Seq<u8>) -> Handled {
    match all_at(payload, 0) {
        Err(error) => refused(s, SessionErrorView::Amf0(error)),
        Ok(values) => match command_name(values) {
            None => refused(s, SessionErrorView::Nameless),
            Some(name) => if name == "connect"@ {
                connected(s, values)
            } else if name == "createStream"@ {
                answered(s, create_stream_answer(transaction_of(values)))
            } else if name == "publish"@ {
                publishing(s, values)
            } else if name == "deleteStream"@ || name == "closeStream"@ || name
                == "FCUnpublish"@ {
                answered(
                    SessionView { stage: Stage::Connected, published: None, ..s },
                    if s.stage == Stage::Publishing {
                        seq![ActionView::Unpublish]
                    } else {
                        Seq::empty()
                    },
                )
            } else {
                answered(s, Seq::empty())
            },
        },
    }
}

/// The app that `connect` names, in the object that is its third value.
pub open spec fn named_app(values: Seq<ValueView>) -> Option<Seq<char>> {
    if values.len() > 2 {
        match values[2].get("app"@) {
            Some(ValueView::String(app)) => Some(app),
            _ => None,
        }
    } else {
        None
    }
}

/// What a session makes of `connect`.
pub open spec fn connected(s: SessionView, values: Seq<ValueView>) -> Handled {
    match named_app(values) {
        None => refused(s, SessionErrorView::NoApp),
        Some(app) => answered(
            SessionView { stage: Stage::Connected, app: trim(app, Edge::Slash), ..s },
            connect_answer(transaction_of(values)),
        ),
    }
}

/// The stream key that `publish` names, in its fourth value, without the query
/// an encoder puts on it.
pub open spec fn named_key(values: Seq<ValueView>) -> Option<Seq<char>> {
    if values.len() > 3 && values[3] is String {
        let key = trim(before(values[3]->String_0, '?'), Edge::Slash);
        if key.len() > 0 {
            Some(key)
        } else {
            None
        }
    } else {
        None
    }
}

/// What a session makes of `publish`: the path is the app and the stream key,
/// and what is published there is still to be said.
pub open spec fn publishing(s: SessionView, values: Seq<ValueView>) -> Handled {
    match named_key(values) {
        None => refused(s, SessionErrorView::NoStream),
        Some(key) => answered(
            SessionView {
                stage: Stage::Publishing,
                path: s.app + "/"@ + key,
                published: None,
                ..s
            },
            publish_answer(key),
        ),
    }
}

/// What the sequence headers so far describe: the pictures, if any, and then
/// the sound, if any.
pub open spec fn stated_codecs(s: SessionView) -> Seq<CodecView> {
    let video = match s.video {
        Some(config) => seq![CodecView::H264(config.parameters)],
        None => Seq::empty(),
    };
    match s.audio {
        Some(record) => video.push(CodecView::Aac(record)),
        None => video,
    }
}

/// The tracks those are: the pictures the first, where there are any, and the
/// sound the one after.
pub open spec fn stated_tracks(s: SessionView) -> PublishedView {
    PublishedView {
        video: match s.video {
            Some(config) => Some((0, config.nal_length_size)),
            None => None,
        },
        audio: match s.audio {
            Some(_) => Some(
                if s.video is Some {
                    1
                } else {
                    0
                },
            ),
            None => None,
        },
    }
}

/// What holds of every session: the tracks of a settled stream are the ones its
/// sequence headers describe, and a length prefix is one, two or four bytes wide.
pub open spec fn in_step(s: SessionView) -> bool {
    &&& s.published matches Some(published) ==> published == stated_tracks(s) && undescribable(
        stated_codecs(s),
    ) is None
    &&& s.video matches Some(config) ==> prefix_width(config.nal_length_size)
}

/// A session whose description is settled, and what that asks for: the first
/// time, that the stream be published.
pub open spec fn settled(s: SessionView) -> Handled {
    if s.published is Some {
        answered(s, Seq::empty())
    } else {
        let codecs = stated_codecs(s);
        if codecs.len() == 0 {
            refused(s, SessionErrorView::NoParameters("media"))
        } else {
            match undescribable(codecs) {
                Some(error) => refused(s, SessionErrorView::Description(error)),
                None => answered(
                    SessionView { published: Some(stated_tracks(s)), ..s },
                    seq![ActionView::Publish { path: s.path, description: codecs }],
                ),
            }
        }
    }
}

/// What a session makes of a video sequence header. A publisher repeating what
/// it already said is common and harmless.
pub open spec fn stated_video(s: SessionView, config: AvcConfigView) -> Handled {
    if s.video == Some(config) {
        answered(s, Seq::empty())
    } else if s.published is Some || s.video is Some {
        refused(s, SessionErrorView::ParametersChanged("video"))
    } else {
        answered(SessionView { video: Some(config), ..s }, Seq::empty())
    }
}

/// What a session makes of an audio sequence header. A publisher repeating
/// what it already said is common and harmless.
pub open spec fn stated_audio(s: SessionView, record: Seq<u8>) -> Handled {
    if s.audio == Some(record) {
        answered(s, Seq::empty())
    } else if s.published is Some || s.audio is Some {
        refused(s, SessionErrorView::ParametersChanged("audio"))
    } else {
        answered(SessionView { audio: Some(record), ..s }, Seq::empty())
    }
}

/// What a session makes of a video message.
///
/// The end of a sequence says there will be no more pictures, without saying
/// the stream is over: the track stays described and simply goes quiet.
pub open spec fn pictured(s: SessionView, message: MessageView) -> Handled {
    if s.stage != Stage::Publishing {
        refused(s, SessionErrorView::NotPublishing("video"))
    } else {
        match video_of(message.payload) {
            Err(error) => refused(s, SessionErrorView::Flv(error)),
            Ok(VideoTagView::End) => answered(s, Seq::empty()),
            Ok(VideoTagView::SequenceHeader(record)) => match config_of(record) {
                Err(error) => refused(s, SessionErrorView::H264(error)),
                Ok(config) => stated_video(s, config),
            },
            Ok(VideoTagView::Picture { composition_time, data, .. }) => picture_unit(
                s,
                message.timestamp,
                composition_time,
                data,
            ),
        }
    }
}

/// What a session makes of a picture.
///
/// One that arrives before its own sequence header cannot be read, whatever
/// else has been described by then, and nothing settles on its account.
///
/// One that arrives after a description settled without pictures means the
/// first frame was sound and the publisher only then began sending them: a
/// different stream.
pub open spec fn picture_unit(
    s: SessionView,
    timestamp: u32,
    composition_time: i32,
    data: Seq<u8>,
) -> Handled {
    let first = if s.published is None && s.video is None && s.audio is Some {
        refused(s, SessionErrorView::NoParameters("video"))
    } else {
        settled(s)
    };
    match first.outcome {
        Err(error) => first,
        Ok(actions) => match first.session.published->0.video {
            None => refused(first.session, SessionErrorView::ParametersChanged("video")),
            Some((track, size)) => {
                let timeline = timed(first.session.timeline, timestamp);
                let after = SessionView { timeline, ..first.session };
                match prefixed_units(data, 0, size) {
                    Err(error) => refused(after, SessionErrorView::H264(error)),
                    Ok(nalus) => answered(
                        after,
                        actions.push(
                            ActionView::Unit(
                                UnitView::Video {
                                    track,
                                    nalus,
                                    pts: presented(elapsed(timeline), composition_time)
                                        * 1_000_000,
                                    dts: elapsed(timeline) * 1_000_000,
                                    keyframe: has(nalus, NalType::Idr),
                                },
                            ),
                        ),
                    ),
                }
            },
        },
    }
}

/// What a session makes of an audio message.
pub open spec fn sounded(s: SessionView, message: MessageView) -> Handled {
    if s.stage != Stage::Publishing {
        refused(s, SessionErrorView::NotPublishing("audio"))
    } else {
        match audio_of(message.payload) {
            Err(error) => refused(s, SessionErrorView::Flv(error)),
            Ok(AudioTagView::SequenceHeader(record)) => match fields_of(record) {
                Err(error) => refused(s, SessionErrorView::Aac(error)),
                Ok(_) => stated_audio(s, record),
            },
            Ok(AudioTagView::Frame(frame)) => sound_unit(s, message.timestamp, frame),
        }
    }
}

/// What a session makes of a frame of sound. One that arrives before its own
/// sequence header is refused as a picture is.
pub open spec fn sound_unit(s: SessionView, timestamp: u32, frame: Seq<u8>) -> Handled {
    let first = if s.published is None && s.audio is None && s.video is Some {
        refused(s, SessionErrorView::NoParameters("audio"))
    } else {
        settled(s)
    };
    match first.outcome {
        Err(error) => first,
        Ok(actions) => match first.session.published->0.audio {
            None => refused(first.session, SessionErrorView::ParametersChanged("audio")),
            Some(track) => {
                let timeline = timed(first.session.timeline, timestamp);
                answered(
                    SessionView { timeline, ..first.session },
                    actions.push(
                        ActionView::Unit(
                            UnitView::Audio { track, frame, pts: elapsed(timeline) * 1_000_000 },
                        ),
                    ),
                )
            },
        },
    }
}

/// A session after so many bytes more, and the acknowledgement it owes, if it
/// does. The count in it is 32 bits and wraps, which both ends expect.
pub open spec fn counted(s: SessionView, bytes: nat) -> (Option<ActionView>, SessionView) {
    let received = s.received + bytes;
    if received - s.acknowledged < WINDOW_SIZE {
        (None, SessionView { received, ..s })
    } else {
        (
            Some(
                sent(
                    2,
                    MessageType::Acknowledgement,
                    0,
                    be32(received as int % 0x1_0000_0000),
                ),
            ),
            SessionView { received, acknowledged: received, ..s },
        )
    }
}

/// Whether what a handler of messages returned is what the session makes of
/// the message.
pub open spec fn returned(outcome: Result<Vec<Action>, SessionError>, handled: Handled) -> bool {
    match outcome {
        Ok(actions) => handled.outcome == Ok::<_, SessionErrorView>(action_views(actions@)),
        Err(error) => handled.outcome == Err::<Seq<ActionView>, _>(error@),
    }
}

impl Default for Session {
    fn default() -> (session: Self)
        ensures
            session@ == fresh_session(),
            session@.wf(),
    {
        Self::new()
    }
}

fn nothing() -> (actions: Vec<Action>)
    ensures
        action_views(actions@) == Seq::<ActionView>::empty(),
{
    let actions: Vec<Action> = Vec::new();
    assert(action_views(actions@) =~= Seq::empty());
    actions
}

impl Session {
    /// A connection that has done nothing but shake hands.
    pub fn new() -> (session: Self)
        ensures
            session@ == fresh_session(),
            session@.wf(),
    {
        Self {
            stage: Stage::New,
            app: String::new(),
            path: String::new(),
            video: None,
            audio: None,
            published: None,
            timeline: Timeline { origin: None, last: 0, wraps: 0 },
            received: 0,
            acknowledged: 0,
        }
    }

    /// The path this is publishing to, once `publish` has named one.
    pub fn path(&self) -> (path: Option<&str>)
        ensures
            match path {
                Some(path) => self@.stage == Stage::Publishing && path@ == self@.path,
                None => self@.stage != Stage::Publishing,
            },
    {
        if self.stage == Stage::Publishing {
            Some(self.path.as_str())
        } else {
            None
        }
    }

    /// Counts bytes read from the peer, and says when it is owed an
    /// acknowledgement.
    ///
    /// Separate from [`Session::handle`] because the number is the socket's
    /// to know: what has arrived includes chunk headers, and the partial
    /// message the reader is still holding. A publisher that never hears an
    /// acknowledgement will eventually stop sending.
    pub fn received(&mut self, bytes: usize) -> (owed: Option<Action>)
        requires
            old(self)@.wf(),
            old(self)@.received + bytes <= u64::MAX,
        ensures
            final(self)@.wf(),
            final(self)@ == counted(old(self)@, bytes as nat).1,
            match owed {
                Some(action) => counted(old(self)@, bytes as nat).0 == Some(action@),
                None => counted(old(self)@, bytes as nat).0 is None,
            },
    {
        self.received = self.received + bytes as u64;
        if self.received - self.acknowledged < WINDOW_SIZE as u64 {
            return None;
        }
        self.acknowledged = self.received;
        let payload = four_bytes((self.received % 0x1_0000_0000) as u32);
        Some(
            send(ChunkStreamId::control(), MessageType::Acknowledgement, 0, payload.freeze()),
        )
    }

    /// Takes one message and says what to do about it.
    ///
    /// An empty result means the message needed nothing: an acknowledgement, a
    /// chunk size the reader has already applied, a command this does not
    /// answer.
    pub fn handle(&mut self, message: Message) -> (outcome: Result<Vec<Action>, SessionError>)
        requires
            old(self)@.wf(),
            message@.kind == MessageType::Amf0Command ==> message@.payload.len() <= u32::MAX,
            old(self)@.timeline.wraps < u64::MAX,
        ensures
            final(self)@.wf(),
            final(self)@ == handled(old(self)@, message@).session,
            returned(outcome, handled(old(self)@, message@)),
    {
        match message.kind {
            MessageType::Amf0Command => self.command(&message.payload),
            MessageType::Video => self.video(&message),
            MessageType::Audio => self.audio(&message),
            MessageType::Amf3Command => Err(SessionError::UnreadMessage(message.kind)),
            MessageType::Amf3Data => Err(SessionError::UnreadMessage(message.kind)),
            MessageType::Aggregate => Err(SessionError::UnreadMessage(message.kind)),
            _ => Ok(nothing()),
        }
    }

    fn command(&mut self, payload: &Bytes) -> (outcome: Result<Vec<Action>, SessionError>)
        requires
            old(self)@.wf(),
            payload@.len() <= u32::MAX,
        ensures
            final(self)@.wf(),
            final(self)@ == commanded(old(self)@, payload@).session,
            returned(outcome, commanded(old(self)@, payload@)),
    {
        let values: Vec<Value> = match read_all(octets(payload)) {
            Ok(values) => values,
            Err(error) => {
                return Err(SessionError::Amf0(error));
            },
        };
        let ghost view = values_view(values@);
        if values.len() == 0 {
            return Err(SessionError::Nameless);
        }
        assert(view[0] == values@[0]@);
        let name: &str = match values[0].as_str() {
            Some(name) => name,
            None => {
                return Err(SessionError::Nameless);
            },
        };
        let mut transaction: u64 = ZERO;
        if values.len() > 1 {
            assert(view[1] == values@[1]@);
            if let Some(bits) = values[1].as_bits() {
                transaction = bits;
            }
        }
        assert(transaction == transaction_of(view));
        if same_text(name, "connect") {
            return self.connect(values.as_slice(), transaction);
        }
        if same_text(name, "createStream") {
            return Ok(create_stream_reply(transaction));
        }
        if same_text(name, "publish") {
            proof {
                if view.len() > 3 {
                    lemma_read_strings_fit(payload@, 0, 3);
                }
            }
            return self.publish(values.as_slice());
        }
        if same_text(name, "deleteStream") || same_text(name, "closeStream") || same_text(
            name,
            "FCUnpublish",
        ) {
            let was = self.stage;
            self.stage = Stage::Connected;
            self.published = None;
            if was == Stage::Publishing {
                let mut actions: Vec<Action> = Vec::new();
                actions.push(Action::Unpublish);
                assert(action_views(actions@) =~= seq![ActionView::Unpublish]);
                return Ok(actions);
            }
        }
        Ok(nothing())
    }

    fn connect(&mut self, values: &[Value], transaction: u64) -> (outcome: Result<
        Vec<Action>,
        SessionError,
    >)
        requires
            old(self)@.wf(),
            transaction == transaction_of(values_view(values@)),
        ensures
            final(self)@.wf(),
            final(self)@ == connected(old(self)@, values_view(values@)).session,
            returned(outcome, connected(old(self)@, values_view(values@))),
    {
        let ghost view = values_view(values@);
        if values.len() <= 2 {
            return Err(SessionError::NoApp);
        }
        assert(view[2] == values@[2]@);
        let app: &str = match values[2].get("app") {
            Some(app) => match app.as_str() {
                Some(app) => app,
                None => {
                    return Err(SessionError::NoApp);
                },
            },
            None => {
                return Err(SessionError::NoApp);
            },
        };
        let letters = characters(app);
        self.app = text_of(trim_chars(letters.as_slice(), Edge::Slash));
        self.stage = Stage::Connected;
        Ok(connect_reply(transaction))
    }

    fn publish(&mut self, values: &[Value]) -> (outcome: Result<Vec<Action>, SessionError>)
        requires
            old(self)@.wf(),
            values@.len() > 3 ==> (values_view(values@)[3] matches ValueView::String(key)
                ==> encode_utf8(key).len() <= 0xffff_ffff),
        ensures
            final(self)@.wf(),
            final(self)@ == publishing(old(self)@, values_view(values@)).session,
            returned(outcome, publishing(old(self)@, values_view(values@))),
    {
        let ghost view = values_view(values@);
        if values.len() <= 3 {
            return Err(SessionError::NoStream);
        }
        assert(view[3] == values@[3]@);
        let key: &str = match values[3].as_str() {
            Some(key) => key,
            None => {
                return Err(SessionError::NoStream);
            },
        };
        let letters = characters(key);
        let end: usize = position(letters.as_slice(), '?');
        let stem = slice_subrange(letters.as_slice(), 0, end);
        assert(stem@ =~= before(key@, '?'));
        let name = trim_chars(stem, Edge::Slash);
        if name.len() == 0 {
            return Err(SessionError::NoStream);
        }
        proof {
            lemma_trim_is_part(stem@, Edge::Slash);
            let (from, to) = choose|from: int, to: int|
                0 <= from <= to <= stem@.len() && trim(stem@, Edge::Slash)
                    == #[trigger] stem@.subrange(from, to);
            assert(name@ =~= key@.subrange(from, to));
            lemma_part_encodes_shorter(key@, from, to);
        }
        let mut path = self.app.clone();
        push_text(&mut path, "/");
        let name_text = text_of(name);
        push_text(&mut path, name_text.as_str());
        self.path = path;
        self.stage = Stage::Publishing;
        self.published = None;
        Ok(publish_reply(name))
    }

    fn video(&mut self, message: &Message) -> (outcome: Result<Vec<Action>, SessionError>)
        requires
            old(self)@.wf(),
            old(self)@.timeline.wraps < u64::MAX,
        ensures
            final(self)@.wf(),
            final(self)@ == pictured(old(self)@, message@).session,
            returned(outcome, pictured(old(self)@, message@)),
    {
        if self.stage != Stage::Publishing {
            return Err(SessionError::NotPublishing("video"));
        }
        match flv::read_video(&message.payload) {
            Err(error) => Err(SessionError::Flv(error)),
            Ok(flv::VideoTag::End) => Ok(nothing()),
            Ok(flv::VideoTag::SequenceHeader(record)) => match h264::AvcConfig::parse(&record) {
                Err(error) => Err(SessionError::H264(error)),
                Ok(config) => self.state_video(config),
            },
            Ok(flv::VideoTag::Picture { composition_time, data, .. }) => self.picture(
                message.timestamp,
                composition_time,
                &data,
            ),
        }
    }

    fn picture(&mut self, timestamp: u32, composition_time: i32, data: &Bytes) -> (outcome: Result<
        Vec<Action>,
        SessionError,
    >)
        requires
            old(self)@.wf(),
            old(self)@.timeline.wraps < u64::MAX,
        ensures
            final(self)@.wf(),
            final(self)@ == picture_unit(
                old(self)@,
                timestamp,
                composition_time,
                data@,
            ).session,
            returned(outcome, picture_unit(old(self)@, timestamp, composition_time, data@)),
    {
        if self.published.is_none() && self.video.is_none() && self.audio.is_some() {
            return Err(SessionError::NoParameters("video"));
        }
        let mut actions: Vec<Action> = match self.settle() {
            Ok(actions) => actions,
            Err(error) => {
                return Err(error);
            },
        };
        let (track, nal_length_size): (TrackId, usize) = match &self.published {
            Some(published) => match published.video {
                Some(video) => video,
                None => {
                    return Err(SessionError::ParametersChanged("video"));
                },
            },
            None => {
                return Err(SessionError::ParametersChanged("video"));
            },
        };
        let dts = self.timeline.at(timestamp);
        let nalus = match h264::split_length_prefixed(data, nal_length_size) {
            Ok(nalus) => nalus,
            Err(error) => {
                return Err(SessionError::H264(error));
            },
        };
        let unit = Unit::Video(
            VideoUnit::new(
                track,
                VideoPayload::H264(nalus),
                offset(dts, composition_time),
                dts,
            ),
        );
        let ghost before = actions@;
        actions.push(Action::Unit(Box::new(unit)));
        assert(action_views(actions@) =~= action_views(before).push(ActionView::Unit(unit@)));
        Ok(actions)
    }

    fn audio(&mut self, message: &Message) -> (outcome: Result<Vec<Action>, SessionError>)
        requires
            old(self)@.wf(),
            old(self)@.timeline.wraps < u64::MAX,
        ensures
            final(self)@.wf(),
            final(self)@ == sounded(old(self)@, message@).session,
            returned(outcome, sounded(old(self)@, message@)),
    {
        if self.stage != Stage::Publishing {
            return Err(SessionError::NotPublishing("audio"));
        }
        match flv::read_audio(&message.payload) {
            Err(error) => Err(SessionError::Flv(error)),
            Ok(flv::AudioTag::SequenceHeader(record)) => match aac::Parameters::parse(record) {
                Err(error) => Err(SessionError::Aac(error)),
                Ok(parameters) => self.state_audio(parameters),
            },
            Ok(flv::AudioTag::Frame(frame)) => self.sound(message.timestamp, frame),
        }
    }

    fn sound(&mut self, timestamp: u32, frame: Bytes) -> (outcome: Result<
        Vec<Action>,
        SessionError,
    >)
        requires
            old(self)@.wf(),
            old(self)@.timeline.wraps < u64::MAX,
        ensures
            final(self)@.wf(),
            final(self)@ == sound_unit(old(self)@, timestamp, frame@).session,
            returned(outcome, sound_unit(old(self)@, timestamp, frame@)),
    {
        if self.published.is_none() && self.audio.is_none() && self.video.is_some() {
            return Err(SessionError::NoParameters("audio"));
        }
        let mut actions: Vec<Action> = match self.settle() {
            Ok(actions) => actions,
            Err(error) => {
                return Err(error);
            },
        };
        let track: TrackId = match &self.published {
            Some(published) => match published.audio {
                Some(track) => track,
                None => {
                    return Err(SessionError::ParametersChanged("audio"));
                },
            },
            None => {
                return Err(SessionError::ParametersChanged("audio"));
            },
        };
        let pts = self.timeline.at(timestamp);
        let unit = Unit::Audio(AudioUnit { track, payload: AudioPayload::Aac(frame), pts });
        let ghost before = actions@;
        actions.push(Action::Unit(Box::new(unit)));
        assert(action_views(actions@) =~= action_views(before).push(ActionView::Unit(unit@)));
        Ok(actions)
    }

    /// Takes a video sequence header, refusing one that contradicts what a
    /// description was already built on.
    fn state_video(&mut self, config: h264::AvcConfig) -> (outcome: Result<
        Vec<Action>,
        SessionError,
    >)
        requires
            old(self)@.wf(),
        ensures
            final(self)@.wf(),
            final(self)@ == stated_video(old(self)@, config@).session,
            returned(outcome, stated_video(old(self)@, config@)),
    {
        if let Some(stated) = &self.video {
            if stated.same(&config) {
                return Ok(nothing());
            }
        }
        if self.published.is_some() || self.video.is_some() {
            return Err(SessionError::ParametersChanged("video"));
        }
        self.video = Some(config);
        Ok(nothing())
    }

    /// Takes an audio sequence header, refusing one that contradicts what a
    /// description was already built on.
    fn state_audio(&mut self, parameters: aac::Parameters) -> (outcome: Result<
        Vec<Action>,
        SessionError,
    >)
        requires
            old(self)@.wf(),
        ensures
            final(self)@.wf(),
            final(self)@ == stated_audio(old(self)@, parameters@).session,
            returned(outcome, stated_audio(old(self)@, parameters@)),
    {
        if let Some(stated) = &self.audio {
            if stated.same(&parameters) {
                return Ok(nothing());
            }
        }
        if self.published.is_some() || self.audio.is_some() {
            return Err(SessionError::ParametersChanged("audio"));
        }
        self.audio = Some(parameters);
        Ok(nothing())
    }

    /// Settles the description if it is not settled yet. See the module docs
    /// on why this happens at the first frame rather than at a header.
    fn settle(&mut self) -> (outcome: Result<Vec<Action>, SessionError>)
        requires
            old(self)@.wf(),
        ensures
            final(self)@.wf(),
            final(self)@ == settled(old(self)@).session,
            returned(outcome, settled(old(self)@)),
            outcome is Ok ==> final(self)@.published is Some,
            final(self)@.timeline == old(self)@.timeline,
    {
        if self.published.is_some() {
            return Ok(nothing());
        }
        let mut codecs: Vec<Codec> = Vec::new();
        let mut size: usize = 0;
        if let Some(config) = &self.video {
            codecs.push(Codec::H264(config.parameters.clone()));
            size = config.nal_length_size;
        }
        if let Some(parameters) = &self.audio {
            codecs.push(Codec::Aac(parameters.clone()));
        }
        assert(codec_views(codecs@) =~= stated_codecs(self@));
        if codecs.len() == 0 {
            return Err(SessionError::NoParameters("media"));
        }
        let description = match Description::new(codecs) {
            Ok(description) => description,
            Err(error) => {
                return Err(SessionError::Description(error));
            },
        };
        let tracks = description.tracks();
        let first: TrackId = tracks[0].id();
        let published = if self.video.is_some() {
            Published {
                video: Some((first, size)),
                audio: if self.audio.is_some() {
                    Some(tracks[1].id())
                } else {
                    None
                },
            }
        } else {
            Published { video: None, audio: Some(first) }
        };
        self.published = Some(published);
        let mut actions: Vec<Action> = Vec::new();
        actions.push(
            Action::Publish { path: self.path.clone(), description: Box::new(description) },
        );
        assert(action_views(actions@) =~= seq![
            ActionView::Publish { path: self@.path, description: description@ },
        ]);
        Ok(actions)
    }
}

/// The description settles at the first frame and not before, and only once:
/// the first frame that is taken publishes the stream and is its first unit,
/// and every later one is a unit alone.
pub proof fn law_description_settles_once(
    s: SessionView,
    timestamp: u32,
    composition_time: i32,
    data: Seq<u8>,
    frame: Seq<u8>,
)
    ensures
        ({
            let taken = picture_unit(s, timestamp, composition_time, data);
            taken.outcome matches Ok(actions) ==> {
                &&& taken.session.published is Some
                &&& s.published is None ==> actions.len() == 2 && actions[0] == (
                ActionView::Publish { path: s.path, description: stated_codecs(s) })
                    && actions[1] is Unit
                &&& s.published is Some ==> actions.len() == 1 && actions[0] is Unit
                    && taken.session.published == s.published
            }
        }),
        ({
            let taken = sound_unit(s, timestamp, frame);
            taken.outcome matches Ok(actions) ==> {
                &&& taken.session.published is Some
                &&& s.published is None ==> actions.len() == 2 && actions[0] == (
                ActionView::Publish { path: s.path, description: stated_codecs(s) })
                    && actions[1] is Unit
                &&& s.published is Some ==> actions.len() == 1 && actions[0] is Unit
                    && taken.session.published == s.published
            }
        }),
{
}

/// Every `publish` that is accepted is announced, by its own path and at its
/// first frame, whatever was published before it.
pub proof fn law_every_publish_is_announced(
    s: SessionView,
    values: Seq<ValueView>,
    timestamp: u32,
    composition_time: i32,
    data: Seq<u8>,
    frame: Seq<u8>,
)
    requires
        publishing(s, values).outcome is Ok,
    ensures
        ({
            let begun = publishing(s, values).session;
            let told = ActionView::Publish {
                path: s.app + "/"@ + named_key(values)->0,
                description: stated_codecs(s),
            };
            &&& picture_unit(begun, timestamp, composition_time, data).outcome matches Ok(actions)
                ==> actions.len() == 2 && actions[0] == told && actions[1] is Unit
            &&& sound_unit(begun, timestamp, frame).outcome matches Ok(actions) ==> actions.len()
                == 2 && actions[0] == told && actions[1] is Unit
        }),
{
}

/// A sequence header asks for nothing; said again it changes nothing; and one
/// that says something else ends the connection.
pub proof fn law_repeated_headers_are_harmless(
    s: SessionView,
    config: AvcConfigView,
    other: AvcConfigView,
    record: Seq<u8>,
    changed: Seq<u8>,
)
    ensures
        stated_video(s, config).outcome matches Ok(actions) ==> {
            let after = stated_video(s, config).session;
            &&& actions.len() == 0
            &&& stated_video(after, config) == answered(after, Seq::empty())
            &&& config != other ==> stated_video(after, other) == refused(
                after,
                SessionErrorView::ParametersChanged("video"),
            )
        },
        stated_audio(s, record).outcome matches Ok(actions) ==> {
            let after = stated_audio(s, record).session;
            &&& actions.len() == 0
            &&& stated_audio(after, record) == answered(after, Seq::empty())
            &&& record != changed ==> stated_audio(after, changed) == refused(
                after,
                SessionErrorView::ParametersChanged("audio"),
            )
        },
{
}

/// Whatever arrives, the tracks of a stream stay the ones its sequence headers
/// describe; and once a description has settled, it does not change for as long
/// as the stream is published, which only a command ends.
pub proof fn law_description_does_not_change(s: SessionView, message: MessageView)
    requires
        in_step(s),
    ensures
        in_step(fresh_session()),
        in_step(handled(s, message).session),
        s.published is Some ==> {
            let after = handled(s, message).session;
            &&& stated_codecs(after) == stated_codecs(s)
            &&& after.published == s.published || (after.published is None && message.kind
                == MessageType::Amf0Command)
        },
{
}

/// What some messages come to: what they ask for, in order, and beside each of
/// those the path the session was then on; the session after them; and whether
/// it can go on.
pub struct HandledRun {
    pub actions: Seq<ActionView>,
    pub paths: Seq<Seq<char>>,
    pub session: SessionView,
    pub goes_on: bool,
}

/// What one message more comes to, after some that a session has handled.
#[verifier::opaque]
pub open spec fn handled_next(so_far: HandledRun, message: MessageView) -> HandledRun {
    let taken = handled(so_far.session, message);
    match taken.outcome {
        Ok(more) if so_far.goes_on => HandledRun {
            actions: so_far.actions + more,
            paths: so_far.paths + Seq::new(more.len(), |i: int| taken.session.path),
            session: taken.session,
            goes_on: true,
        },
        _ => HandledRun { goes_on: false, ..so_far },
    }
}

/// Handles messages one after another, up to the first that a session cannot go
/// on after.
pub open spec fn handled_run(s: SessionView, messages: Seq<MessageView>) -> HandledRun
    decreases messages.len(),
{
    if messages.len() == 0 {
        HandledRun { actions: Seq::empty(), paths: Seq::empty(), session: s, goes_on: true }
    } else {
        handled_next(handled_run(s, messages.drop_last()), messages.last())
    }
}

/// The path that has been announced and not taken back, after some actions.
pub open spec fn announced(actions: Seq<ActionView>) -> Option<Seq<char>>
    decreases actions.len(),
{
    if actions.len() == 0 {
        None
    } else {
        match actions.last() {
            ActionView::Publish { path, .. } => Some(path),
            ActionView::Unpublish => None,
            _ => announced(actions.drop_last()),
        }
    }
}

/// Actions that announce nothing and take nothing back leave what is announced
/// as it is.
proof fn lemma_announced_stays(actions: Seq<ActionView>, more: Seq<ActionView>)
    requires
        forall|i: int|
            0 <= i < more.len() ==> (#[trigger] more[i]) !is Publish && more[i] !is Unpublish,
    ensures
        announced(actions + more) == announced(actions),
    decreases more.len(),
{
    if more.len() > 0 {
        assert((actions + more).drop_last() =~= actions + more.drop_last());
        lemma_announced_stays(actions, more.drop_last());
    } else {
        assert(actions + more =~= actions);
    }
}

/// What one message asks for: a unit, with the announcement before it where
/// there has been none; or no unit and no announcement.
proof fn lemma_units_are_announced(s: SessionView, message: MessageView)
    ensures
        ({
            let taken = handled(s, message);
            taken.outcome matches Ok(actions) ==> {
                ||| {
                    &&& s.stage == Stage::Publishing && taken.session.stage == Stage::Publishing
                    &&& taken.session.path == s.path && taken.session.published is Some
                    &&& actions.last() is Unit
                    &&& s.published is Some ==> actions.len() == 1
                    &&& s.published is None ==> actions.len() == 2 && (
                    actions[0] matches ActionView::Publish { path, .. } && path == s.path)
                }
                ||| {
                    &&& taken.session.published is None
                    &&& actions == seq![ActionView::Unpublish]
                }
                ||| {
                    &&& taken.session.published is None || (taken.session.published == s.published
                        && taken.session.path == s.path)
                    &&& forall|i: int|
                        0 <= i < actions.len() ==> (#[trigger] actions[i]) is Send || actions[i]
                            is SetChunkSize
                }
            }
        }),
{
}

/// Every unit comes after the announcement of the path that is then being
/// published to, which nothing has taken back since: whatever a publisher sends,
/// and however often it begins again.
pub proof fn law_units_follow_their_announcement(messages: Seq<MessageView>)
    ensures
        ({
            let run = handled_run(fresh_session(), messages);
            &&& run.paths.len() == run.actions.len()
            &&& forall|i: int|
                0 <= i < run.actions.len() && (#[trigger] run.actions[i]) is Unit ==> announced(
                    run.actions.take(i),
                ) == Some(run.paths[i])
            &&& run.session.published is Some ==> announced(run.actions) == Some(run.session.path)
        }),
    decreases messages.len(),
{
    if messages.len() > 0 {
        law_units_follow_their_announcement(messages.drop_last());
        reveal(handled_next);
        let so_far = handled_run(fresh_session(), messages.drop_last());
        let run = handled_run(fresh_session(), messages);
        let (before, s) = (so_far.actions, so_far.session);
        let taken = handled(s, messages.last());
        if so_far.goes_on && taken.outcome is Ok {
            let more = taken.outcome->Ok_0;
            let (count, path) = (before.len() as int, taken.session.path);
            lemma_units_are_announced(s, messages.last());
            if more.len() > 0 && more.last() is Unit {
                let told = before + more.drop_last();
                assert(run.actions.drop_last() =~= told);
                if s.published is Some {
                    assert(told =~= before);
                } else {
                    assert(told.last() == more[0]);
                }
                assert(announced(told) == Some(path));
                assert(run.actions.take(run.actions.len() - 1) =~= told);
            } else if taken.session.published is Some {
                lemma_announced_stays(before, more);
            }
            assert forall|i: int| 0 <= i < run.actions.len() && (
            #[trigger] run.actions[i]) is Unit implies announced(run.actions.take(i)) == Some(
                run.paths[i],
            ) by {
                if i < count {
                    assert(run.actions.take(i) =~= before.take(i));
                    assert(run.actions[i] == before[i] && run.paths[i] == so_far.paths[i]);
                } else {
                    assert(run.actions[i] == more[i - count] && run.paths[i] == path);
                    assert(i == run.actions.len() - 1);
                }
            }
        }
    }
}

/// How many announcements there are among some actions.
pub open spec fn announcements(actions: Seq<ActionView>) -> nat
    decreases actions.len(),
{
    if actions.len() == 0 {
        0
    } else if actions.last() is Publish {
        announcements(actions.drop_last()) + 1
    } else {
        announcements(actions.drop_last())
    }
}

proof fn lemma_announcements_add(actions: Seq<ActionView>, more: Seq<ActionView>)
    ensures
        announcements(actions + more) == announcements(actions) + announcements(more),
    decreases more.len(),
{
    if more.len() > 0 {
        assert((actions + more).drop_last() =~= actions + more.drop_last());
        lemma_announcements_add(actions, more.drop_last());
    } else {
        assert(actions + more =~= actions);
    }
}

proof fn lemma_no_announcements(actions: Seq<ActionView>)
    requires
        forall|i: int| 0 <= i < actions.len() ==> (#[trigger] actions[i]) !is Publish,
    ensures
        announcements(actions) == 0,
    decreases actions.len(),
{
    if actions.len() > 0 {
        lemma_no_announcements(actions.drop_last());
    }
}

/// Whether a message is the command `publish`.
pub open spec fn asks_to_publish(message: MessageView) -> bool {
    &&& message.kind == MessageType::Amf0Command
    &&& all_at(message.payload, 0) matches Ok(values) && command_name(values) == Some("publish"@)
}

/// A run with some actions and paths in front.
spec fn preceded(actions: Seq<ActionView>, paths: Seq<Seq<char>>, run: HandledRun) -> HandledRun {
    HandledRun { actions: actions + run.actions, paths: paths + run.paths, ..run }
}

/// What one message more comes to does not depend on what was asked for before.
proof fn lemma_next_joins(
    actions: Seq<ActionView>,
    paths: Seq<Seq<char>>,
    run: HandledRun,
    message: MessageView,
)
    ensures
        handled_next(preceded(actions, paths, run), message) == preceded(
            actions,
            paths,
            handled_next(run, message),
        ),
{
    reveal(handled_next);
    let joined = handled_next(preceded(actions, paths, run), message);
    let next = handled_next(run, message);
    assert(joined.actions =~= actions + next.actions);
    assert(joined.paths =~= paths + next.paths);
}

/// Messages handled in two runs come to what they come to in one.
proof fn lemma_runs_join(s: SessionView, first: Seq<MessageView>, then: Seq<MessageView>)
    requires
        handled_run(s, first).goes_on,
    ensures
        ({
            let begun = handled_run(s, first);
            let rest = handled_run(begun.session, then);
            handled_run(s, first + then) == preceded(begun.actions, begun.paths, rest)
        }),
    decreases then.len(),
{
    let begun = handled_run(s, first);
    if then.len() > 0 {
        let earlier = then.drop_last();
        lemma_runs_join(s, first, earlier);
        assert((first + then).drop_last() =~= first + earlier);
        let rest = handled_run(begun.session, earlier);
        lemma_next_joins(begun.actions, begun.paths, rest, then.last());
    } else {
        assert(first + then =~= first);
        assert(begun.actions + Seq::empty() =~= begun.actions);
        assert(begun.paths + Seq::empty() =~= begun.paths);
    }
}

/// A `publish` that is accepted leaves what is published still to be said.
proof fn lemma_publish_is_unannounced(so_far: HandledRun, publish: MessageView)
    requires
        asks_to_publish(publish),
        handled_next(so_far, publish).goes_on,
    ensures
        handled_next(so_far, publish).session.published is None,
{
    reveal(handled_next);
    reveal_strlit("connect");
    reveal_strlit("createStream");
    reveal_strlit("publish");
    assert("connect"@[0] != "publish"@[0] && "createStream"@[0] != "publish"@[0]);
}

/// What messages other than `publish` come to, from a session whose stream is
/// still to be announced.
proof fn lemma_one_announcement(s: SessionView, messages: Seq<MessageView>)
    requires
        s.published is None,
        forall|i: int| 0 <= i < messages.len() ==> !asks_to_publish(#[trigger] messages[i]),
    ensures
        ({
            let run = handled_run(s, messages);
            &&& run.session.path == s.path
            &&& run.session.published is Some ==> announcements(run.actions) == 1
            &&& announcements(run.actions) == 0 || (announcements(run.actions) == 1 && (
            run.session.published is Some || run.session.stage != Stage::Publishing))
            &&& forall|i: int|
                0 <= i < run.actions.len() ==> match #[trigger] run.actions[i] {
                    ActionView::Unit(_) => announcements(run.actions.take(i)) == 1,
                    ActionView::Publish { path, .. } => path == s.path && i + 1 < run.actions.len()
                        && run.actions[i + 1] is Unit && announcements(run.actions.take(i)) == 0,
                    _ => true,
                }
        }),
    decreases messages.len(),
{
    if messages.len() > 0 {
        let earlier = messages.drop_last();
        assert forall|i: int| 0 <= i < earlier.len() implies !asks_to_publish(
            #[trigger] earlier[i],
        ) by {
            assert(earlier[i] == messages[i]);
        }
        assert(!asks_to_publish(messages[messages.len() - 1]));
        lemma_one_announcement(s, earlier);
        reveal(handled_next);
        let so_far = handled_run(s, earlier);
        let run = handled_run(s, messages);
        let taken = handled(so_far.session, messages.last());
        let before = so_far.actions;
        if so_far.goes_on && taken.outcome is Ok {
            let more = taken.outcome->Ok_0;
            let count = before.len() as int;
            lemma_units_are_announced(so_far.session, messages.last());
            lemma_unannounced_stays(so_far.session, messages.last());
            lemma_announcements_add(before, more);
            if more.len() > 0 && more.last() is Unit {
                assert(more.drop_last().len() == more.len() - 1);
                if more.len() == 2 {
                    assert(more.drop_last() =~= seq![more[0]]);
                    assert(announcements(more.drop_last()) == announcements(
                        more.drop_last().drop_last(),
                    ) + 1);
                    assert(more.drop_last().drop_last() =~= Seq::empty());
                } else {
                    assert(more.drop_last() =~= Seq::empty());
                }
            } else {
                lemma_no_announcements(more);
            }
            assert forall|i: int| 0 <= i < run.actions.len() implies match #[trigger] run.actions[i] {
                ActionView::Unit(_) => announcements(run.actions.take(i)) == 1,
                ActionView::Publish { path, .. } => path == s.path && i + 1 < run.actions.len()
                    && run.actions[i + 1] is Unit && announcements(run.actions.take(i)) == 0,
                _ => true,
            } by {
                if i < count {
                    assert(run.actions.take(i) =~= before.take(i));
                    assert(run.actions[i] == before[i]);
                    if i + 1 < count {
                        assert(run.actions[i + 1] == before[i + 1]);
                    }
                } else {
                    assert(run.actions[i] == more[i - count]);
                    assert(run.actions.take(i) =~= before + more.take(i - count));
                    lemma_announcements_add(before, more.take(i - count));
                    if i == count {
                        assert(more.take(0) =~= Seq::empty());
                        if more.len() == 2 {
                            assert(run.actions[i + 1] == more[1]);
                        }
                    } else if more[i - count] is Unit {
                        assert(more.take(i - count) =~= more.drop_last());
                    }
                }
            }
        }
    }
}

/// A message other than `publish` keeps a session on its path, and does not
/// bring one back that has stopped publishing.
proof fn lemma_unannounced_stays(s: SessionView, message: MessageView)
    requires
        !asks_to_publish(message),
    ensures
        handled(s, message).session.path == s.path,
        s.stage != Stage::Publishing ==> handled(s, message).session.stage != Stage::Publishing,
        handled(s, message).session.published is None && s.published is Some ==> handled(
            s,
            message,
        ).session.stage != Stage::Publishing,
{
}

/// Every `publish` that is accepted has one announcement, by the path it named
/// and with its first unit: up to the next `publish`, whatever else a publisher
/// sends, no more than one is made, every unit follows it, and it is followed by
/// a unit at once.
pub proof fn law_one_announcement_for_every_publish(
    before: Seq<MessageView>,
    publish: MessageView,
    messages: Seq<MessageView>,
)
    requires
        asks_to_publish(publish),
        handled_run(fresh_session(), before.push(publish)).goes_on,
        forall|i: int| 0 <= i < messages.len() ==> !asks_to_publish(#[trigger] messages[i]),
    ensures
        ({
            let begun = handled_run(fresh_session(), before.push(publish));
            let whole = handled_run(fresh_session(), before.push(publish) + messages);
            let since = whole.actions.skip(begun.actions.len() as int);
            &&& whole.actions == begun.actions + since
            &&& announcements(since) <= 1
            &&& forall|i: int|
                0 <= i < since.len() ==> match #[trigger] since[i] {
                    ActionView::Unit(_) => announcements(since.take(i)) == 1,
                    ActionView::Publish { path, .. } => path == begun.session.path && i + 1
                        < since.len() && since[i + 1] is Unit && announcements(since.take(i)) == 0,
                    _ => true,
                }
        }),
{
    let begun = handled_run(fresh_session(), before.push(publish));
    let whole = handled_run(fresh_session(), before.push(publish) + messages);
    let rest = handled_run(begun.session, messages);
    assert(before.push(publish).drop_last() =~= before);
    lemma_publish_is_unannounced(handled_run(fresh_session(), before), publish);
    lemma_runs_join(fresh_session(), before.push(publish), messages);
    lemma_one_announcement(begun.session, messages);
    assert(whole.actions.skip(begun.actions.len() as int) =~= rest.actions);
}

/// The units of a stream name tracks of the description it was published
/// under: pictures the video track, which is the first where there is one, and
/// sound the audio track.
pub proof fn law_units_name_their_own_tracks(
    s: SessionView,
    timestamp: u32,
    composition_time: i32,
    data: Seq<u8>,
    frame: Seq<u8>,
)
    requires
        in_step(s),
    ensures
        picture_unit(s, timestamp, composition_time, data).outcome matches Ok(actions) ==> {
            &&& actions.last() matches ActionView::Unit(UnitView::Video { track, .. }) && track == 0
            &&& stated_codecs(s).len() > 0 && stated_codecs(s)[0] is H264
        },
        sound_unit(s, timestamp, frame).outcome matches Ok(actions) ==> {
            &&& actions.last() matches ActionView::Unit(UnitView::Audio { track, .. }) && track
                < stated_codecs(s).len() && stated_codecs(s)[track as int] is Aac
        },
{
}

/// Media before `publish` is refused, and changes nothing.
pub proof fn law_media_waits_for_publish(s: SessionView, message: MessageView)
    requires
        s.stage != Stage::Publishing,
        message.kind == MessageType::Video || message.kind == MessageType::Audio,
    ensures
        handled(s, message).outcome is Err,
        handled(s, message).session == s,
{
}

/// The chunk size this announces takes effect after the message that announces
/// it, and before anything else is sent.
pub proof fn law_chunk_size_follows_its_announcement(transaction: u64)
    ensures
        ({
            let answer = connect_answer(transaction);
            &&& answer[2] == sent(2, MessageType::SetChunkSize, 0, be32(CHUNK_SIZE as int))
            &&& answer[3] == ActionView::SetChunkSize(CHUNK_SIZE as nat)
            &&& forall|i: int|
                0 <= i < answer.len() && #[trigger] answer[i] is SetChunkSize ==> i == 3
        }),
{
}

/// An acknowledgement is owed once a window has arrived since the last, and
/// not before; what it says is how much has arrived in all.
pub proof fn law_acknowledgements_are_owed_by_the_window(s: SessionView, bytes: nat)
    requires
        s.wf(),
    ensures
        ({
            let (owed, after) = counted(s, bytes);
            &&& after.wf()
            &&& after.received == s.received + bytes
            &&& owed is Some <==> s.received + bytes - s.acknowledged >= WINDOW_SIZE
            &&& owed is Some ==> forall|more: nat|
                more < WINDOW_SIZE ==> (#[trigger] counted(after, more)).0 is None
        }),
{
}

/// A timeline starts at zero, wherever the publisher's counter does.
pub proof fn law_timeline_starts_at_zero(timestamp: u32)
    ensures
        elapsed(timed(no_timeline(), timestamp)) == 0,
{
}

/// A timeline goes forwards with the publisher's counter, wherever the counter
/// wraps: a step on the one is the same step on the other. Asked of a timeline
/// whose last timestamp is not before its origin, for as long as the
/// milliseconds counted fit 64 bits.
pub proof fn law_timeline_goes_forwards(t: TimelineView, step: u32)
    requires
        t.origin is Some,
        t.wraps * 0x1_0000_0000 + t.last + step < 0x1_0000_0000_0000_0000,
        t.wraps * 0x1_0000_0000 + t.last >= t.origin->0,
        step < 0x8000_0000,
    ensures
        ({
            let next = timed(t, ((t.last + step) % 0x1_0000_0000) as u32);
            &&& elapsed(next) == elapsed(t) + step
            &&& next.wraps * 0x1_0000_0000 + next.last == t.wraps * 0x1_0000_0000 + t.last + step
        }),
{
}

/// A timeline after the publisher's counter has gone on by some steps.
pub open spec fn timed_run(t: TimelineView, steps: Seq<u32>) -> TimelineView
    decreases steps.len(),
{
    if steps.len() == 0 {
        t
    } else {
        let before = timed_run(t, steps.drop_last());
        timed(before, ((before.last + steps.last()) % 0x1_0000_0000) as u32)
    }
}

/// How far some steps go in all.
pub open spec fn stepped(steps: Seq<u32>) -> nat
    decreases steps.len(),
{
    if steps.len() == 0 {
        0
    } else {
        stepped(steps.drop_last()) + steps.last() as nat
    }
}

/// However often the publisher's counter wraps on the way, a timeline goes on by
/// as much as the counter does in all. Asked of what
/// [`law_timeline_goes_forwards`] is asked of.
pub proof fn law_timeline_adds_up(t: TimelineView, steps: Seq<u32>)
    requires
        t.origin is Some,
        t.wraps * 0x1_0000_0000 + t.last + stepped(steps) < 0x1_0000_0000_0000_0000,
        t.wraps * 0x1_0000_0000 + t.last >= t.origin->0,
        forall|i: int| 0 <= i < steps.len() ==> (#[trigger] steps[i]) < 0x8000_0000,
    ensures
        ({
            let after = timed_run(t, steps);
            &&& elapsed(after) == elapsed(t) + stepped(steps)
            &&& after.origin == t.origin
            &&& after.wraps * 0x1_0000_0000 + after.last == t.wraps * 0x1_0000_0000 + t.last
                + stepped(steps)
        }),
    decreases steps.len(),
{
    if steps.len() > 0 {
        law_timeline_adds_up(t, steps.drop_last());
        law_timeline_goes_forwards(timed_run(t, steps.drop_last()), steps.last());
    }
}

/// From its first timestamp on, wherever that is, a timeline has gone on by the
/// sum of all the steps the publisher's counter has taken since.
pub proof fn law_timeline_counts_from_the_first(first: u32, steps: Seq<u32>)
    requires
        first + stepped(steps) < 0x1_0000_0000_0000_0000,
        forall|i: int| 0 <= i < steps.len() ==> (#[trigger] steps[i]) < 0x8000_0000,
    ensures
        elapsed(timed_run(timed(no_timeline(), first), steps)) == stepped(steps),
{
    law_timeline_starts_at_zero(first);
    law_timeline_adds_up(timed(no_timeline(), first), steps);
}

/// A stream key loses the query an encoder puts on it.
pub proof fn law_key_loses_its_query(key: Seq<char>, query: Seq<char>)
    ensures
        before(key + seq!['?'] + query, '?') == before(key, '?'),
    decreases key.len(),
{
    let whole = key + seq!['?'] + query;
    if key.len() > 0 {
        assert(whole.drop_first() =~= key.drop_first() + seq!['?'] + query);
        law_key_loses_its_query(key.drop_first(), query);
    }
}

/// What `createStream` is answered with reads back as the transaction it
/// answers and the stream that is handed out.
#[verifier::spinoff_prover]
#[verifier::rlimit(50)]
pub proof fn law_create_stream_answers_its_transaction(transaction: u64)
    ensures
        create_stream_answer(transaction)[0] matches ActionView::Send { message, .. } && all_at(
            message.payload,
            0,
        ) == Ok::<_, Amf0Error>(
            seq![
                ValueView::String("_result"@),
                ValueView::Number(transaction),
                ValueView::Null,
                ValueView::Number(ONE),
            ],
        ),
{
    let values = seq![ValueView::String("_result"@), ValueView::Number(transaction)] + seq![
        ValueView::Null,
        ValueView::Number(ONE),
    ];
    let expected = seq![
        ValueView::String("_result"@),
        ValueView::Number(transaction),
        ValueView::Null,
        ValueView::Number(ONE),
    ];
    assert(values =~= expected);
    assert(emitted_all(expected).stopped is None) by {
        reveal_strlit("_result");
        lemma_short_text_is_writable("_result"@);
        lemma_values_writable(expected);
    }
    assert(values_fit(expected, 0)) by {
        lemma_scalars_fit(expected, 0);
    }
    law_written_values_read_back(expected);
}

/// Values that hold no other fit.
proof fn lemma_scalars_fit(values: Seq<ValueView>, depth: nat)
    requires
        forall|i: int|
            0 <= i < values.len() ==> (#[trigger] values[i]) is String || values[i] is Number
                || values[i] is Null,
    ensures
        values_fit(values, depth),
    decreases values.len(),
{
    if values.len() > 0 {
        let others = values.subrange(1, values.len() as int);
        assert forall|i: int| 0 <= i < others.len() implies (#[trigger] others[i]) is String
            || others[i] is Number || others[i] is Null by {
            assert(others[i] == values[i + 1]);
        }
        lemma_scalars_fit(others, depth);
        assert(fits(values[0], depth));
    }
}

/// The composition time that a picture's tag states: three bytes after the first
/// two, the highest first, and signed.
pub open spec fn stated_offset(payload: Seq<u8>) -> int {
    let field = payload[2] * 0x1_0000 + payload[3] * 0x100 + payload[4];
    if field < 0x80_0000 {
        field
    } else {
        field - 0x100_0000
    }
}

/// A picture's unit is what its message carries, at the time that the message
/// states: decoded when the timeline says the message is, and presented later or
/// earlier than that by the composition time in its tag, though never before the
/// start. That is so of every picture, whatever its units are; and it is a
/// keyframe where one of them is a slice of an IDR, whatever the tag calls it.
#[verifier::spinoff_prover]
#[verifier::rlimit(30)]
pub proof fn law_pictures_are_timed_by_their_tags(s: SessionView, message: MessageView)
    requires
        in_step(s),
        message.kind == MessageType::Video,
        handled(s, message).outcome matches Ok(actions) && actions.len() > 0,
    ensures
        ({
            let timeline = timed(s.timeline, message.timestamp);
            let (when, offset) = (elapsed(timeline), stated_offset(message.payload));
            let payload = message.payload;
            &&& handled(s, message).session.timeline == timeline
            &&& payload.len() >= 5 && payload[0] < 0x80 && payload[0] % 16 == 7 && payload[1] == 1
            &&& handled(s, message).outcome->Ok_0.last() matches ActionView::Unit(unit) && {
                &&& unit matches UnitView::Video { track, nalus, pts, dts, keyframe } && {
                    &&& track == 0
                    &&& dts == when * 1_000_000
                    &&& pts == (if when + offset < 0 {
                        0
                    } else {
                        (when + offset) * 1_000_000
                    })
                    &&& s.video matches Some(config) && length_prefixed(
                        nalus,
                        config.nal_length_size,
                    ) == Ok::<_, H264Error>(payload.skip(5))
                    &&& keyframe == exists|i: int|
                        0 <= i < nalus.len() && #[trigger] nalus[i][0] % 32 == 5
                }
            }
        }),
{
    let payload = message.payload;
    assert(s.stage == Stage::Publishing);
    let tag = video_of(payload);
    assert(tag is Ok);
    assert(tag->Ok_0 is Picture);
    lemma_widths_of_offsets(payload);
    let data = payload.skip(5);
    let config = s.video->0;
    let nalus = prefixed_units(data, 0, config.nal_length_size)->Ok_0;
    law_a_payload_that_splits_is_written_back(data, config.nal_length_size);
    if has(nalus, NalType::Idr) {
        let i = choose|i: int|
            0 <= i < nalus.len() && nal_type(#[trigger] nalus[i][0]) == NalType::Idr;
        assert(nalus[i][0] % 32 == 5);
    }
    if exists|i: int| 0 <= i < nalus.len() && #[trigger] nalus[i][0] % 32 == 5 {
        let i = choose|i: int| 0 <= i < nalus.len() && #[trigger] nalus[i][0] % 32 == 5;
        assert(nal_type(nalus[i][0]) == NalType::Idr);
    }
}

proof fn lemma_widths_of_offsets(payload: Seq<u8>)
    requires
        payload.len() >= 5,
    ensures
        signed24(num24(payload, 2)) as i32 == stated_offset(payload),
        -0x80_0000 <= stated_offset(payload) < 0x80_0000,
{
}

/// A frame of sound is what its message carries, at the time that the message
/// states, on the track after the pictures where there are any.
pub proof fn law_sound_is_timed_by_its_message(s: SessionView, message: MessageView)
    requires
        in_step(s),
        message.kind == MessageType::Audio,
        handled(s, message).outcome matches Ok(actions) && actions.len() > 0,
    ensures
        ({
            let timeline = timed(s.timeline, message.timestamp);
            let payload = message.payload;
            &&& handled(s, message).session.timeline == timeline
            &&& payload.len() >= 2 && payload[0] / 16 == 10 && payload[1] == 1
            &&& handled(s, message).outcome->Ok_0.last() == ActionView::Unit(
                UnitView::Audio {
                    track: if s.video is Some {
                        1
                    } else {
                        0
                    },
                    frame: payload.skip(2),
                    pts: elapsed(timeline) * 1_000_000,
                },
            )
        }),
{
}

/// Whether a session has what a frame needs: it publishes, its video header says
/// enough to describe the pictures where there was one, and it is in step.
pub open spec fn ready(s: SessionView) -> bool {
    &&& in_step(s)
    &&& s.stage == Stage::Publishing
    &&& s.video matches Some(config) ==> config.parameters.sps.len() > 0
        && config.parameters.pps.len() > 0
}

/// A publishing session whose video header has been stated takes every picture:
/// whatever the tag's frame type, its composition time and its units are, there
/// is a unit of them, and before the first one the announcement of the stream.
pub proof fn law_pictures_are_taken(
    s: SessionView,
    timestamp: u32,
    stream_id: u32,
    first: u8,
    offset: (u8, u8, u8),
    nalus: Seq<Seq<u8>>,
)
    requires
        ready(s),
        s.video is Some,
        first < 0x80 && first % 16 == 7,
        forall|i: int| 0 <= i < nalus.len() ==> 0 < (#[trigger] nalus[i]).len() <= usize::MAX,
        length_prefixed(nalus, s.video->0.nal_length_size) is Ok,
    ensures
        ({
            let payload = seq![first, 1u8, offset.0, offset.1, offset.2] + length_prefixed(
                nalus,
                s.video->0.nal_length_size,
            )->Ok_0;
            let kind = MessageType::Video;
            handled(s, MessageView { timestamp, kind, stream_id, payload }).outcome matches Ok(
                actions,
            ) && {
                &&& actions.last() matches ActionView::Unit(
                    UnitView::Video { nalus: got, .. },
                ) && got == nalus
                &&& s.published is Some ==> actions.len() == 1
                &&& s.published is None ==> actions.len() == 2 && actions[0] == (
                ActionView::Publish { path: s.path, description: stated_codecs(s) })
            }
        }),
{
    let config = s.video->0;
    let data = length_prefixed(nalus, config.nal_length_size)->Ok_0;
    let payload = seq![first, 1u8, offset.0, offset.1, offset.2] + data;
    assert(payload[0] == first && payload[1] == 1);
    assert(payload.skip(5) =~= data);
    law_length_prefixed_round_trips(nalus, config.nal_length_size);
    lemma_ready_is_describable(s);
}

/// A publishing session whose audio header has been stated takes every frame of
/// sound.
pub proof fn law_sound_is_taken(
    s: SessionView,
    timestamp: u32,
    stream_id: u32,
    first: u8,
    frame: Seq<u8>,
)
    requires
        ready(s),
        s.audio is Some,
        first / 16 == 10,
    ensures
        ({
            let payload = seq![first, 1u8] + frame;
            let kind = MessageType::Audio;
            handled(s, MessageView { timestamp, kind, stream_id, payload }).outcome matches Ok(
                actions,
            ) && {
                &&& actions.last() matches ActionView::Unit(
                    UnitView::Audio { frame: got, .. },
                ) && got == frame
                &&& s.published is Some ==> actions.len() == 1
                &&& s.published is None ==> actions.len() == 2 && actions[0] == (
                ActionView::Publish { path: s.path, description: stated_codecs(s) })
            }
        }),
{
    let payload = seq![first, 1u8] + frame;
    assert(payload[0] == first && payload[1] == 1);
    assert(payload.skip(2) =~= frame);
    lemma_ready_is_describable(s);
}

proof fn lemma_ready_is_describable(s: SessionView)
    requires
        ready(s),
    ensures
        stated_codecs(s).len() > 0 ==> undescribable(stated_codecs(s)) is None,
{
    reveal_with_fuel(first_unplayable, 3);
}

/// What the headers stated is what the stream is announced with: the sets of the
/// video record and the audio record itself, the pictures first.
pub proof fn law_headers_state_the_tracks(s: SessionView)
    ensures
        stated_codecs(s).len() == (if s.video is Some {
            1int
        } else {
            0
        }) + (if s.audio is Some {
            1int
        } else {
            0
        }),
        s.video matches Some(config) ==> stated_codecs(s)[0] == CodecView::H264(
            config.parameters,
        ),
        s.audio matches Some(record) ==> stated_codecs(s).last() == CodecView::Aac(record),
{
}

/// A sequence header is remembered as the record in its message, and nothing is
/// sent or published for it.
pub proof fn law_headers_are_remembered(s: SessionView, message: MessageView)
    requires
        s.stage == Stage::Publishing,
        message.payload.len() >= 5,
        message.payload[1] == 0,
    ensures
        ({
            let (after, payload) = (handled(s, message), message.payload);
            &&& message.kind == MessageType::Video && payload[0] < 0x80 && payload[0] % 16 == 7
                && s.video is None && s.published is None ==> match config_of(payload.skip(5)) {
                Ok(config) => after == answered(
                    SessionView { video: Some(config), ..s },
                    Seq::empty(),
                ),
                Err(error) => after == refused(s, SessionErrorView::H264(error)),
            }
            &&& message.kind == MessageType::Audio && payload[0] / 16 == 10 && s.audio is None
                && s.published is None ==> match fields_of(payload.skip(2)) {
                Ok(_) => after == answered(
                    SessionView { audio: Some(payload.skip(2)), ..s },
                    Seq::empty(),
                ),
                Err(error) => after == refused(s, SessionErrorView::Aac(error)),
            }
        }),
{
}

/// A timeline follows the publisher's counter: a timestamp further on is later by
/// as much, one a little before the last is earlier by as much, though never
/// before the start, and one far before it is the counter come round. Asked for as
/// long as the milliseconds counted fit 64 bits.
pub proof fn law_timeline_follows_the_counter(t: TimelineView, timestamp: u32)
    requires
        t.origin is Some,
        (t.wraps + 2) * 0x1_0000_0000 < 0x1_0000_0000_0000_0000,
    ensures
        ({
            let next = timed(t, timestamp);
            let back = t.last - timestamp;
            let position = t.wraps * 0x1_0000_0000 + t.last - back + if back >= 0x8000_0000 {
                0x1_0000_0000int
            } else {
                0
            };
            &&& next.origin == t.origin
            &&& elapsed(next) == if position < t.origin->0 {
                0
            } else {
                position - t.origin->0
            }
        }),
{
}

/// Frames that cannot be taken, and why: none before any header, none of a kind that
/// had no header before the stream was announced, and no picture whose payload does
/// not split at the width its header states. Only the last has come far enough to
/// move the timeline.
pub proof fn law_frames_that_cannot_be_taken(s: SessionView, message: MessageView)
    requires
        in_step(s),
        s.stage == Stage::Publishing,
        message.payload.len() >= 5,
        message.payload[1] == 1,
        message.kind == MessageType::Video ==> message.payload[0] < 0x80 && message.payload[0] % 16
            == 7,
        message.kind == MessageType::Audio ==> message.payload[0] / 16 == 10,
    ensures
        ({
            let (after, video) = (handled(s, message), message.kind == MessageType::Video);
            let media = video || message.kind == MessageType::Audio;
            &&& media && s.video is None && s.audio is None ==> after == refused(
                s,
                SessionErrorView::NoParameters("media"),
            )
            &&& video && s.video is None && s.audio is Some ==> after == refused(
                s,
                if s.published is None {
                    SessionErrorView::NoParameters("video")
                } else {
                    SessionErrorView::ParametersChanged("video")
                },
            )
            &&& message.kind == MessageType::Audio && s.audio is None && s.video is Some ==> after
                == refused(
                s,
                if s.published is None {
                    SessionErrorView::NoParameters("audio")
                } else {
                    SessionErrorView::ParametersChanged("audio")
                },
            )
            &&& video && s.video is Some && s.published is Some ==> (prefixed_units(
                message.payload.skip(5),
                0,
                s.video->0.nal_length_size,
            ) matches Err(error) ==> after == refused(
                SessionView { timeline: timed(s.timeline, message.timestamp), ..s },
                SessionErrorView::H264(error),
            ))
        }),
{
    reveal_with_fuel(first_unplayable, 3);
}

} // verus!
