//! RTMP's chunk stream: how a message is cut up to go on the wire, and how
//! the pieces are put back together.
//!
//! # Why there are chunks at all
//!
//! One connection carries audio, video and commands at once. A reader that
//! had to take a 200 kB keyframe in one piece would see nothing else until
//! it finished, so RTMP cuts every message into chunks of at most
//! `chunk_size` bytes and lets chunks of different messages interleave.
//!
//! # Why a chunk cannot be read on its own
//!
//! A chunk header repeats what its message already said, so RTMP has four
//! header formats, each leaving out more than the last, with whatever is
//! missing taken from the previous chunk *on the same chunk stream*:
//!
//! | Format | States                          | Its timestamp is |
//! | ------ | ------------------------------- | ---------------- |
//! | 0      | timestamp, length, type, stream | absolute         |
//! | 1      | timestamp, length, type         | a delta          |
//! | 2      | timestamp                       | a delta          |
//! | 3      | nothing                         | inherited        |
//!
//! That is why [`Reader`] and [`Writer`] hold state, and why one of each
//! belongs to one connection and cannot be shared.
//!
//! # What the reader does for itself
//!
//! [`Reader`] applies `SetChunkSize` and `Abort` as it reads them. Both
//! reconfigure the chunk stream itself, and both take effect at the chunk that
//! follows, so a caller that queued messages before acting on them would go on
//! parsing at the old size. The messages are still returned. Everything else
//! is passed through untouched.
//!
//! # What is stated
//!
//! [`step`] says what one chunk at the front of a buffer does to a reader, and
//! [`reading`] what a whole call of [`Reader::read`] does; [`writing`] is what
//! [`Writer::write`] puts out. That the one undoes the other is in
//! [`chunk_laws`](crate::rtmp::chunk_laws).

use crate::buffer::{
    advance, be24, be32, get_u24, get_u32, get_u32_le, le16, le32, num24, num32, num32_le, octets,
    pending, put_slice, put_u24, put_u32, put_u32_le, put_u8, Contents,
};
use bytes::{Bytes, BytesMut};
use std::collections::HashMap;
use vstd::prelude::*;

verus! {

broadcast use vstd::std_specs::hash::group_hash_axioms;

/// The chunk size a connection starts at, before either peer has said
/// otherwise.
pub const DEFAULT_CHUNK_SIZE: usize = 128;

/// The largest chunk size a peer may ask for. The field is 31 bits wide, but
/// a chunk larger than the messages going through it defeats the interleaving
/// chunks exist for.
pub const MAX_CHUNK_SIZE: usize = 0xff_ffff;

/// The largest message RTMP can express: its length field is three bytes.
pub const MAX_MESSAGE_LENGTH: usize = 0xff_ffff;

/// The largest message [`Reader`] will assemble, under what the protocol can
/// express. Past this a declared length is either a mistake or an attempt to
/// make a server hold memory on the strength of one header.
pub const MAX_ASSEMBLED_LENGTH: usize = 8 * 1024 * 1024;

/// How many chunk streams one connection may open. An encoder uses a handful,
/// and every one of them gets a reassembly buffer.
pub const MAX_CHUNK_STREAMS: usize = 64;

/// What a three-byte timestamp field holds to say the real value follows the
/// header in four bytes.
pub const EXTENDED_TIMESTAMP: u32 = 0xff_ffff;

/// What a message is, from its type id.
///
/// The first six are RTMP's own housekeeping and travel on message stream 0;
/// the rest are what a session is made of.
#[derive(Clone, Copy, Debug, PartialEq, Eq, Hash, Structural)]
pub enum MessageType {
    /// Changes how large the sender's chunks are, from the next one on.
    SetChunkSize,
    /// Throws away the partly-sent message on one chunk stream.
    Abort,
    /// Reports how many bytes the sender has received.
    Acknowledgement,
    /// Stream control: begin, end, buffer length, ping.
    UserControl,
    /// How many bytes the sender will send before it wants an
    /// acknowledgement.
    WindowAckSize,
    /// Asks the peer to hold its window to a size.
    SetPeerBandwidth,
    /// One audio frame, in whatever codec the stream declared.
    Audio,
    /// One coded picture, in whatever codec the stream declared.
    Video,
    /// A metadata message, AMF3-encoded.
    Amf3Data,
    /// A remote call, AMF3-encoded.
    Amf3Command,
    /// A metadata message, AMF0-encoded: `@setDataFrame`, `onMetaData`.
    Amf0Data,
    /// A remote call, AMF0-encoded: `connect`, `createStream`, `publish`.
    Amf0Command,
    /// Several messages packed into one.
    Aggregate,
    /// Anything else, kept verbatim: a relay forwards what it does not
    /// recognize rather than dropping it.
    Other(u8),
}

/// The type a type id names.
pub open spec fn type_of(id: u8) -> MessageType {
    if id == 1 {
        MessageType::SetChunkSize
    } else if id == 2 {
        MessageType::Abort
    } else if id == 3 {
        MessageType::Acknowledgement
    } else if id == 4 {
        MessageType::UserControl
    } else if id == 5 {
        MessageType::WindowAckSize
    } else if id == 6 {
        MessageType::SetPeerBandwidth
    } else if id == 8 {
        MessageType::Audio
    } else if id == 9 {
        MessageType::Video
    } else if id == 15 {
        MessageType::Amf3Data
    } else if id == 17 {
        MessageType::Amf3Command
    } else if id == 18 {
        MessageType::Amf0Data
    } else if id == 20 {
        MessageType::Amf0Command
    } else if id == 22 {
        MessageType::Aggregate
    } else {
        MessageType::Other(id)
    }
}

impl MessageType {
    /// The type id this stands for.
    pub open spec fn spec_id(self) -> u8 {
        match self {
            Self::SetChunkSize => 1,
            Self::Abort => 2,
            Self::Acknowledgement => 3,
            Self::UserControl => 4,
            Self::WindowAckSize => 5,
            Self::SetPeerBandwidth => 6,
            Self::Audio => 8,
            Self::Video => 9,
            Self::Amf3Data => 15,
            Self::Amf3Command => 17,
            Self::Amf0Data => 18,
            Self::Amf0Command => 20,
            Self::Aggregate => 22,
            Self::Other(id) => id,
        }
    }

    /// Whether this is the type its own id names. Every type but an
    /// [`Other`](Self::Other) holding the id of a named one is.
    pub open spec fn canonical(self) -> bool {
        type_of(self.spec_id()) == self
    }

    /// Reads a type id.
    pub fn from_id(id: u8) -> (kind: Self)
        ensures
            kind == type_of(id),
            kind.spec_id() == id,
    {
        match id {
            1 => Self::SetChunkSize,
            2 => Self::Abort,
            3 => Self::Acknowledgement,
            4 => Self::UserControl,
            5 => Self::WindowAckSize,
            6 => Self::SetPeerBandwidth,
            8 => Self::Audio,
            9 => Self::Video,
            15 => Self::Amf3Data,
            17 => Self::Amf3Command,
            18 => Self::Amf0Data,
            20 => Self::Amf0Command,
            22 => Self::Aggregate,
            other => Self::Other(other),
        }
    }

    /// The type id this stands for.
    pub fn id(self) -> (id: u8)
        ensures
            id == self.spec_id(),
    {
        match self {
            Self::SetChunkSize => 1,
            Self::Abort => 2,
            Self::Acknowledgement => 3,
            Self::UserControl => 4,
            Self::WindowAckSize => 5,
            Self::SetPeerBandwidth => 6,
            Self::Audio => 8,
            Self::Video => 9,
            Self::Amf3Data => 15,
            Self::Amf3Command => 17,
            Self::Amf0Data => 18,
            Self::Amf0Command => 20,
            Self::Aggregate => 22,
            Self::Other(id) => id,
        }
    }
}

/// One whole message, with the chunking undone.
///
/// It carries no chunk stream id. Which chunk stream a message arrived on is
/// a fact about the wire rather than about the message, so it ends at this
/// module's edge. [`Writer::write`] takes the one to send on as an argument
/// for the same reason.
#[derive(Debug, PartialEq, Eq)]
pub struct Message {
    /// When the message belongs, in milliseconds from an origin the peer
    /// chose and never states.
    ///
    /// Kept as the protocol's own 32-bit counter, which wraps: turning it into
    /// a timeline that starts at zero means knowing which message came first,
    /// and that is the ingest's job and not the chunk stream's.
    pub timestamp: u32,
    /// What the message is.
    pub kind: MessageType,
    /// Which message stream it belongs to. Zero is the connection itself,
    /// where the protocol control messages live; a published stream gets its
    /// own from `createStream`.
    pub stream_id: u32,
    /// The message's bytes, with no chunk headers left in them.
    pub payload: Bytes,
}

/// What a [`Message`] says.
pub struct MessageView {
    pub timestamp: u32,
    pub kind: MessageType,
    pub stream_id: u32,
    pub payload: Seq<u8>,
}

impl View for Message {
    type V = MessageView;

    open spec fn view(&self) -> MessageView {
        MessageView {
            timestamp: self.timestamp,
            kind: self.kind,
            stream_id: self.stream_id,
            payload: self.payload@,
        }
    }
}

impl Clone for Message {
    fn clone(&self) -> (copy: Self)
        ensures
            copy@ == self@,
    {
        Self {
            timestamp: self.timestamp,
            kind: self.kind,
            stream_id: self.stream_id,
            payload: self.payload.clone(),
        }
    }
}

/// A chunk stream id: which of the connection's parallel chunk streams a
/// chunk belongs to.
///
/// Checked on the way in because 0 and 1 are not identifiers at all, but the
/// marks that say the real id follows in one or two more bytes, and an id past
/// 65 599 cannot be written down.
#[derive(Clone, Copy, Debug, PartialEq, Eq, Hash, PartialOrd, Ord)]
pub struct ChunkStreamId(u32);

impl ChunkStreamId {
    /// The id itself.
    pub closed spec fn spec_value(self) -> u32 {
        self.0
    }

    #[verifier::type_invariant]
    spec fn can_be_written(self) -> bool {
        2 <= self.0 <= 65_599
    }

    /// Protocol control messages. The only id the protocol fixes.
    pub fn control() -> (csid: Self)
        ensures
            csid.spec_value() == 2,
    {
        Self(2)
    }

    /// AMF commands. Convention, and followed everywhere.
    pub fn command() -> (csid: Self)
        ensures
            csid.spec_value() == 3,
    {
        Self(3)
    }

    /// Audio. Convention.
    pub fn audio() -> (csid: Self)
        ensures
            csid.spec_value() == 4,
    {
        Self(4)
    }

    /// Metadata. Convention.
    pub fn data() -> (csid: Self)
        ensures
            csid.spec_value() == 5,
    {
        Self(5)
    }

    /// Video. Convention, and apart from audio so that a large picture does
    /// not hold up sound.
    pub fn video() -> (csid: Self)
        ensures
            csid.spec_value() == 6,
    {
        Self(6)
    }

    /// Takes an id in 2..=65 599, or `None` for one that cannot be written.
    pub fn new(id: u32) -> (csid: Option<Self>)
        ensures
            csid is Some <==> 2 <= id <= 65_599,
            csid matches Some(csid) ==> csid.spec_value() == id,
    {
        if 2 <= id && id <= 65_599 {
            Some(Self(id))
        } else {
            None
        }
    }

    /// The id itself.
    pub fn value(self) -> (id: u32)
        ensures
            id == self.spec_value(),
            2 <= id <= 65_599,
    {
        proof {
            use_type_invariant(&self);
        }
        self.0
    }
}

/// What can be wrong with a chunk stream.
///
/// Every one of these is a peer that is not speaking RTMP, and none can be
/// recovered from: the chunk stream's state is what says how to read the next
/// chunk, so once it is in doubt every byte after it is too. A connection that
/// sees one of these should close.
#[derive(Debug, PartialEq, Eq)]
pub enum ChunkError {
    /// A chunk left out fields with nothing on that chunk stream to take
    /// them from. The first chunk of a chunk stream has to be format 0.
    NothingToInherit { csid: u32, fmt: u8 },
    /// A chunk began a message on a chunk stream whose last one is still
    /// unfinished. A chunk stream carries one message at a time; the half-read
    /// one could only be dropped, and dropping it quietly sends a corrupt
    /// picture on.
    Interleaved { csid: u32, pending: usize },
    /// A message longer than this assembles. See [`MAX_ASSEMBLED_LENGTH`].
    MessageTooLong { length: usize, limit: usize },
    /// More chunk streams than one connection has any use for. See
    /// [`MAX_CHUNK_STREAMS`].
    TooManyChunkStreams,
    /// A chunk size of zero, or one past what the protocol allows.
    InvalidChunkSize(u32),
    /// A protocol control message whose payload is not the four bytes it is
    /// defined as.
    MalformedControl { kind: &'static str, length: usize },
}

/// The fields a chunk stream carries forward, which is everything a chunk
/// with a shortened header leaves out.
#[derive(Clone, Copy, Debug)]
pub struct State {
    /// The current message's timestamp, absolute.
    pub timestamp: u32,
    /// The last delta seen, which a format 3 chunk starting a new message
    /// advances by.
    pub delta: u32,
    pub length: usize,
    pub kind: MessageType,
    pub stream_id: u32,
    /// Whether the current message's timestamp went in the four bytes after
    /// the header rather than in the header.
    pub extended: bool,
}

/// One chunk stream being reassembled: what its last chunk said, and the
/// bytes of the message it is part-way through.
struct ChunkStream {
    state: State,
    payload: BytesMut,
}

/// What a reader remembers of one chunk stream: what its last chunk said, and
/// the bytes so far of the message it is part-way through.
pub struct StreamView {
    pub state: State,
    pub pending: Seq<u8>,
}

impl ChunkStream {
    spec fn view(&self) -> StreamView {
        StreamView { state: self.state, pending: self.payload@ }
    }
}

/// What one chunk turned out to be.
enum Step {
    /// It finished a message.
    Message(Message),
    /// It was taken in, and the message it belongs to is still incomplete.
    Absorbed,
    /// It is not all here yet, and nothing was consumed.
    NeedMore,
}

/// What one chunk turned out to be.
pub enum StepView {
    /// It finished a message.
    Message(MessageView),
    /// It was taken in, and the message it belongs to is still incomplete.
    Absorbed,
    /// It is not all here yet, and nothing was consumed.
    NeedMore,
}

impl Step {
    spec fn view(&self) -> StepView {
        match *self {
            Step::Message(message) => StepView::Message(message@),
            Step::Absorbed => StepView::Absorbed,
            Step::NeedMore => StepView::NeedMore,
        }
    }
}

/// What a [`Reader`] remembers.
pub struct ReaderView {
    pub streams: Map<u32, StreamView>,
    pub chunk_size: nat,
}

impl ReaderView {
    /// What holds of every reader: its chunk size is one a peer may ask for,
    /// it remembers no more chunk streams than it allows, and no message it is
    /// part-way through is already whole.
    pub open spec fn wf(self) -> bool {
        &&& 1 <= self.chunk_size <= MAX_CHUNK_SIZE
        &&& self.streams.dom().finite()
        &&& self.streams.len() <= MAX_CHUNK_STREAMS
        &&& forall|csid: u32| #[trigger]
            self.streams.contains_key(csid) ==> {
                &&& self.streams[csid].state.length <= MAX_ASSEMBLED_LENGTH
                &&& self.streams[csid].pending.len() == 0 || self.streams[csid].pending.len()
                    < self.streams[csid].state.length
            }
    }

    /// The bytes so far of the message a chunk stream is part-way through.
    pub open spec fn pending(self, csid: u32) -> Seq<u8> {
        if self.streams.contains_key(csid) {
            self.streams[csid].pending
        } else {
            Seq::empty()
        }
    }

    /// What the last chunk of a chunk stream said.
    pub open spec fn last(self, csid: u32) -> Option<State> {
        if self.streams.contains_key(csid) {
            Some(self.streams[csid].state)
        } else {
            None
        }
    }

    /// The reader with one chunk stream put to what is given.
    pub open spec fn with(self, csid: u32, state: State, pending: Seq<u8>) -> ReaderView {
        ReaderView { streams: self.streams.insert(csid, StreamView { state, pending }), ..self }
    }
}

/// The format, the chunk stream id and the width of the basic header at the
/// front of `s`, or `None` where it is not all there.
///
/// The six bits that would hold the id are 0 or 1 when it is too large for
/// them, and the wider forms count from 64 because everything below that is
/// already expressible.
#[verifier::opaque]
pub open spec fn basic_header(s: Seq<u8>) -> Option<(u8, u32, int)> {
    if s.len() == 0 {
        None
    } else {
        let fmt = (s[0] / 64) as u8;
        let low = s[0] % 64;
        if low == 0 {
            if s.len() < 2 {
                None
            } else {
                Some((fmt, (s[1] + 64) as u32, 2int))
            }
        } else if low == 1 {
            if s.len() < 3 {
                None
            } else {
                Some((fmt, (s[1] + s[2] * 0x100 + 64) as u32, 3int))
            }
        } else {
            Some((fmt, low as u32, 1int))
        }
    }
}

/// The width of a message header, without an extended timestamp.
pub open spec fn header_width(fmt: u8) -> int {
    if fmt == 0 {
        11
    } else if fmt == 1 {
        7
    } else if fmt == 2 {
        3
    } else {
        0
    }
}

/// Whether the message header of format `fmt` at `at` is followed by four
/// bytes of timestamp: it says so itself, or, where it has no timestamp field,
/// the last one on the chunk stream did.
pub open spec fn is_extended(fmt: u8, last: Option<State>, s: Seq<u8>, at: int) -> bool {
    if fmt == 3 {
        last->0.extended
    } else {
        num24(s, at) == EXTENDED_TIMESTAMP
    }
}

/// The timestamp field of a message header that has one, wherever it stands.
pub open spec fn written_time(fmt: u8, s: Seq<u8>, at: int) -> u32 {
    if num24(s, at) == EXTENDED_TIMESTAMP {
        num32(s, at + header_width(fmt)) as u32
    } else {
        num24(s, at) as u32
    }
}

/// What a message header of format `fmt` at `at` puts its chunk stream to,
/// given what the last chunk there said. `midway` says that the chunk goes on
/// with a message already begun.
pub open spec fn headed(
    fmt: u8,
    last: Option<State>,
    midway: bool,
    s: Seq<u8>,
    at: int,
) -> State {
    if fmt == 0 {
        State {
            timestamp: written_time(fmt, s, at),
            delta: 0,
            length: num24(s, at + 3) as usize,
            kind: type_of(s[at + 6]),
            stream_id: num32_le(s, at + 7) as u32,
            extended: is_extended(fmt, last, s, at),
        }
    } else if fmt == 1 || fmt == 2 {
        let delta = written_time(fmt, s, at);
        State {
            timestamp: later(last->0.timestamp, delta),
            delta,
            length: if fmt == 1 {
                num24(s, at + 3) as usize
            } else {
                last->0.length
            },
            kind: if fmt == 1 {
                type_of(s[at + 6])
            } else {
                last->0.kind
            },
            stream_id: last->0.stream_id,
            extended: is_extended(fmt, last, s, at),
        }
    } else if midway {
        last->0
    } else {
        State { timestamp: later(last->0.timestamp, last->0.delta), ..last->0 }
    }
}

/// A moment on the protocol's wrapping counter, and a step on from it.
pub open spec fn later(timestamp: u32, delta: u32) -> u32 {
    ((timestamp + delta) % 0x1_0000_0000) as u32
}

/// What a message header of format `fmt` at `at` says, and where the chunk's
/// payload begins; `None` where the header is not all there.
pub open spec fn message_header(
    fmt: u8,
    last: Option<State>,
    midway: bool,
    s: Seq<u8>,
    at: int,
) -> Option<(State, int)> {
    let fields = at + header_width(fmt);
    if s.len() < fields {
        None
    } else if !is_extended(fmt, last, s, at) {
        Some((headed(fmt, last, midway, s, at), fields))
    } else if s.len() < fields + 4 {
        None
    } else {
        Some((headed(fmt, last, midway, s, at), fields + 4))
    }
}

/// What one chunk does: what it turned out to be, the reader after it, and
/// what is left in the buffer.
pub struct Stepped {
    pub outcome: Result<StepView, ChunkError>,
    pub reader: ReaderView,
    pub rest: Seq<u8>,
}

/// What the chunk at the front of `s` does to a reader.
#[verifier::opaque]
pub open spec fn step(r: ReaderView, s: Seq<u8>) -> Stepped {
    let waiting = Stepped { outcome: Ok(StepView::NeedMore), reader: r, rest: s };
    match basic_header(s) {
        None => waiting,
        Some((fmt, csid, at)) => {
            let last = r.last(csid);
            let pending = r.pending(csid);
            if last is None && fmt != 0 {
                Stepped {
                    outcome: Err(ChunkError::NothingToInherit { csid, fmt }),
                    ..waiting
                }
            } else if last is None && r.streams.len() >= MAX_CHUNK_STREAMS {
                Stepped { outcome: Err(ChunkError::TooManyChunkStreams), ..waiting }
            } else if fmt != 3 && pending.len() > 0 {
                Stepped {
                    outcome: Err(
                        ChunkError::Interleaved { csid, pending: pending.len() as usize },
                    ),
                    ..waiting
                }
            } else {
                match message_header(fmt, last, pending.len() > 0, s, at) {
                    None => waiting,
                    Some((state, body)) => {
                        if state.length > MAX_ASSEMBLED_LENGTH {
                            Stepped {
                                outcome: Err(
                                    ChunkError::MessageTooLong {
                                        length: state.length,
                                        limit: MAX_ASSEMBLED_LENGTH,
                                    },
                                ),
                                ..waiting
                            }
                        } else {
                            taken_in(r, s, csid, state, body)
                        }
                    },
                }
            }
        },
    }
}

/// How much of its message the next chunk of a chunk stream carries.
pub open spec fn chunk_length(r: ReaderView, csid: u32, state: State) -> int {
    let outstanding = state.length - r.pending(csid).len();
    if outstanding < r.chunk_size {
        outstanding
    } else {
        r.chunk_size as int
    }
}

/// What a chunk does whose header has been read: its payload starts at `body`.
#[verifier::opaque]
pub open spec fn taken_in(
    r: ReaderView,
    s: Seq<u8>,
    csid: u32,
    state: State,
    body: int,
) -> Stepped {
    let end = body + chunk_length(r, csid, state);
    if s.len() < end {
        Stepped { outcome: Ok(StepView::NeedMore), reader: r, rest: s }
    } else {
        let gathered = r.pending(csid) + s.subrange(body, end);
        if gathered.len() < state.length {
            Stepped {
                outcome: Ok(StepView::Absorbed),
                reader: r.with(csid, state, gathered),
                rest: s.skip(end),
            }
        } else {
            finished(
                r.with(csid, state, Seq::empty()),
                MessageView {
                    timestamp: state.timestamp,
                    kind: state.kind,
                    stream_id: state.stream_id,
                    payload: gathered,
                },
                s.skip(end),
            )
        }
    }
}

/// What a message that is now whole does.
pub open spec fn finished(r: ReaderView, message: MessageView, rest: Seq<u8>) -> Stepped {
    match applied(r, message) {
        Ok(reader) => Stepped { outcome: Ok(StepView::Message(message)), reader, rest },
        Err(error) => Stepped { outcome: Err(error), reader: r, rest },
    }
}

/// What a message does to the reader that read it.
#[verifier::opaque]
pub open spec fn applied(r: ReaderView, message: MessageView) -> Result<ReaderView, ChunkError> {
    if message.kind == MessageType::SetChunkSize {
        let value = num32(message.payload, 0) % 0x8000_0000;
        if message.payload.len() != 4 {
            Err(
                ChunkError::MalformedControl {
                    kind: "set chunk size",
                    length: message.payload.len() as usize,
                },
            )
        } else if value == 0 || value > MAX_CHUNK_SIZE {
            Err(ChunkError::InvalidChunkSize(value as u32))
        } else {
            Ok(ReaderView { chunk_size: value as nat, ..r })
        }
    } else if message.kind == MessageType::Abort {
        let csid = num32(message.payload, 0) as u32;
        if message.payload.len() != 4 {
            Err(
                ChunkError::MalformedControl {
                    kind: "abort",
                    length: message.payload.len() as usize,
                },
            )
        } else if r.streams.contains_key(csid) {
            Ok(r.with(csid, r.streams[csid].state, Seq::empty()))
        } else {
            Ok(r)
        }
    } else {
        Ok(r)
    }
}

/// What a call of [`Reader::read`] does: what it returns, the reader after it,
/// and what is left in the buffer.
pub struct Reading {
    pub outcome: Result<Option<MessageView>, ChunkError>,
    pub reader: ReaderView,
    pub rest: Seq<u8>,
}

/// Takes in one chunk after another until one finishes a message, one cannot
/// be read, or the next is not all there.
pub open spec fn reading(r: ReaderView, s: Seq<u8>) -> Reading
    decreases s.len(),
{
    let stepped = step(r, s);
    match stepped.outcome {
        Ok(StepView::Message(message)) => Reading {
            outcome: Ok(Some(message)),
            reader: stepped.reader,
            rest: stepped.rest,
        },
        Ok(StepView::Absorbed) if stepped.rest.len() < s.len() => reading(
            stepped.reader,
            stepped.rest,
        ),
        Ok(_) => Reading { outcome: Ok(None), reader: r, rest: s },
        Err(error) => Reading {
            outcome: Err(error),
            reader: stepped.reader,
            rest: stepped.rest,
        },
    }
}

/// Reassembles a peer's chunks into messages.
///
/// One belongs to one connection: it holds the per-chunk-stream state that
/// says how to read a chunk with a shortened header, and that state means
/// nothing away from the peer it was built from.
pub struct Reader {
    streams: HashMap<u32, ChunkStream>,
    chunk_size: usize,
}

impl View for Reader {
    type V = ReaderView;

    closed spec fn view(&self) -> ReaderView {
        ReaderView {
            streams: self.streams@.map_values(|stream: ChunkStream| stream@),
            chunk_size: self.chunk_size as nat,
        }
    }
}

impl Default for Reader {
    fn default() -> (reader: Self)
        ensures
            reader@.wf(),
            reader@ == (ReaderView {
                streams: Map::empty(),
                chunk_size: DEFAULT_CHUNK_SIZE as nat,
            }),
    {
        Self::new()
    }
}

impl Reader {
    proof fn lemma_dom(&self)
        ensures
            self@.streams.dom() == self.streams@.dom(),
            self@.streams.len() == self.streams@.len(),
    {
        assert(self@.streams.dom() =~= self.streams@.dom());
    }

    /// A reader at the chunk size a connection opens at.
    pub fn new() -> (reader: Self)
        ensures
            reader@.wf(),
            reader@ == (ReaderView {
                streams: Map::empty(),
                chunk_size: DEFAULT_CHUNK_SIZE as nat,
            }),
    {
        let reader = Self { streams: HashMap::new(), chunk_size: DEFAULT_CHUNK_SIZE };
        assert(reader@.streams =~= Map::<u32, StreamView>::empty());
        reader
    }

    /// The size of the peer's chunks, as it last said.
    pub fn chunk_size(&self) -> (size: usize)
        ensures
            size == self@.chunk_size,
    {
        self.chunk_size
    }

    /// Takes the next whole message out of `buf`, or `None` if there is not
    /// one there yet.
    ///
    /// Consumes what it uses and leaves the rest, so a caller reads from its
    /// socket into the same buffer and calls again. A chunk that is only
    /// partly present consumes nothing, which is what makes calling this
    /// after every read safe.
    ///
    /// Call it until it returns `None` before reading more: one read can
    /// carry several messages, and a caller that took only the first would
    /// hold the rest until the next byte arrived, which, on a stream that has
    /// gone quiet, may be never.
    pub fn read(&mut self, buf: &mut BytesMut) -> (outcome: Result<Option<Message>, ChunkError>)
        requires
            old(self)@.wf(),
        ensures
            final(self)@.wf(),
            ({
                let reading = reading(old(self)@, old(buf)@);
                &&& final(self)@ == reading.reader
                &&& final(buf)@ == reading.rest
                &&& match outcome {
                    Ok(Some(message)) => reading.outcome == Ok::<_, ChunkError>(Some(message@)),
                    Ok(None) => reading.outcome == Ok::<_, ChunkError>(None::<MessageView>),
                    Err(error) => reading.outcome == Err::<Option<MessageView>, _>(error),
                }
            }),
            outcome matches Ok(Some(message)) ==> message@.payload.len() <= MAX_ASSEMBLED_LENGTH,
    {
        loop
            invariant
                self@.wf(),
                reading(self@, buf@) == reading(old(self)@, old(buf)@),
            decreases buf@.len(),
        {
            match self.read_chunk(buf) {
                Ok(Step::Message(message)) => {
                    return Ok(Some(message));
                },
                Ok(Step::Absorbed) => {},
                Ok(Step::NeedMore) => {
                    return Ok(None);
                },
                Err(error) => {
                    return Err(error);
                },
            }
        }
    }

    /// Takes in the chunk at the front of `buf`.
    fn read_chunk(&mut self, buf: &mut BytesMut) -> (outcome: Result<Step, ChunkError>)
        requires
            old(self)@.wf(),
        ensures
            final(self)@.wf(),
            ({
                let stepped = step(old(self)@, old(buf)@);
                &&& final(self)@ == stepped.reader
                &&& final(buf)@ == stepped.rest
                &&& match outcome {
                    Ok(step) => stepped.outcome == Ok::<_, ChunkError>(step@),
                    Err(error) => stepped.outcome == Err::<StepView, _>(error),
                }
                &&& outcome matches Ok(Step::Absorbed) ==> final(buf)@.len() < old(buf)@.len()
            }),
            outcome matches Ok(Step::NeedMore) ==> final(self)@ == old(self)@ && final(buf)@ == old(
                buf,
            )@,
            outcome matches Ok(Step::Message(message)) ==> message@.payload.len()
                <= MAX_ASSEMBLED_LENGTH,
    {
        proof {
            reveal(step);
        }
        let data = pending(buf);
        let (fmt, csid, at) = match read_basic_header(data) {
            Some(header) => header,
            None => {
                return Ok(Step::NeedMore);
            },
        };

        let (last, have): (Option<State>, usize) = match self.streams.get(&csid) {
            Some(stream) => (Some(stream.state), pending(&stream.payload).len()),
            None => (None, 0),
        };
        proof {
            self.lemma_dom();
        }
        assert(last == self@.last(csid));
        assert(have == self@.pending(csid).len());

        if last.is_none() {
            if fmt != 0 {
                return Err(ChunkError::NothingToInherit { csid, fmt });
            }
            if self.streams.len() >= MAX_CHUNK_STREAMS {
                return Err(ChunkError::TooManyChunkStreams);
            }
        } else if fmt != 3 && have > 0 {
            return Err(ChunkError::Interleaved { csid, pending: have });
        }
        let (state, body) = match read_message_header(data, at, fmt, last, have > 0) {
            Some(header) => header,
            None => {
                return Ok(Step::NeedMore);
            },
        };

        if state.length > MAX_ASSEMBLED_LENGTH {
            return Err(
                ChunkError::MessageTooLong { length: state.length, limit: MAX_ASSEMBLED_LENGTH },
            );
        }
        self.take_in(buf, csid, state, body, have)
    }

    /// Takes in a chunk whose header has been read: its payload begins at
    /// `body`, and `have` bytes of its message came before it.
    fn take_in(
        &mut self,
        buf: &mut BytesMut,
        csid: u32,
        state: State,
        body: usize,
        have: usize,
    ) -> (outcome: Result<Step, ChunkError>)
        requires
            old(self)@.wf(),
            0 < body <= old(buf)@.len(),
            state.length <= MAX_ASSEMBLED_LENGTH,
            have == old(self)@.pending(csid).len(),
            have == 0 || have < state.length,
            old(self)@.last(csid) is Some || old(self)@.streams.len() < MAX_CHUNK_STREAMS,
        ensures
            final(self)@.wf(),
            ({
                let stepped = taken_in(old(self)@, old(buf)@, csid, state, body as int);
                &&& final(self)@ == stepped.reader
                &&& final(buf)@ == stepped.rest
                &&& match outcome {
                    Ok(step) => stepped.outcome == Ok::<_, ChunkError>(step@),
                    Err(error) => stepped.outcome == Err::<StepView, _>(error),
                }
                &&& outcome matches Ok(Step::Absorbed) ==> final(buf)@.len() < old(buf)@.len()
            }),
            outcome matches Ok(Step::NeedMore) ==> final(self)@ == old(self)@ && final(buf)@ == old(
                buf,
            )@,
            outcome matches Ok(Step::Message(message)) ==> message@.payload.len()
                <= MAX_ASSEMBLED_LENGTH,
    {
        proof {
            reveal(taken_in);
        }
        let data = pending(buf);
        let ghost s = data@;
        let outstanding = state.length - have;
        let wanted = if outstanding < self.chunk_size {
            outstanding
        } else {
            self.chunk_size
        };
        if data.len() - body < wanted {
            return Ok(Step::NeedMore);
        }
        advance(buf, body);
        let chunk = buf.split_to(wanted);
        assert(chunk@ =~= s.subrange(body as int, body + wanted));
        assert(buf@ =~= s.skip(body + wanted));

        let mut stream = match self.streams.remove(&csid) {
            Some(stream) => stream,
            None => ChunkStream { state, payload: BytesMut::new() },
        };
        stream.state = state;
        let gathered: usize = have + wanted;
        let ghost taken = stream@;
        assert(taken.pending == old(self)@.pending(csid));
        let complete = if have == 0 && wanted == state.length {
            // The whole message came in one chunk, which is the ordinary case
            // for commands and for audio. Hand the buffer on rather than
            // copying it through the reassembly buffer.
            Some(chunk.freeze())
        } else {
            stream.payload.extend_from_slice(pending(&chunk));
            if gathered == state.length {
                Some(stream.payload.split().freeze())
            } else {
                None
            }
        };
        self.streams.insert(csid, stream);
        proof {
            let whole = taken.pending + s.subrange(body as int, body + wanted);
            let left = if complete is Some {
                Seq::empty()
            } else {
                whole
            };
            assert(complete matches Some(payload) ==> payload@ =~= whole);
            assert(stream@.pending =~= left);
            assert(self@.streams =~= old(self)@.with(csid, state, left).streams);
            assert(self@ == old(self)@.with(csid, state, left));
        }

        match complete {
            None => Ok(Step::Absorbed),
            Some(payload) => {
                let message = Message {
                    timestamp: state.timestamp,
                    kind: state.kind,
                    stream_id: state.stream_id,
                    payload,
                };
                match self.apply(&message) {
                    Ok(()) => Ok(Step::Message(message)),
                    Err(error) => Err(error),
                }
            },
        }
    }

    /// Acts on the messages that describe the chunk stream itself. See the
    /// module docs for why the reader does this rather than its caller.
    fn apply(&mut self, message: &Message) -> (outcome: Result<(), ChunkError>)
        requires
            old(self)@.wf(),
        ensures
            final(self)@.wf(),
            match outcome {
                Ok(()) => applied(old(self)@, message@) == Ok::<_, ChunkError>(final(self)@),
                Err(error) => applied(old(self)@, message@) == Err::<ReaderView, _>(error)
                    && final(self)@ == old(self)@,
            },
    {
        proof {
            reveal(applied);
        }
        match message.kind {
            MessageType::SetChunkSize => {
                // The top bit is reserved and zero; dropping it rather than
                // refusing it keeps a peer that sets it working.
                let value: u32 = match control_u32(message, "set chunk size") {
                    Ok(value) => value % 0x8000_0000,
                    Err(error) => {
                        return Err(error);
                    },
                };
                if value == 0 || value as usize > MAX_CHUNK_SIZE {
                    return Err(ChunkError::InvalidChunkSize(value));
                }
                self.chunk_size = value as usize;
                Ok(())
            },
            MessageType::Abort => {
                let csid: u32 = match control_u32(message, "abort") {
                    Ok(csid) => csid,
                    Err(error) => {
                        return Err(error);
                    },
                };
                match self.streams.remove(&csid) {
                    Some(stream) => {
                        self.streams.insert(
                            csid,
                            ChunkStream { state: stream.state, payload: BytesMut::new() },
                        );
                    },
                    None => {},
                }
                proof {
                    if old(self)@.streams.contains_key(csid) {
                        assert(self@.streams =~= old(self)@.with(
                            csid,
                            old(self)@.streams[csid].state,
                            Seq::empty(),
                        ).streams);
                    } else {
                        assert(self@.streams =~= old(self)@.streams);
                    }
                }
                Ok(())
            },
            _ => Ok(()),
        }
    }
}

/// What a [`Writer`] remembers.
pub struct WriterView {
    pub streams: Map<u32, State>,
    pub chunk_size: nat,
}

impl WriterView {
    /// What holds of every writer: its chunk size is one a peer may be told
    /// of, and it remembers only what it could have written.
    pub open spec fn wf(self) -> bool {
        &&& 1 <= self.chunk_size <= MAX_CHUNK_SIZE
        &&& forall|csid: u32| #[trigger]
            self.streams.contains_key(csid) ==> self.streams[csid].length <= MAX_MESSAGE_LENGTH
    }

    /// What the last message on a chunk stream said.
    pub open spec fn last(self, csid: u32) -> Option<State> {
        if self.streams.contains_key(csid) {
            Some(self.streams[csid])
        } else {
            None
        }
    }
}

/// The shortest format that says what `message` is, after what the last
/// message on its chunk stream said, and the timestamp or delta it states.
///
/// Format 0 restates everything, and is the only one that can express a new
/// message stream or a timestamp that went backwards: the shorter formats can
/// only add to the last one. Format 3 repeats the last delta, and with it
/// whether four bytes of timestamp follow, so it can only stand in for a header
/// that would have said both the same.
pub open spec fn shortest(last: Option<State>, message: MessageView) -> (u8, u32) {
    match last {
        Some(last) if last.stream_id == message.stream_id && message.timestamp
            >= last.timestamp => {
            let delta = (message.timestamp - last.timestamp) as u32;
            if last.length != message.payload.len() || last.kind != message.kind {
                (1, delta)
            } else if last.delta != delta || last.extended != (delta >= EXTENDED_TIMESTAMP) {
                (2, delta)
            } else {
                (3, delta)
            }
        },
        _ => (0, message.timestamp),
    }
}

/// A basic header.
#[verifier::opaque]
pub open spec fn basic_header_bytes(fmt: u8, csid: u32) -> Seq<u8> {
    if csid <= 63 {
        seq![(fmt * 64 + csid) as u8]
    } else if csid <= 319 {
        seq![(fmt * 64) as u8, (csid - 64) as u8]
    } else {
        seq![(fmt * 64 + 1) as u8] + le16(csid - 64)
    }
}

/// The four bytes a time too large for its field goes in, or nothing.
pub open spec fn extended_bytes(written: u32) -> Seq<u8> {
    if written >= EXTENDED_TIMESTAMP {
        be32(written as int)
    } else {
        Seq::empty()
    }
}

/// A message header of format `fmt` stating the time `written`, with the
/// extended timestamp where it has one.
pub open spec fn message_header_bytes(fmt: u8, written: u32, message: MessageView) -> Seq<u8> {
    let time = if written >= EXTENDED_TIMESTAMP {
        be24(EXTENDED_TIMESTAMP as int)
    } else {
        be24(written as int)
    };
    let length_and_type = be24(message.payload.len() as int).push(message.kind.spec_id());
    let fields = if fmt == 0 {
        time + length_and_type + le32(message.stream_id as int)
    } else if fmt == 1 {
        time + length_and_type
    } else if fmt == 2 {
        time
    } else {
        Seq::empty()
    };
    fields + extended_bytes(written)
}

/// A payload cut into chunks of `size`: the first follows the headers, and
/// each of the others follows a header that says nothing but which chunk
/// stream it is on, and repeats the extended timestamp if there was one.
pub open spec fn cut(payload: Seq<u8>, size: nat, csid: u32, repeat: Seq<u8>) -> Seq<u8>
    decreases payload.len(),
{
    if payload.len() <= size || size == 0 {
        payload
    } else {
        payload.take(size as int) + basic_header_bytes(3, csid) + repeat + cut(
            payload.skip(size as int),
            size,
            csid,
            repeat,
        )
    }
}

/// The bytes that put a message on a chunk stream.
pub open spec fn writing(w: WriterView, csid: u32, message: MessageView) -> Seq<u8> {
    let (fmt, written) = shortest(w.last(csid), message);
    basic_header_bytes(fmt, csid) + message_header_bytes(fmt, written, message) + cut(
        message.payload,
        w.chunk_size,
        csid,
        extended_bytes(written),
    )
}

/// What a writer remembers of a message it has written.
pub open spec fn remembered(last: Option<State>, message: MessageView) -> State {
    let (fmt, written) = shortest(last, message);
    State {
        timestamp: message.timestamp,
        delta: if fmt == 0 {
            0
        } else {
            written
        },
        length: message.payload.len() as usize,
        kind: message.kind,
        stream_id: message.stream_id,
        extended: written >= EXTENDED_TIMESTAMP,
    }
}

/// The writer after a message on a chunk stream.
pub open spec fn after_writing(w: WriterView, csid: u32, message: MessageView) -> WriterView {
    WriterView { streams: w.streams.insert(csid, remembered(w.last(csid), message)), ..w }
}

/// Cuts messages into chunks.
///
/// One belongs to one connection, for the reason [`Reader`] does: the
/// shortened headers it writes are only readable against the state of the
/// chunk stream it wrote the last one on.
pub struct Writer {
    streams: HashMap<u32, State>,
    chunk_size: usize,
}

impl View for Writer {
    type V = WriterView;

    closed spec fn view(&self) -> WriterView {
        WriterView { streams: self.streams@, chunk_size: self.chunk_size as nat }
    }
}

impl Default for Writer {
    fn default() -> (writer: Self)
        ensures
            writer@.wf(),
            writer@ == (WriterView {
                streams: Map::empty(),
                chunk_size: DEFAULT_CHUNK_SIZE as nat,
            }),
    {
        Self::new()
    }
}

impl Writer {
    /// A writer at the chunk size a connection opens at.
    pub fn new() -> (writer: Self)
        ensures
            writer@.wf(),
            writer@ == (WriterView {
                streams: Map::empty(),
                chunk_size: DEFAULT_CHUNK_SIZE as nat,
            }),
    {
        Self { streams: HashMap::new(), chunk_size: DEFAULT_CHUNK_SIZE }
    }

    /// The size of the chunks this writes.
    pub fn chunk_size(&self) -> (size: usize)
        ensures
            size == self@.chunk_size,
    {
        self.chunk_size
    }

    /// Changes it, for the messages written after this.
    ///
    /// The caller is the one that sends the `SetChunkSize` saying so, and
    /// has to send it before calling this: the peer goes on reading at the
    /// old size until that message reaches it.
    pub fn set_chunk_size(&mut self, size: usize) -> (outcome: Result<(), ChunkError>)
        requires
            old(self)@.wf(),
        ensures
            final(self)@.wf(),
            outcome is Ok <==> 1 <= size <= MAX_CHUNK_SIZE,
            outcome is Ok ==> final(self)@ == (WriterView { chunk_size: size as nat, ..old(self)@ }),
            outcome matches Err(error) ==> final(self)@ == old(self)@ && error
                == ChunkError::InvalidChunkSize(
                if size > u32::MAX {
                    u32::MAX
                } else {
                    size as u32
                },
            ),
    {
        if size == 0 || size > MAX_CHUNK_SIZE {
            let named: u32 = if size > u32::MAX as usize {
                u32::MAX
            } else {
                size as u32
            };
            return Err(ChunkError::InvalidChunkSize(named));
        }
        self.chunk_size = size;
        Ok(())
    }

    /// Writes `message` onto chunk stream `csid`, appending to `out`.
    ///
    /// Leaves out whatever the last message on that chunk stream already
    /// said. Which fields those are is decided here rather than by the
    /// caller, because the answer is a property of the chunk stream's state:
    /// a caller that got it wrong would produce a stream that parses into
    /// different messages than the ones it was given.
    pub fn write(&mut self, out: &mut BytesMut, csid: ChunkStreamId, message: &Message) -> (outcome:
        Result<(), ChunkError>)
        requires
            old(self)@.wf(),
        ensures
            final(self)@.wf(),
            outcome is Ok <==> message@.payload.len() <= MAX_MESSAGE_LENGTH,
            outcome is Ok ==> {
                &&& final(out)@ == old(out)@ + writing(old(self)@, csid.spec_value(), message@)
                &&& final(self)@ == after_writing(old(self)@, csid.spec_value(), message@)
            },
            outcome matches Err(error) ==> {
                &&& final(out)@ == old(out)@
                &&& final(self)@ == old(self)@
                &&& error == ChunkError::MessageTooLong {
                    length: message@.payload.len() as usize,
                    limit: MAX_MESSAGE_LENGTH,
                }
            },
    {
        let payload = octets(&message.payload);
        let length: usize = payload.len();
        if length > MAX_MESSAGE_LENGTH {
            return Err(ChunkError::MessageTooLong { length, limit: MAX_MESSAGE_LENGTH });
        }
        let id: u32 = csid.value();

        let (fmt, written): (u8, u32) = match self.streams.get(&id) {
            Some(last) if last.stream_id == message.stream_id && message.timestamp
                >= last.timestamp => {
                let delta: u32 = message.timestamp - last.timestamp;
                if last.length != length || last.kind != message.kind {
                    (1, delta)
                } else if last.delta != delta || last.extended != (delta >= EXTENDED_TIMESTAMP) {
                    (2, delta)
                } else {
                    (3, delta)
                }
            },
            _ => (0, message.timestamp),
        };
        assert((fmt, written) == shortest(self@.last(id), message@));

        put_basic_header(out, fmt, id);
        put_message_header(out, fmt, written, message);
        put_chunks(out, payload, self.chunk_size, id, written);

        self.streams.insert(
            id,
            State {
                timestamp: message.timestamp,
                delta: if fmt == 0 {
                    0
                } else {
                    written
                },
                length,
                kind: message.kind,
                stream_id: message.stream_id,
                extended: written >= EXTENDED_TIMESTAMP,
            },
        );
        assert(out@ =~= old(out)@ + writing(old(self)@, id, message@));
        Ok(())
    }
}

/// Appends a basic header.
fn put_basic_header(out: &mut BytesMut, fmt: u8, csid: u32)
    requires
        fmt <= 3,
        2 <= csid <= 65_599,
    ensures
        final(out)@ == old(out)@ + basic_header_bytes(fmt, csid),
{
    if csid <= 63 {
        put_u8(out, fmt * 64 + csid as u8);
    } else if csid <= 319 {
        put_u8(out, fmt * 64);
        put_u8(out, (csid - 64) as u8);
    } else {
        put_u8(out, fmt * 64 + 1);
        put_u8(out, ((csid - 64) % 0x100) as u8);
        put_u8(out, ((csid - 64) / 0x100) as u8);
    }
    assert(out@ =~= old(out)@ + basic_header_bytes(fmt, csid)) by {
        reveal(basic_header_bytes);
        reveal(le16);
    }
}

/// Appends a message header, with the extended timestamp where it has one.
fn put_message_header(out: &mut BytesMut, fmt: u8, written: u32, message: &Message)
    requires
        fmt <= 3,
        message@.payload.len() <= MAX_MESSAGE_LENGTH,
    ensures
        final(out)@ == old(out)@ + message_header_bytes(fmt, written, message@),
{
    let extended = written >= EXTENDED_TIMESTAMP;
    if fmt <= 2 {
        let field: u32 = if extended {
            EXTENDED_TIMESTAMP
        } else {
            written
        };
        put_u24(out, field);
    }
    if fmt <= 1 {
        put_u24(out, octets(&message.payload).len() as u32);
        put_u8(out, message.kind.id());
    }
    if fmt == 0 {
        put_u32_le(out, message.stream_id);
    }
    if extended {
        put_u32(out, written);
    }
    assert(out@ =~= old(out)@ + message_header_bytes(fmt, written, message@));
}

/// Appends a payload cut into chunks.
fn put_chunks(out: &mut BytesMut, payload: &[u8], size: usize, csid: u32, written: u32)
    requires
        1 <= size,
        2 <= csid <= 65_599,
    ensures
        final(out)@ == old(out)@ + cut(payload@, size as nat, csid, extended_bytes(written)),
{
    let mut offset: usize = 0;
    let ghost repeat = extended_bytes(written);
    assert(payload@.skip(0) =~= payload@);
    while payload.len() - offset > size
        invariant
            1 <= size,
            2 <= csid <= 65_599,
            offset <= payload@.len(),
            repeat == extended_bytes(written),
            old(out)@ + cut(payload@, size as nat, csid, repeat) == out@ + cut(
                payload@.skip(offset as int),
                size as nat,
                csid,
                repeat,
            ),
        decreases payload@.len() - offset,
    {
        let ghost before = out@;
        let ghost tail = payload@.skip(offset as int);
        put_slice(out, vstd::slice::slice_subrange(payload, offset, offset + size));
        offset = offset + size;
        put_basic_header(out, 3, csid);
        if written >= EXTENDED_TIMESTAMP {
            put_u32(out, written);
        }
        proof {
            assert(tail.skip(size as int) =~= payload@.skip(offset as int));
            assert(tail.take(size as int) =~= payload@.subrange(offset - size, offset as int));
            let rest = cut(tail.skip(size as int), size as nat, csid, repeat);
            assert(out@ =~= before + tail.take(size as int) + basic_header_bytes(3, csid) + repeat);
            assert(before + cut(tail, size as nat, csid, repeat) =~= out@ + rest);
        }
    }
    put_slice(out, vstd::slice::slice_subrange(payload, offset, payload.len()));
    assert(payload@.subrange(offset as int, payload@.len() as int) =~= payload@.skip(
        offset as int,
    ));
}

/// Reads the format and chunk stream id, and says how many bytes they took.
fn read_basic_header(data: &[u8]) -> (header: Option<(u8, u32, usize)>)
    ensures
        match header {
            Some((fmt, csid, width)) => basic_header(data@) == Some((fmt, csid, width as int))
                && 0 < width <= data@.len() && fmt <= 3,
            None => basic_header(data@) is None,
        },
{
    proof {
        reveal(basic_header);
    }
    if data.len() == 0 {
        return None;
    }
    let fmt: u8 = data[0] / 64;
    let low: u8 = data[0] % 64;
    if low == 0 {
        if data.len() < 2 {
            None
        } else {
            Some((fmt, data[1] as u32 + 64, 2))
        }
    } else if low == 1 {
        if data.len() < 3 {
            None
        } else {
            Some((fmt, data[1] as u32 + data[2] as u32 * 0x100 + 64, 3))
        }
    } else {
        Some((fmt, low as u32, 1))
    }
}

/// Reads a message header, and says where the payload after it begins.
fn read_message_header(
    data: &[u8],
    at: usize,
    fmt: u8,
    last: Option<State>,
    midway: bool,
) -> (header: Option<(State, usize)>)
    requires
        at <= data@.len(),
        fmt <= 3,
        last is None ==> fmt == 0,
    ensures
        match header {
            Some((state, body)) => message_header(fmt, last, midway, data@, at as int) == Some(
                (state, body as int),
            ) && at <= body <= data@.len(),
            None => message_header(fmt, last, midway, data@, at as int) is None,
        },
{
    let width: usize = match fmt {
        0 => 11,
        1 => 7,
        2 => 3,
        _ => 0,
    };
    if data.len() - at < width {
        return None;
    }
    let fields: usize = at + width;
    let extended = match last {
        Some(last) if fmt == 3 => last.extended,
        _ => get_u24(data, at) == EXTENDED_TIMESTAMP,
    };
    if extended && data.len() - fields < 4 {
        return None;
    }
    let body: usize = if extended {
        fields + 4
    } else {
        fields
    };
    if fmt == 3 {
        // What a repeated extended timestamp holds depends on the format being
        // repeated, so it is passed over: the delta already on the chunk
        // stream says the same thing without the guess.
        let last = last.unwrap();
        if midway {
            return Some((last, body));
        }
        return Some(
            (State { timestamp: last.timestamp.wrapping_add(last.delta), ..last }, body),
        );
    }
    let written: u32 = if extended {
        get_u32(data, fields)
    } else {
        get_u24(data, at)
    };
    if fmt == 0 {
        let state = State {
            timestamp: written,
            // Format 0 states a time rather than a step from one, so there is
            // no delta yet for a format 3 chunk to repeat.
            delta: 0,
            length: get_u24(data, at + 3) as usize,
            kind: MessageType::from_id(data[at + 6]),
            // The one little-endian field in the whole protocol.
            stream_id: get_u32_le(data, at + 7),
            extended,
        };
        return Some((state, body));
    }
    let last = last.unwrap();
    let (length, kind): (usize, MessageType) = if fmt == 1 {
        (get_u24(data, at + 3) as usize, MessageType::from_id(data[at + 6]))
    } else {
        (last.length, last.kind)
    };
    // Wrapping because the protocol's counter does: a session running past 49
    // days is not an error.
    let state = State {
        timestamp: last.timestamp.wrapping_add(written),
        delta: written,
        length,
        kind,
        stream_id: last.stream_id,
        extended,
    };
    Some((state, body))
}

/// The single big-endian number that every protocol control message's payload
/// is.
fn control_u32(message: &Message, kind: &'static str) -> (outcome: Result<u32, ChunkError>)
    ensures
        match outcome {
            Ok(value) => message.payload@.len() == 4 && value == num32(message.payload@, 0),
            Err(error) => message.payload@.len() != 4 && error == (ChunkError::MalformedControl {
                kind,
                length: message.payload@.len() as usize,
            }),
        },
{
    let payload = octets(&message.payload);
    if payload.len() == 4 {
        Ok(get_u32(payload, 0))
    } else {
        Err(ChunkError::MalformedControl { kind, length: payload.len() })
    }
}

} // verus!
