//! What happens between an RTSP socket and everything else.
//!
//! Requests are read out of a buffer and handed to a [`Session`], and what comes
//! back is done here as far as it can be without a socket or a registry: answers
//! are put where they will be written from, and once a client says `PLAY`, the
//! units of the stream are cut into packets and put there too. Attaching to a
//! path, reading, writing and waiting are left to whoever holds the socket.
//!
//! # Where the packets go
//!
//! Back down the connection, wrapped in the four bytes [`interleave`] adds. A
//! client that will only take them over UDP is turned down at `SETUP` and asks
//! again for this: see [`Session::accepting_udp`].
//!
//! One socket for everything is what makes an RTSP stream work through a
//! firewall that would drop the UDP, and it costs a copy through the kernel
//! that UDP would not. For a relay whose readers are counted in tens, that
//! is the better trade; for one serving a stadium it would not be.

use crate::buffer::{octets, put_slice, Contents};
use crate::codec::aac::{fields_of, law_fields_are_bounded};
use crate::rtp;
use crate::rtp::h264::payload_of;
use crate::rtp::{
    fresh_stream, header_of, law_header_reads_back, law_packet_layout, law_packets_count_up,
    law_timestamps_are_whole_ticks, packets_of, payload_type, payloads, Header, Piece, Stream,
    StreamView, MTU,
};
use crate::rtsp::message::{
    framed, incoming, interleave, law_interleaved_frames_read_back, read, response_head, Incoming,
    IncomingView, Request, RequestView, ResponseView, RtspError, RtspErrorView, Transport,
};
use crate::rtsp::sdp::{law_rtpmap_states_the_clock, sdp_text, stated_rate, stated_type};
use crate::rtsp::session;
use crate::rtsp::session::{
    actions, codecs_of, fresh_session, handled, law_every_request_is_answered_first, Action,
    ActionView, Session, SessionView, Setup, SetupView,
};
use crate::text::lines;
use crate::track::{Codec, CodecView, Description, TrackId};
use crate::unit::{AudioPayload, Unit, UnitView, VideoPayload};
use bytes::{Bytes, BytesMut};
use vstd::prelude::*;
use vstd::utf8::encode_utf8;

verus! {

/// The next request in a buffer, and how much of the buffer it and the frames
/// in front of it are.
///
/// A frame is RTCP from the client: a receiver report, saying what it has and
/// has not had. Nothing acts on one; reading past it is what keeps the
/// connection in step.
pub open spec fn next_request(s: Seq<u8>) -> (Result<Option<RequestView>, RtspErrorView>, int)
    decreases s.len(),
{
    match incoming(s) {
        Ok(Some((IncomingView::Request(request), used))) => (Ok(Some(request)), used),
        Ok(Some((IncomingView::Interleaved { .. }, used))) => if 0 < used <= s.len() {
            let (outcome, more) = next_request(s.skip(used));
            (outcome, used + more)
        } else {
            (Ok(None), 0)
        },
        Ok(None) => (Ok(None), 0),
        Err(error) => (Err(error), 0),
    }
}

/// Takes the next request out of `buf`, reading past any frames in front of it.
pub fn take_request(buf: &mut BytesMut) -> (outcome: Result<Option<Request>, RtspError>)
    ensures
        ({
            let (expected, used) = next_request(old(buf)@);
            &&& 0 <= used <= old(buf)@.len()
            &&& final(buf)@ == old(buf)@.skip(used)
            &&& match outcome {
                Ok(Some(request)) => expected == Ok::<_, RtspErrorView>(Some(request@)),
                Ok(None) => expected == Ok::<_, RtspErrorView>(None::<RequestView>),
                Err(error) => expected == Err::<Option<RequestView>, _>(error@),
            }
        }),
{
    let ghost mut past: int = 0;
    assert(buf@.skip(0) =~= buf@);
    loop
        invariant
            0 <= past <= old(buf)@.len(),
            buf@ == old(buf)@.skip(past),
            next_request(old(buf)@).0 == next_request(buf@).0,
            next_request(old(buf)@).1 == past + next_request(buf@).1,
        decreases buf@.len(),
    {
        let ghost before = buf@;
        match read(buf) {
            Ok(Some(Incoming::Request(request))) => {
                proof {
                    let used = next_request(before).1;
                    assert(buf@ =~= old(buf)@.skip(past + used));
                }
                return Ok(Some(request));
            },
            Ok(Some(Incoming::Interleaved { .. })) => {
                proof {
                    let (_, used) = incoming(before)->Ok_0->0;
                    assert(buf@ =~= old(buf)@.skip(past + used));
                    past = past + used;
                }
            },
            Ok(None) => {
                return Ok(None);
            },
            Err(error) => {
                return Err(error);
            },
        }
    }
}

/// What turns a track's units into packets.
enum Packetizer {
    H264(rtp::h264::Packetizer),
    Aac(rtp::aac::Packetizer),
}

/// What turns a track's units into packets: the codec, and the stream they go
/// out on.
pub enum PacketizerView {
    H264(StreamView),
    Aac(StreamView),
}

impl PacketizerView {
    /// The stream the packets go out on.
    pub open spec fn stream(self) -> StreamView {
        match self {
            PacketizerView::H264(stream) => stream,
            PacketizerView::Aac(stream) => stream,
        }
    }
}

/// One track the client asked for, and what turns its units into packets.
struct Bound {
    track: TrackId,
    channel: u8,
    packetizer: Packetizer,
}

/// One track the client asked for.
pub struct BoundView {
    pub track: nat,
    pub channel: u8,
    pub packetizer: PacketizerView,
}

impl Bound {
    spec fn view(&self) -> BoundView {
        BoundView {
            track: self.track.spec_index(),
            channel: self.channel,
            packetizer: match self.packetizer {
                Packetizer::H264(packetizer) => PacketizerView::H264(packetizer@),
                Packetizer::Aac(packetizer) => PacketizerView::Aac(packetizer@),
            },
        }
    }
}

/// What is being sent, once a client has said to start.
pub struct Playing {
    tracks: Vec<Bound>,
}

impl View for Playing {
    type V = Seq<BoundView>;

    closed spec fn view(&self) -> Seq<BoundView> {
        self.tracks@.map_values(|bound: Bound| bound@)
    }
}

/// What a track that was set up is bound to: nothing, where the stream has no
/// such track or it was not to go out on the connection.
pub open spec fn binding(codecs: Seq<CodecView>, setup: SetupView, ssrc: u32) -> Option<BoundView> {
    match setup.transport {
        Transport::Interleaved { rtp, .. } if setup.track < codecs.len() => {
            let codec = codecs[setup.track as int];
            let rate = codec.clock_rate() as u32;
            Some(
                BoundView {
                    track: setup.track,
                    channel: rtp,
                    packetizer: match codec {
                        CodecView::H264(_) => PacketizerView::H264(
                            fresh_stream(ssrc, payload_type::VIDEO, rate),
                        ),
                        CodecView::Aac(_) => PacketizerView::Aac(
                            fresh_stream(ssrc, payload_type::AUDIO, rate),
                        ),
                    },
                },
            )
        },
        _ => None,
    }
}

/// What the tracks that were set up are bound to, each with the next SSRC after
/// the one before.
pub open spec fn bindings(codecs: Seq<CodecView>, setups: Seq<SetupView>, first: u32) -> Seq<
    BoundView,
>
    decreases setups.len(),
{
    if setups.len() == 0 {
        Seq::empty()
    } else {
        let bound = bindings(codecs, setups.drop_last(), first);
        let ssrc = ((first + bound.len()) % 0x1_0000_0000) as u32;
        match binding(codecs, setups.last(), ssrc) {
            Some(one) => bound.push(one),
            None => bound,
        }
    }
}

/// Packets as they go onto the connection: each in its frame, but for one too
/// long for it.
pub open spec fn frames(channel: u8, packets: Seq<Seq<u8>>) -> Seq<u8>
    decreases packets.len(),
{
    if packets.len() == 0 {
        Seq::empty()
    } else if packets.last().len() <= 0xffff {
        frames(channel, packets.drop_last()) + framed(channel, packets.last())
    } else {
        frames(channel, packets.drop_last())
    }
}

/// The pieces that a packetizer cuts a unit into: none, where the unit is of
/// another codec, or a frame that cannot be expressed.
pub open spec fn pieces_of(packetizer: PacketizerView, unit: UnitView) -> Seq<Piece> {
    match (packetizer, unit) {
        (PacketizerView::H264(stream), UnitView::Video { nalus, .. }) => rtp::h264::pieces(
            nalus,
            nalus.len(),
            stream.budget(),
        ),
        (PacketizerView::Aac(stream), UnitView::Audio { frame, .. }) => if frame.len()
            <= rtp::aac::MAX_ACCESS_UNIT {
            rtp::aac::pieces(
                frame,
                rtp::aac::size_prefix(frame.len()),
                stream.budget() - rtp::aac::PREFIX,
            )
        } else {
            Seq::empty()
        },
        _ => Seq::empty(),
    }
}

/// The packets that a unit is sent in.
pub open spec fn packets_for(packetizer: PacketizerView, unit: UnitView) -> Seq<Seq<u8>> {
    let stream = packetizer.stream();
    packets_of(stream, stream.timestamp(unit.pts()), pieces_of(packetizer, unit))
}

/// The packetizer after a unit.
pub open spec fn after_unit(packetizer: PacketizerView, unit: UnitView) -> PacketizerView {
    let stream = packetizer.stream().advanced(pieces_of(packetizer, unit).len());
    match packetizer {
        PacketizerView::H264(_) => PacketizerView::H264(stream),
        PacketizerView::Aac(_) => PacketizerView::Aac(stream),
    }
}

/// Where the first of some tracks with an index is, from `from` on.
pub open spec fn bound_at(bound: Seq<BoundView>, track: nat, from: int) -> Option<int>
    decreases bound.len() - from,
{
    if from >= bound.len() {
        None
    } else if bound[from].track == track {
        Some(from)
    } else {
        bound_at(bound, track, from + 1)
    }
}

/// What a unit does: the tracks after it, and what is sent. A unit for a track
/// the client did not set up goes nowhere.
pub open spec fn sent(bound: Seq<BoundView>, unit: UnitView) -> (Seq<BoundView>, Seq<u8>) {
    match bound_at(bound, unit.track(), 0) {
        None => (bound, Seq::empty()),
        Some(at) => {
            let one = bound[at];
            (
                bound.update(
                    at,
                    BoundView { packetizer: after_unit(one.packetizer, unit), ..one },
                ),
                frames(one.channel, packets_for(one.packetizer, unit)),
            )
        },
    }
}

/// Wraps packets for the connection.
fn interleave_all(out: &mut BytesMut, channel: u8, packets: &Vec<Bytes>)
    ensures
        final(out)@ == old(out)@ + frames(channel, payloads(packets@)),
{
    let ghost all = payloads(packets@);
    let mut i: usize = 0;
    assert(all.take(0) =~= Seq::empty());
    assert(out@ =~= old(out)@ + frames(channel, all.take(0)));
    while i < packets.len()
        invariant
            i <= packets@.len(),
            all == payloads(packets@),
            out@ == old(out)@ + frames(channel, all.take(i as int)),
        decreases packets@.len() - i,
    {
        let ghost before = out@;
        proof {
            assert(all.take(i + 1).drop_last() =~= all.take(i as int));
            assert(all.take(i + 1).last() == packets@[i as int]@);
        }
        // A packet too large to interleave, which no packetizer here makes,
        // is left out.
        let _ = interleave(out, channel, octets(&packets[i]));
        assert(out@ =~= old(out)@ + frames(channel, all.take(i + 1)));
        i = i + 1;
    }
    assert(all.take(i as int) =~= all);
}

impl Packetizer {
    spec fn view(&self) -> PacketizerView {
        match *self {
            Packetizer::H264(packetizer) => PacketizerView::H264(packetizer@),
            Packetizer::Aac(packetizer) => PacketizerView::Aac(packetizer@),
        }
    }

    /// Turns one unit into packets.
    fn packetize(&mut self, unit: &Unit) -> (packets: Vec<Bytes>)
        requires
            old(self)@.stream().mtu == MTU,
        ensures
            payloads(packets@) == packets_for(old(self)@, unit@),
            final(self)@ == after_unit(old(self)@, unit@),
    {
        match (self, unit) {
            (Packetizer::H264(packetizer), Unit::Video(unit)) => {
                let VideoPayload::H264(nalus) = &unit.payload;
                packetizer.packetize(nalus.as_slice(), unit.pts)
            },
            (Packetizer::Aac(packetizer), Unit::Audio(unit)) => {
                let AudioPayload::Aac(frame) = &unit.payload;
                match packetizer.packetize(frame, unit.pts) {
                    Ok(packets) => packets,
                    // One frame this cannot express. Dropping it costs the
                    // listener a click; ending the connection costs them the
                    // stream.
                    Err(_) => Vec::new(),
                }
            },
            // A track's codec does not change under it: a description is
            // fixed for the life of a stream.
            _ => Vec::new(),
        }
    }
}

impl Playing {
    #[verifier::type_invariant]
    spec fn packets_have_room(self) -> bool {
        forall|i: int|
            0 <= i < self.tracks@.len() ==> (#[trigger] self.tracks@[i])@.packetizer.stream().mtu
                == MTU
    }

    /// Prepares a packetizer for each track that was set up, as the stream
    /// they are of has them. The streams get SSRCs one after another, from
    /// `ssrc` on.
    pub fn attach(description: &Description, setups: &[Setup], ssrc: u32) -> (playing: Self)
        ensures
            playing@ == bindings(description@, session::setups(setups@), ssrc),
    {
        let ghost all = session::setups(setups@);
        let mut tracks: Vec<Bound> = Vec::new();
        let mut next: u32 = ssrc;
        let mut i: usize = 0;
        let ghost views = tracks@.map_values(|bound: Bound| bound@);
        assert(all.take(0) =~= Seq::empty());
        assert(views =~= bindings(description@, all.take(0), ssrc));
        while i < setups.len()
            invariant
                i <= setups@.len(),
                all == session::setups(setups@),
                tracks@.map_values(|bound: Bound| bound@) == bindings(
                    description@,
                    all.take(i as int),
                    ssrc,
                ),
                next == (ssrc + tracks@.len()) % 0x1_0000_0000,
                forall|j: int|
                    0 <= j < tracks@.len() ==> (#[trigger] tracks@[j])@.packetizer.stream().mtu
                        == MTU,
            decreases setups@.len() - i,
        {
            let ghost before = tracks@;
            proof {
                assert(all.take(i + 1).drop_last() =~= all.take(i as int));
                assert(all.take(i + 1).last() == setups@[i as int]@);
            }
            match Bound::new(description, setups[i], next) {
                Some(bound) => {
                    tracks.push(bound);
                    next = next.wrapping_add(1);
                    assert(tracks@.map_values(|bound: Bound| bound@) =~= before.map_values(
                        |bound: Bound| bound@,
                    ).push(bound@));
                },
                None => {},
            }
            i = i + 1;
        }
        assert(all.take(i as int) =~= all);
        Self { tracks }
    }

    /// Turns one unit into packets and wraps each for the connection.
    ///
    /// A unit for a track the client did not set up goes nowhere, which is
    /// what a client watching only the video of a stream with sound asked
    /// for.
    pub fn write(&mut self, out: &mut BytesMut, unit: &Unit)
        ensures
            final(self)@ == sent(old(self)@, unit@).0,
            final(out)@ == old(out)@ + sent(old(self)@, unit@).1,
    {
        proof {
            use_type_invariant(&*self);
        }
        let ghost bound = self@;
        let at: usize = match self.find(unit.track()) {
            Some(at) => at,
            None => {
                assert(out@ =~= old(out)@ + Seq::<u8>::empty());
                return;
            },
        };
        let mut tracks: Vec<Bound> = Vec::new();
        std::mem::swap(&mut tracks, &mut self.tracks);
        let ghost before = tracks@;
        let channel: u8 = tracks[at].channel;
        let packets = tracks[at].packetizer.packetize(unit);
        interleave_all(out, channel, &packets);
        assert(tracks@.map_values(|one: Bound| one@) =~= sent(bound, unit@).0);
        self.tracks = tracks;
    }

    /// Where the first of the tracks that is `track` is.
    fn find(&self, track: TrackId) -> (at: Option<usize>)
        ensures
            match at {
                Some(at) => bound_at(self@, track.spec_index(), 0) == Some(at as int) && at
                    < self.tracks@.len(),
                None => bound_at(self@, track.spec_index(), 0) is None,
            },
    {
        let mut i: usize = 0;
        while i < self.tracks.len()
            invariant
                i <= self.tracks@.len(),
                bound_at(self@, track.spec_index(), 0) == bound_at(
                    self@,
                    track.spec_index(),
                    i as int,
                ),
            decreases self.tracks@.len() - i,
        {
            if self.tracks[i].track.same(track) {
                return Some(i);
            }
            i = i + 1;
        }
        None
    }
}

impl Bound {
    /// What a track that was set up is bound to.
    fn new(description: &Description, setup: Setup, ssrc: u32) -> (bound: Option<Self>)
        ensures
            match bound {
                Some(bound) => binding(description@, setup@, ssrc) == Some(bound@)
                    && bound@.packetizer.stream().mtu == MTU,
                None => binding(description@, setup@, ssrc) is None,
            },
    {
        let codec: &Codec = match description.track(setup.track) {
            Some(track) => track.codec(),
            None => {
                return None;
            },
        };
        let channel: u8 = match setup.transport {
            Transport::Interleaved { rtp, .. } => rtp,
            // Refused at `SETUP`, so a client cannot reach this by asking.
            Transport::Udp { .. } => {
                return None;
            },
        };
        let rate: u32 = codec.clock_rate();
        let packetizer = match codec {
            Codec::H264(_) => Packetizer::H264(
                rtp::h264::Packetizer::new(Stream::new(ssrc, payload_type::VIDEO, rate)),
            ),
            Codec::Aac(_) => Packetizer::Aac(
                rtp::aac::Packetizer::new(Stream::new(ssrc, payload_type::AUDIO, rate)),
            ),
        };
        Some(Self { track: setup.track, channel, packetizer })
    }
}

/// What is left to whoever holds the socket, once a request has been answered.
#[derive(Debug, PartialEq, Eq)]
pub enum Todo {
    /// Nothing but to write what there is, and read on.
    GoOn,
    /// Attach to this path and hand over what it is with
    /// [`Connection::attach`], or close if nothing is published there any
    /// more: the publisher went between `DESCRIBE` and `PLAY`, and the client
    /// is told by the stream ending, which is what closing does.
    Attach { path: String, tracks: Vec<Setup> },
    /// Write what there is, and close.
    Close,
}

/// What a [`Todo`] says.
pub enum TodoView {
    GoOn,
    Attach { path: Seq<char>, tracks: Seq<SetupView> },
    Close,
}

impl View for Todo {
    type V = TodoView;

    open spec fn view(&self) -> TodoView {
        match *self {
            Todo::GoOn => TodoView::GoOn,
            Todo::Attach { path, tracks } => TodoView::Attach {
                path: path@,
                tracks: session::setups(tracks@),
            },
            Todo::Close => TodoView::Close,
        }
    }
}

/// What doing some of what a session asked for comes to.
pub struct Performed {
    pub playing: Option<Seq<BoundView>>,
    pub sent: Seq<u8>,
    pub todo: TodoView,
}

/// An answer as it goes onto the connection.
pub open spec fn response_bytes(response: ResponseView) -> Seq<u8> {
    encode_utf8(response_head(response)) + response.body
}

/// Does one thing more.
pub open spec fn perform_one(so_far: Performed, action: ActionView) -> Performed {
    match action {
        ActionView::Respond(response) => Performed {
            sent: so_far.sent + response_bytes(response),
            ..so_far
        },
        ActionView::Play { path, tracks } => Performed {
            todo: TodoView::Attach { path, tracks },
            ..so_far
        },
        ActionView::Pause => Performed { playing: None, ..so_far },
        ActionView::Teardown => Performed { todo: TodoView::Close, ..so_far },
    }
}

/// Does one thing after another.
pub open spec fn performed(
    playing: Option<Seq<BoundView>>,
    actions: Seq<ActionView>,
) -> Performed
    decreases actions.len(),
{
    if actions.len() == 0 {
        Performed { playing, sent: Seq::empty(), todo: TodoView::GoOn }
    } else {
        perform_one(performed(playing, actions.drop_last()), actions.last())
    }
}

/// One connection that plays, or may.
pub struct Connection {
    session: Session,
    playing: Option<Playing>,
}

/// What a [`Connection`] is.
pub struct ConnectionView {
    pub session: SessionView,
    pub playing: Option<Seq<BoundView>>,
}

impl View for Connection {
    type V = ConnectionView;

    closed spec fn view(&self) -> ConnectionView {
        ConnectionView {
            session: self.session@,
            playing: match self.playing {
                Some(playing) => Some(playing@),
                None => None,
            },
        }
    }
}

/// A connection that has said nothing yet. UDP is not sent, so it is not taken.
pub open spec fn fresh_connection(number: u64) -> ConnectionView {
    ConnectionView {
        session: SessionView { udp: false, ..fresh_session(number) },
        playing: None,
    }
}

/// What answering a request does: the connection after it, what there is to
/// write, and what is left to do. `found` is what is published on the path the
/// request asks about.
pub open spec fn answered(
    connection: ConnectionView,
    request: RequestView,
    found: Option<Seq<CodecView>>,
) -> (ConnectionView, Seq<u8>, TodoView) {
    let (session, actions) = handled(connection.session, request, found);
    let done = performed(connection.playing, actions);
    (ConnectionView { session, playing: done.playing }, done.sent, done.todo)
}

impl Connection {
    /// A connection that has said nothing yet.
    pub fn new(number: u64) -> (connection: Self)
        ensures
            connection@ == fresh_connection(number),
    {
        // UDP is not sent here yet, so it is not offered: see the module docs.
        Self { session: Session::new(number).accepting_udp(false), playing: None }
    }

    /// What the client has said.
    pub fn session(&self) -> (session: &Session)
        ensures
            session@ == self@.session,
    {
        &self.session
    }

    /// Whether units are being sent.
    pub fn is_playing(&self) -> (playing: bool)
        ensures
            playing == (self@.playing is Some),
    {
        self.playing.is_some()
    }

    /// Answers a request, given what is published on the path it asks about:
    /// see [`Session::asks`]. The answer goes to the end of `out`.
    pub fn answer(
        &mut self,
        request: &Request,
        found: Option<&Description>,
        out: &mut BytesMut,
    ) -> (todo: Todo)
        ensures
            final(self)@ == answered(old(self)@, request@, codecs_of(found)).0,
            final(out)@ == old(out)@ + answered(old(self)@, request@, codecs_of(found)).1,
            todo@ == answered(old(self)@, request@, codecs_of(found)).2,
    {
        let ghost playing = self@.playing;
        let list = self.session.answer(request, found);
        let ghost all = actions(list@);
        let ghost session = self@.session;
        let mut todo = Todo::GoOn;
        assert(all.take(0) =~= Seq::empty());
        assert(out@ =~= old(out)@ + performed(playing, all.take(0)).sent);
        for action in iter: list
            invariant
                iter.seq() == list@,
                all == actions(list@),
                self@.session == session,
                ({
                    let done = performed(playing, all.take(iter.index()));
                    &&& self@.playing == done.playing
                    &&& out@ == old(out)@ + done.sent
                    &&& todo@ == done.todo
                }),
        {
            let ghost done = performed(playing, all.take(iter.index()));
            assert(all.take(iter.index() + 1).drop_last() =~= all.take(iter.index()));
            assert(all.take(iter.index() + 1).last() == action@);
            match action {
                Action::Respond(response) => {
                    let bytes = response.to_bytes();
                    put_slice(out, octets(&bytes));
                    assert(out@ =~= old(out)@ + (done.sent + response_bytes(response@)));
                },
                Action::Play { path, tracks } => {
                    todo = Todo::Attach { path, tracks };
                },
                Action::Pause => {
                    self.playing = None;
                },
                Action::Teardown => {
                    todo = Todo::Close;
                },
            }
        }
        assert(all.take(list@.len() as int) =~= all);
        todo
    }

    /// Starts sending the tracks that were set up of the stream that was
    /// attached to. The streams get SSRCs one after another, from `ssrc` on.
    pub fn attach(&mut self, description: &Description, tracks: &[Setup], ssrc: u32)
        ensures
            final(self)@ == (ConnectionView {
                playing: Some(bindings(description@, session::setups(tracks@), ssrc)),
                ..old(self)@
            }),
    {
        self.playing = Some(Playing::attach(description, tracks, ssrc));
    }

    /// Puts one unit of the stream being sent at the end of `out`.
    pub fn write(&mut self, unit: &Unit, out: &mut BytesMut)
        ensures
            match old(self)@.playing {
                Some(bound) => {
                    &&& final(self)@ == (ConnectionView {
                        playing: Some(sent(bound, unit@).0),
                        ..old(self)@
                    })
                    &&& final(out)@ == old(out)@ + sent(bound, unit@).1
                },
                None => final(self)@ == old(self)@ && final(out)@ == old(out)@,
            },
    {
        match &mut self.playing {
            Some(playing) => {
                playing.write(out, unit);
            },
            None => {},
        }
    }
}

/// Every track a client set up is sent, on the channel it asked for: what
/// `SETUP` took, playing does not turn away.
pub proof fn law_every_track_set_up_is_sent(
    codecs: Seq<CodecView>,
    setups: Seq<SetupView>,
    first: u32,
)
    requires
        forall|i: int|
            0 <= i < setups.len() ==> (#[trigger] setups[i]).transport is Interleaved
                && setups[i].track < codecs.len(),
    ensures
        bindings(codecs, setups, first).len() == setups.len(),
        forall|i: int|
            0 <= i < setups.len() ==> {
                let bound = #[trigger] bindings(codecs, setups, first)[i];
                &&& bound.track == setups[i].track
                &&& setups[i].transport matches Transport::Interleaved { rtp, .. } && bound.channel
                    == rtp
                &&& bound.packetizer.stream().ssrc == (first + i) % 0x1_0000_0000
            },
    decreases setups.len(),
{
    if setups.len() > 0 {
        let fewer = setups.drop_last();
        assert forall|i: int| 0 <= i < fewer.len() implies (#[trigger] fewer[i]).transport
            is Interleaved && fewer[i].track < codecs.len() by {
            assert(fewer[i] == setups[i]);
        }
        law_every_track_set_up_is_sent(codecs, fewer, first);
        assert(setups[setups.len() - 1] == setups.last());
        let all = bindings(codecs, setups, first);
        let before = bindings(codecs, fewer, first);
        assert forall|i: int| 0 <= i < setups.len() implies {
            let bound = #[trigger] all[i];
            &&& bound.track == setups[i].track
            &&& setups[i].transport matches Transport::Interleaved { rtp, .. } && bound.channel
                == rtp
            &&& bound.packetizer.stream().ssrc == (first + i) % 0x1_0000_0000
        } by {
            if i < fewer.len() {
                assert(all[i] == before[i]);
                assert(fewer[i] == setups[i]);
            }
        }
    }
}

/// A unit of a track the client did not set up goes nowhere.
pub proof fn law_other_tracks_are_not_sent(bound: Seq<BoundView>, unit: UnitView)
    requires
        forall|i: int| 0 <= i < bound.len() ==> (#[trigger] bound[i]).track != unit.track(),
    ensures
        sent(bound, unit) == (bound, Seq::<u8>::empty()),
{
    lemma_not_bound(bound, unit.track(), 0);
}

proof fn lemma_not_bound(bound: Seq<BoundView>, track: nat, from: int)
    requires
        0 <= from,
        forall|i: int| 0 <= i < bound.len() ==> (#[trigger] bound[i]).track != track,
    ensures
        bound_at(bound, track, from) is None,
    decreases bound.len() - from,
{
    if from < bound.len() {
        lemma_not_bound(bound, track, from + 1);
    }
}

/// The frames at the front of some bytes, one after another, as a client reads
/// them.
pub open spec fn frames_in(s: Seq<u8>) -> Seq<(u8, Seq<u8>)>
    decreases s.len(),
{
    match incoming(s) {
        Ok(Some((IncomingView::Interleaved { channel, data }, used))) if 0 < used <= s.len()
            => seq![(channel, data)] + frames_in(s.skip(used)),
        _ => Seq::empty(),
    }
}

proof fn lemma_frames_from_the_front(channel: u8, packets: Seq<Seq<u8>>)
    requires
        packets.len() > 0,
        forall|i: int| 0 <= i < packets.len() ==> (#[trigger] packets[i]).len() <= 0xffff,
    ensures
        frames(channel, packets) == framed(channel, packets.first()) + frames(
            channel,
            packets.drop_first(),
        ),
    decreases packets.len(),
{
    let first = framed(channel, packets.first());
    assert(packets[packets.len() - 1] == packets.last());
    if packets.len() == 1 {
        assert(packets.drop_last() =~= Seq::empty());
        assert(packets.drop_first() =~= Seq::empty());
        assert(frames(channel, packets) =~= first + frames(channel, packets.drop_first()));
    } else {
        let fewer = packets.drop_last();
        assert forall|i: int| 0 <= i < fewer.len() implies (#[trigger] fewer[i]).len()
            <= 0xffff by {
            assert(fewer[i] == packets[i]);
        }
        lemma_frames_from_the_front(channel, fewer);
        assert(fewer.drop_first() =~= packets.drop_first().drop_last());
        assert(packets.drop_first().last() == packets.last());
        assert(fewer.first() == packets.first());
        assert(frames(channel, packets) =~= first + frames(channel, packets.drop_first()));
    }
}

/// Packets that are not too long for their frames come out of them as they
/// went in, in order, all on their channel.
pub proof fn law_frames_read_back(channel: u8, packets: Seq<Seq<u8>>)
    requires
        forall|i: int| 0 <= i < packets.len() ==> (#[trigger] packets[i]).len() <= 0xffff,
    ensures
        frames_in(frames(channel, packets)) == packets.map_values(
            |packet: Seq<u8>| (channel, packet),
        ),
    decreases packets.len(),
{
    let on = |packet: Seq<u8>| (channel, packet);
    if packets.len() == 0 {
        assert(frames_in(frames(channel, packets)) =~= packets.map_values(on));
    } else {
        let rest = packets.drop_first();
        assert forall|i: int| 0 <= i < rest.len() implies (#[trigger] rest[i]).len()
            <= 0xffff by {
            assert(rest[i] == packets[i + 1]);
        }
        lemma_frames_from_the_front(channel, packets);
        law_frames_read_back(channel, rest);
        assert(packets[0] == packets.first());
        law_interleaved_frames_read_back(channel, packets.first(), frames(channel, rest));
        assert(packets.map_values(on) =~= seq![on(packets.first())] + rest.map_values(on));
    }
}

/// Every packet that a unit is sent in fits its stream's limit, and so its
/// frame: none is left out.
pub proof fn law_no_packet_is_left_out(packetizer: PacketizerView, unit: UnitView, index: int)
    requires
        packetizer.stream().mtu == MTU,
        packetizer.stream().payload_type < 0x80,
        0 <= index < packets_for(packetizer, unit).len(),
    ensures
        packets_for(packetizer, unit)[index].len() <= MTU <= 0xffff,
{
    let stream = packetizer.stream();
    let pieces = pieces_of(packetizer, unit);
    let timestamp = stream.timestamp(unit.pts());
    match (packetizer, unit) {
        (PacketizerView::H264(_), UnitView::Video { nalus, .. }) => {
            rtp::h264::law_only_the_last_is_marked(nalus, nalus.len(), stream.budget(), index);
        },
        (PacketizerView::Aac(_), UnitView::Audio { frame, .. }) => {
            rtp::aac::law_frame_comes_back_whole(frame, stream.budget());
        },
        _ => {},
    }
    law_header_reads_back(stream.advanced(index as nat), timestamp, pieces[index]);
}

/// Playing follows the answer that says so, pausing stops what is sent, and
/// tearing down is answered before the connection closes.
pub proof fn law_answers_come_before_what_they_announce(
    connection: ConnectionView,
    request: RequestView,
    found: Option<Seq<CodecView>>,
)
    ensures
        ({
            let (session, todo) = handled(connection.session, request, found);
            let (after, written, left) = answered(connection, request, found);
            &&& todo[0] matches ActionView::Respond(response) && written == response_bytes(response)
            &&& left is Attach <==> todo.len() == 2 && todo[1] is Play
            &&& left is Close <==> request.method is Teardown
            &&& after.playing != connection.playing ==> request.method is Pause && after.playing
                is None
        }),
{
    law_every_request_is_answered_first(connection.session, request, found);
    let todo = handled(connection.session, request, found).1;
    let none = Seq::<u8>::empty();
    let one = todo.take(1);
    assert(one.drop_last() =~= Seq::empty());
    assert(performed(connection.playing, one) == perform_one(
        performed(connection.playing, Seq::empty()),
        todo[0],
    ));
    if todo.len() == 2 {
        assert(todo.drop_last() =~= one);
    } else {
        assert(todo =~= one);
    }
    assert(none + response_bytes(todo[0]->Respond_0) =~= response_bytes(todo[0]->Respond_0));
}

/// Every track that is bound counts in its codec's clock, which is the one that
/// the description of the stream states for it: 90 kHz for H.264, and for AAC the
/// sample rate of the track's record. Its packets carry the payload type that the
/// description gives the track.
pub proof fn law_bound_tracks_count_in_their_codecs_clock(
    codecs: Seq<CodecView>,
    setups: Seq<SetupView>,
    first: u32,
    name: Seq<char>,
    at: int,
)
    requires
        forall|i: int|
            0 <= i < codecs.len() ==> (#[trigger] codecs[i] matches CodecView::Aac(record)
                ==> fields_of(record) is Ok),
        0 <= at < bindings(codecs, setups, first).len(),
    ensures
        ({
            let bound = bindings(codecs, setups, first)[at];
            let stream = bound.packetizer.stream();
            let map = lines(sdp_text(codecs, name), 0)[6 + 4 * bound.track as int + 1];
            &&& bound.track < codecs.len()
            &&& match codecs[bound.track as int] {
                CodecView::H264(_) => {
                    &&& bound.packetizer is H264
                    &&& stream.clock_rate == 90_000
                    &&& stream.payload_type == 96
                },
                CodecView::Aac(record) => {
                    &&& bound.packetizer is Aac
                    &&& stream.clock_rate == fields_of(record)->Ok_0.sample_rate
                    &&& stream.payload_type == 97
                },
            }
            &&& stated_rate(map) == stream.clock_rate
            &&& stated_type(map) == stream.payload_type
            &&& stream.mtu == 1400
        }),
    decreases setups.len(),
{
    let fewer = setups.drop_last();
    let before = bindings(codecs, fewer, first);
    if at < before.len() {
        law_bound_tracks_count_in_their_codecs_clock(codecs, fewer, first, name, at);
    } else {
        let track = setups.last().track as int;
        assert(codecs[track] matches CodecView::Aac(record) ==> fields_of(record) is Ok);
        if let CodecView::Aac(record) = codecs[track] {
            law_fields_are_bounded(record);
        }
        law_rtpmap_states_the_clock(codecs, name, track);
    }
}

proof fn lemma_bound_at(bound: Seq<BoundView>, track: nat, from: int, at: int)
    requires
        0 <= from <= at < bound.len(),
        bound[at].track == track,
        forall|j: int| 0 <= j < at ==> (#[trigger] bound[j]).track != track,
    ensures
        bound_at(bound, track, from) == Some(at),
    decreases at - from,
{
    if from < at {
        lemma_bound_at(bound, track, from + 1, at);
    }
}

/// Where the packets of a unit are from, and what they carry.
proof fn lemma_packets_carry_the_pieces(packetizer: PacketizerView, unit: UnitView)
    requires
        packetizer.stream().mtu == MTU,
        packetizer.stream().payload_type < 0x80,
    ensures
        ({
            let packets = packets_for(packetizer, unit);
            let pieces = pieces_of(packetizer, unit);
            &&& packets.len() == pieces.len()
            &&& forall|i: int|
                0 <= i < packets.len() ==> {
                    &&& (#[trigger] packets[i]).len() <= MTU
                    &&& packets[i].skip(12) == pieces[i].prefix + pieces[i].body
                    &&& pieces[i].marker == (i == pieces.len() - 1)
                }
        }),
{
    let packets = packets_for(packetizer, unit);
    let stream = packetizer.stream();
    let pieces = pieces_of(packetizer, unit);
    let timestamp = stream.timestamp(unit.pts());
    assert forall|i: int| 0 <= i < packets.len() implies {
        &&& (#[trigger] packets[i]).len() <= MTU
        &&& packets[i].skip(12) == pieces[i].prefix + pieces[i].body
        &&& pieces[i].marker == (i == pieces.len() - 1)
    } by {
        law_no_packet_is_left_out(packetizer, unit, i);
        law_packet_layout(stream.advanced(i as nat), timestamp, pieces[i]);
        match (packetizer, unit) {
            (PacketizerView::H264(_), UnitView::Video { nalus, .. }) => {
                rtp::h264::law_only_the_last_is_marked(nalus, nalus.len(), stream.budget(), i);
            },
            (PacketizerView::Aac(_), UnitView::Audio { frame, .. }) => {
                rtp::aac::law_frame_comes_back_whole(frame, stream.budget());
            },
            _ => {},
        }
    }
}

/// What a client gets of a unit: packets of the track it set up, all on the
/// channel it asked for and counted up from where the track's last ended, each
/// stamped with the whole ticks of the track's clock at which the unit is shown,
/// and the last of them marked. The other tracks stay as they are.
pub proof fn law_units_are_sent_on_their_track(
    bound: Seq<BoundView>,
    at: int,
    unit: UnitView,
    ticks: nat,
    index: int,
)
    requires
        0 <= at < bound.len(),
        bound[at].track == (match unit {
            UnitView::Video { track, .. } => track,
            UnitView::Audio { track, .. } => track,
        }),
        forall|j: int| 0 <= j < at ==> (#[trigger] bound[j]).track != bound[at].track,
        bound[at].packetizer.stream().mtu == MTU,
        bound[at].packetizer.stream().payload_type < 0x80,
        ticks * 1_000_000_000 <= (match unit {
            UnitView::Video { pts, .. } => pts,
            UnitView::Audio { pts, .. } => pts,
        }) * bound[at].packetizer.stream().clock_rate < (ticks + 1) * 1_000_000_000,
    ensures
        ({
            let stream = bound[at].packetizer.stream();
            let (after, written) = sent(bound, unit);
            let got = frames_in(written);
            &&& after.len() == bound.len()
            &&& forall|j: int| 0 <= j < bound.len() && j != at ==> #[trigger] after[j] == bound[j]
            &&& after[at].track == bound[at].track && after[at].channel == bound[at].channel
            &&& after[at].packetizer.stream() == StreamView {
                sequence: ((stream.sequence + got.len()) % 0x1_0000) as u16,
                ..stream
            }
            &&& 0 <= index < got.len() ==> {
                let (channel, packet) = got[index];
                &&& channel == bound[at].channel
                &&& packet.len() <= 1400
                &&& header_of(packet) == Header {
                    marker: index == got.len() - 1,
                    payload_type: stream.payload_type,
                    sequence: ((stream.sequence + index) % 0x1_0000) as u16,
                    timestamp: ((stream.origin + ticks) % 0x1_0000_0000) as u32,
                    ssrc: stream.ssrc,
                }
            }
        }),
{
    let one = bound[at];
    let stream = one.packetizer.stream();
    lemma_bound_at(bound, unit.track(), 0, at);
    let packets = packets_for(one.packetizer, unit);
    let pieces = pieces_of(one.packetizer, unit);
    lemma_packets_carry_the_pieces(one.packetizer, unit);
    assert forall|i: int| 0 <= i < packets.len() implies (#[trigger] packets[i]).len() <= 0xffff by {
        assert(packets[i].len() <= MTU);
    }
    law_frames_read_back(one.channel, packets);
    law_timestamps_are_whole_ticks(stream, unit.pts(), ticks);
    if 0 <= index < packets.len() {
        assert(packets[index].len() <= MTU);
        law_packets_count_up(stream, stream.timestamp(unit.pts()), pieces, index);
        law_header_reads_back(
            stream.advanced(index as nat),
            stream.timestamp(unit.pts()),
            pieces[index],
        );
    }
}

/// The payloads of some packets, without the headers in front of them.
pub open spec fn payloads_in(got: Seq<(u8, Seq<u8>)>) -> Seq<Seq<u8>> {
    got.map_values(|frame: (u8, Seq<u8>)| frame.1.skip(12))
}

/// A frame of sound comes out of what a client gets as it went in, and each
/// packet of it says how long it is; one that is too long for that to be said is
/// not sent at all.
pub proof fn law_sound_arrives_whole(
    bound: Seq<BoundView>,
    at: int,
    track: nat,
    frame: Seq<u8>,
    pts: nat,
)
    requires
        0 <= at < bound.len(),
        bound[at].track == track,
        forall|j: int| 0 <= j < at ==> (#[trigger] bound[j]).track != track,
        bound[at].packetizer is Aac,
        bound[at].packetizer.stream().mtu == MTU,
        bound[at].packetizer.stream().payload_type < 0x80,
    ensures
        ({
            let written = sent(bound, UnitView::Audio { track, frame, pts }).1;
            let got = payloads_in(frames_in(written));
            if frame.len() <= 8191 {
                &&& got.len() > 0
                &&& rtp::aac::gathered(got) == frame
                &&& forall|i: int|
                    0 <= i < got.len() ==> {
                        &&& #[trigger] got[i][0] == 0 && got[i][1] == 16
                        &&& got[i][2] * 0x100 + got[i][3] == frame.len() * 8
                    }
            } else {
                written == Seq::<u8>::empty()
            }
        }),
{
    let unit = UnitView::Audio { track, frame, pts };
    let one = bound[at];
    let stream = one.packetizer.stream();
    lemma_bound_at(bound, track, 0, at);
    let packets = packets_for(one.packetizer, unit);
    let pieces = pieces_of(one.packetizer, unit);
    lemma_packets_carry_the_pieces(one.packetizer, unit);
    assert forall|i: int| 0 <= i < packets.len() implies (#[trigger] packets[i]).len() <= 0xffff by {
        assert(packets[i].len() <= MTU);
    }
    law_frames_read_back(one.channel, packets);
    let got = payloads_in(frames_in(frames(one.channel, packets)));
    if frame.len() <= 8191 {
        rtp::aac::law_frame_comes_back_whole(frame, stream.budget());
        assert forall|i: int| 0 <= i < pieces.len() implies (#[trigger] pieces[i]).prefix.len() == 4
            && got[i] == pieces[i].prefix + pieces[i].body by {
            assert(got[i] == packets[i].skip(12));
        }
        rtp::aac::lemma_gathered(pieces, got);
        assert forall|i: int| 0 <= i < got.len() implies {
            &&& #[trigger] got[i][0] == 0 && got[i][1] == 16
            &&& got[i][2] * 0x100 + got[i][3] == frame.len() * 8
        } by {
            rtp::aac::law_headers_state_the_size(frame, stream.budget(), i);
            assert(got[i] == pieces[i].prefix + pieces[i].body);
        }
    } else {
        assert(packets =~= Seq::empty());
    }
}

/// The units of a picture come out of what a client gets as they went in, in
/// their order and with nothing left over.
pub proof fn law_pictures_arrive_whole(
    bound: Seq<BoundView>,
    at: int,
    unit: UnitView,
)
    requires
        0 <= at < bound.len(),
        unit matches UnitView::Video { track, nalus, .. } && bound[at].track == track
            && rtp::h264::carriable(nalus),
        forall|j: int| 0 <= j < at ==> (#[trigger] bound[j]).track != bound[at].track,
        bound[at].packetizer is H264,
        bound[at].packetizer.stream().mtu == MTU,
        bound[at].packetizer.stream().payload_type < 0x80,
    ensures
        ({
            let nothing = rtp::h264::Received { units: Seq::empty(), open: Seq::empty() };
            let got = payloads_in(frames_in(sent(bound, unit).1));
            rtp::h264::gathered(nothing, got) == rtp::h264::Received {
                units: unit->Video_nalus,
                open: Seq::empty(),
            }
        }),
{
    let one = bound[at];
    let stream = one.packetizer.stream();
    let nalus = unit->Video_nalus;
    let nothing = rtp::h264::Received { units: Seq::empty(), open: Seq::empty() };
    lemma_bound_at(bound, unit.track(), 0, at);
    let packets = packets_for(one.packetizer, unit);
    let pieces = pieces_of(one.packetizer, unit);
    lemma_packets_carry_the_pieces(one.packetizer, unit);
    assert forall|i: int| 0 <= i < packets.len() implies (#[trigger] packets[i]).len() <= 0xffff by {
        assert(packets[i].len() <= MTU);
    }
    law_frames_read_back(one.channel, packets);
    let got = payloads_in(frames_in(frames(one.channel, packets)));
    assert forall|i: int| 0 <= i < pieces.len() implies #[trigger] got[i] == payload_of(
        pieces[i],
    ) by {
        assert(got[i] == packets[i].skip(12));
    }
    rtp::h264::lemma_gathered(nothing, pieces, got);
    rtp::h264::law_units_come_back_whole(nalus, nalus.len(), stream.budget());
    assert(nalus.take(nalus.len() as int) =~= nalus);
}

/// A unit of another codec than its track's is not sent, and the track goes on as
/// if it had not been there.
pub proof fn law_units_of_another_codec_are_not_sent(bound: Seq<BoundView>, at: int, unit: UnitView)
    requires
        0 <= at < bound.len(),
        bound[at].track == unit.track(),
        forall|j: int| 0 <= j < at ==> (#[trigger] bound[j]).track != bound[at].track,
        unit is Video <==> bound[at].packetizer is Aac,
    ensures
        sent(bound, unit).1 == Seq::<u8>::empty(),
        bound[at].packetizer.stream().sequence == sent(
            bound,
            unit,
        ).0[at].packetizer.stream().sequence,
{
    lemma_bound_at(bound, unit.track(), 0, at);
    assert(packets_for(bound[at].packetizer, unit) =~= Seq::empty());
}

/// A request is found behind any frames in front of it, and those are gone with it:
/// a frame more in front changes nothing but how much is read.
pub proof fn law_frames_are_read_past(channel: u8, packet: Seq<u8>, rest: Seq<u8>)
    requires
        packet.len() <= 0xffff,
    ensures
        ({
            let (first, alone) = (next_request(framed(channel, packet) + rest), next_request(rest));
            &&& first.0 == alone.0
            &&& first.1 == 4 + packet.len() + alone.1
        }),
{
    law_interleaved_frames_read_back(channel, packet, rest);
}

/// A request at the front is the one that is taken, and part of one, or of a frame, is
/// waited for with nothing read.
pub proof fn law_requests_are_taken_one_by_one(s: Seq<u8>)
    ensures
        incoming(s) matches Ok(Some((IncomingView::Request(request), used))) ==> next_request(s)
            == (Ok::<_, RtspErrorView>(Some(request)), used),
        incoming(s) == Ok::<_, RtspErrorView>(None::<(IncomingView, int)>) ==> next_request(s) == (
            Ok::<_, RtspErrorView>(None::<RequestView>),
            0int,
        ),
        incoming(s) matches Err(error) ==> next_request(s) == (
            Err::<Option<RequestView>, _>(error),
            0int,
        ),
{
}

/// What is written of an answer is its head as text and then its body as it is; what
/// is attached to is what the session plays, its path and the tracks that were set up
/// on it; and pausing leaves nothing playing.
pub proof fn law_answers_are_carried_out(
    connection: ConnectionView,
    request: RequestView,
    found: Option<Seq<CodecView>>,
)
    ensures
        ({
            let (after, written, left) = answered(connection, request, found);
            let (session, todo) = handled(connection.session, request, found);
            &&& after.session == session
            &&& todo[0] matches ActionView::Respond(response) && written == encode_utf8(
                response_head(response),
            ) + response.body
            &&& left matches TodoView::Attach { path, tracks } ==> Some(path)
                == connection.session.path && tracks == connection.session.tracks
            &&& todo.len() == 2 && todo[1] is Play <==> left is Attach
            &&& todo.len() == 2 && todo[1] is Pause ==> after.playing is None
            &&& todo.len() == 1 ==> left is GoOn && after.playing == connection.playing
            &&& todo.len() == 2 && todo[1] is Teardown ==> left is Close
        }),
{
    law_every_request_is_answered_first(connection.session, request, found);
    law_answers_come_before_what_they_announce(connection, request, found);
    let todo = handled(connection.session, request, found).1;
    let one = todo.take(1);
    assert(one.drop_last() =~= Seq::empty());
    let first = performed(connection.playing, one);
    assert(first == perform_one(performed(connection.playing, Seq::empty()), todo[0]));
    if todo.len() == 2 {
        assert(todo.drop_last() =~= one);
    } else {
        assert(todo =~= one);
    }
}

/// A connection begins with nothing playing and takes no track over UDP, which it
/// does not send.
pub proof fn law_connections_begin_on_themselves(number: u64)
    ensures
        fresh_connection(number).playing is None,
        !fresh_connection(number).session.udp,
        fresh_connection(number).session.tracks.len() == 0,
        fresh_connection(number).session.path is None,
        fresh_connection(number).session.id == session::session_id(number),
{
}

} // verus!
