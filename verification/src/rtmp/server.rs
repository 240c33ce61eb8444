//! What happens between an RTMP socket and everything else.
//!
//! Bytes go in, and what to do about them comes back: bytes to write, a path to
//! open, units to push into it. This puts a [`Handshake`], a chunk [`Reader`], a
//! [`Session`] and a chunk [`Writer`] together, in the order a connection needs
//! them, and knows no more of the socket than they do. Whoever holds the socket
//! reads into a buffer, calls [`Connection::advance`] until it waits, writes
//! what came out and reads again.

use crate::buffer::{be32, lemma_be32, lemma_widths, octets, put_slice, Contents};
use crate::rtmp::amf0::{emitted, emitted_all, emitted_properties, ValueView};
use crate::rtmp::chunk::{
    after_writing, reading, writing, ChunkError, Message, MessageType, MessageView, Reader,
    ReaderView, Writer, WriterView, DEFAULT_CHUNK_SIZE, MAX_CHUNK_SIZE, MAX_MESSAGE_LENGTH,
};
use crate::rtmp::chunk_laws::{
    all_sound, in_step, law_pieces_read_as_one, law_run_reads_back, reading_run, told,
    writing_run,
};
use crate::rtmp::handshake;
use crate::rtmp::handshake::{
    law_handshakes_by_their_bytes, law_replies_by_their_bytes, shake, unshaken, Handshake,
    HandshakeError, HandshakeView,
};
use crate::rtmp::session;
use crate::rtmp::session::{
    action_views, connect_answer, counted, fresh_session, handled, status_of, Action, ActionView,
    Session, SessionError, SessionErrorView, SessionView, CHUNK_SIZE, THIRTY_ONE, WINDOW_SIZE,
    ZERO,
};
use crate::text::lemma_encoded_length;
use crate::track::{CodecView, Description};
use crate::unit::{Unit, UnitView};
use bytes::BytesMut;
use vstd::prelude::*;

verus! {

broadcast use lemma_widths;

/// Why a connection ended, where its socket was not why.
#[derive(Debug, PartialEq)]
pub enum ConnectionError {
    Handshake(HandshakeError),
    Chunk(ChunkError),
    Session(SessionError),
}

/// What a [`ConnectionError`] says.
pub enum ConnectionErrorView {
    Handshake(HandshakeError),
    Chunk(ChunkError),
    Session(SessionErrorView),
}

impl View for ConnectionError {
    type V = ConnectionErrorView;

    open spec fn view(&self) -> ConnectionErrorView {
        match *self {
            ConnectionError::Handshake(error) => ConnectionErrorView::Handshake(error),
            ConnectionError::Chunk(error) => ConnectionErrorView::Chunk(error),
            ConnectionError::Session(error) => ConnectionErrorView::Session(error@),
        }
    }
}

/// What is to be done outside the connection.
#[derive(Debug, PartialEq)]
pub enum Effect {
    /// Open this path, and push what follows into it.
    Publish { path: String, description: Box<Description> },
    /// Push this into the path that is open, if one is.
    Unit(Box<Unit>),
    /// Close the path that is open, if one is.
    Unpublish,
}

/// What an [`Effect`] asks for.
pub enum EffectView {
    Publish { path: Seq<char>, description: Seq<CodecView> },
    Unit(UnitView),
    Unpublish,
}

impl View for Effect {
    type V = EffectView;

    open spec fn view(&self) -> EffectView {
        match *self {
            Effect::Publish { path, description } => EffectView::Publish {
                path: path@,
                description: description@,
            },
            Effect::Unit(unit) => EffectView::Unit(unit@),
            Effect::Unpublish => EffectView::Unpublish,
        }
    }
}

/// What a list of effects asks for.
pub open spec fn effect_views(effects: Seq<Effect>) -> Seq<EffectView> {
    effects.map_values(|effect: Effect| effect@)
}

/// What doing some of what a session asked for comes to: the writer after it,
/// the bytes it wrote, what it leaves to be done outside, and whether the
/// connection goes on.
pub struct Applied {
    pub writer: WriterView,
    pub sent: Seq<u8>,
    pub effects: Seq<EffectView>,
    pub outcome: Result<bool, ChunkError>,
}

/// Nothing done yet.
pub open spec fn unapplied(writer: WriterView) -> Applied {
    Applied { writer, sent: Seq::empty(), effects: Seq::empty(), outcome: Ok(true) }
}

/// Does one thing more.
pub open spec fn apply_one(so_far: Applied, action: ActionView) -> Applied {
    match action {
        ActionView::Send { csid, message } => if message.payload.len() <= MAX_MESSAGE_LENGTH {
            Applied {
                writer: after_writing(so_far.writer, csid, message),
                sent: so_far.sent + writing(so_far.writer, csid, message),
                ..so_far
            }
        } else {
            Applied {
                outcome: Err(
                    ChunkError::MessageTooLong {
                        length: message.payload.len() as usize,
                        limit: MAX_MESSAGE_LENGTH,
                    },
                ),
                ..so_far
            }
        },
        ActionView::SetChunkSize(size) => if 1 <= size <= MAX_CHUNK_SIZE {
            Applied { writer: WriterView { chunk_size: size, ..so_far.writer }, ..so_far }
        } else {
            Applied {
                outcome: Err(
                    ChunkError::InvalidChunkSize(
                        if size > u32::MAX {
                            u32::MAX
                        } else {
                            size as u32
                        },
                    ),
                ),
                ..so_far
            }
        },
        ActionView::Publish { path, description } => Applied {
            effects: so_far.effects.push(EffectView::Publish { path, description }),
            ..so_far
        },
        ActionView::Unit(unit) => Applied {
            effects: so_far.effects.push(EffectView::Unit(unit)),
            ..so_far
        },
        ActionView::Unpublish => Applied {
            effects: so_far.effects.push(EffectView::Unpublish),
            outcome: Ok(false),
            ..so_far
        },
    }
}

/// Does one thing after another, until one ends the connection.
pub open spec fn applied_all(writer: WriterView, actions: Seq<ActionView>) -> Applied
    decreases actions.len(),
{
    if actions.len() == 0 {
        unapplied(writer)
    } else {
        let so_far = applied_all(writer, actions.drop_last());
        if so_far.outcome == Ok::<bool, ChunkError>(true) {
            apply_one(so_far, actions.last())
        } else {
            so_far
        }
    }
}

/// One connection that is publishing, or about to.
pub struct Connection {
    handshake: Handshake,
    reader: Reader,
    writer: Writer,
    session: Session,
}

/// What a [`Connection`] is.
pub struct ConnectionView {
    pub handshake: HandshakeView,
    pub reader: ReaderView,
    pub writer: WriterView,
    pub session: SessionView,
}

impl View for Connection {
    type V = ConnectionView;

    closed spec fn view(&self) -> ConnectionView {
        ConnectionView {
            handshake: self.handshake@,
            reader: self.reader@,
            writer: self.writer@,
            session: self.session@,
        }
    }
}

impl ConnectionView {
    /// What holds of every connection.
    pub open spec fn wf(self) -> bool {
        self.reader.wf() && self.writer.wf() && self.session.wf()
    }
}

/// A connection that has said nothing yet.
pub open spec fn fresh_connection() -> ConnectionView {
    ConnectionView {
        handshake: unshaken(),
        reader: ReaderView { streams: Map::empty(), chunk_size: DEFAULT_CHUNK_SIZE as nat },
        writer: WriterView { streams: Map::empty(), chunk_size: DEFAULT_CHUNK_SIZE as nat },
        session: fresh_session(),
    }
}

/// How far a call of [`Connection::advance`] came.
#[derive(Clone, Copy, Debug, PartialEq, Eq, Structural)]
pub enum Progress {
    /// There was nothing whole. There may be when more has arrived.
    Waits,
    /// A piece of the handshake or a message was dealt with. There may be
    /// another.
    GoesOn,
    /// A message was dealt with, and it was the last.
    Over,
}

/// What a call of [`Connection::advance`] does.
pub struct Advanced {
    pub outcome: Result<Progress, ConnectionErrorView>,
    pub connection: ConnectionView,
    /// What is left in the buffer.
    pub rest: Seq<u8>,
    /// What there is to write.
    pub sent: Seq<u8>,
    pub effects: Seq<EffectView>,
}

/// Does what a session asks for on account of a message.
pub open spec fn answered(
    connection: ConnectionView,
    message: MessageView,
    rest: Seq<u8>,
) -> Advanced {
    let handled = handled(connection.session, message);
    match handled.outcome {
        Err(error) => Advanced {
            outcome: Err(ConnectionErrorView::Session(error)),
            connection: ConnectionView { session: handled.session, ..connection },
            rest,
            sent: Seq::empty(),
            effects: Seq::empty(),
        },
        Ok(actions) => {
            let applied = applied_all(connection.writer, actions);
            Advanced {
                outcome: match applied.outcome {
                    Ok(true) => Ok(Progress::GoesOn),
                    Ok(false) => Ok(Progress::Over),
                    Err(error) => Err(ConnectionErrorView::Chunk(error)),
                },
                connection: ConnectionView {
                    session: handled.session,
                    writer: applied.writer,
                    ..connection
                },
                rest,
                sent: applied.sent,
                effects: applied.effects,
            }
        },
    }
}

/// Takes the next piece of the handshake out of a buffer and deals with it.
pub open spec fn shaken(connection: ConnectionView, buffered: Seq<u8>) -> Advanced {
    let shaken = shake(connection.handshake, buffered);
    let waiting = Advanced {
        outcome: Ok(Progress::Waits),
        connection: ConnectionView { handshake: shaken.handshake, ..connection },
        rest: shaken.rest,
        sent: Seq::empty(),
        effects: Seq::empty(),
    };
    match shaken.outcome {
        Ok(handshake::StepView::NeedMore) => waiting,
        Ok(handshake::StepView::Send(reply)) => Advanced {
            outcome: Ok(Progress::GoesOn),
            sent: reply,
            ..waiting
        },
        Ok(handshake::StepView::Done) => Advanced { outcome: Ok(Progress::GoesOn), ..waiting },
        Err(error) => Advanced { outcome: Err(ConnectionErrorView::Handshake(error)), ..waiting },
    }
}

/// Takes the next message out of a buffer and deals with it.
pub open spec fn messaged(connection: ConnectionView, buffered: Seq<u8>) -> Advanced {
    let read = reading(connection.reader, buffered);
    let after = ConnectionView { reader: read.reader, ..connection };
    let waiting = Advanced {
        outcome: Ok(Progress::Waits),
        connection: after,
        rest: read.rest,
        sent: Seq::empty(),
        effects: Seq::empty(),
    };
    match read.outcome {
        Ok(Some(message)) => answered(after, message, read.rest),
        Ok(None) => waiting,
        Err(error) => Advanced { outcome: Err(ConnectionErrorView::Chunk(error)), ..waiting },
    }
}

/// Takes whatever comes next out of a buffer and deals with it.
pub open spec fn advanced(connection: ConnectionView, buffered: Seq<u8>) -> Advanced {
    if connection.handshake.stage == handshake::Stage::Done {
        messaged(connection, buffered)
    } else {
        shaken(connection, buffered)
    }
}

/// Counts what has arrived, once the handshake is over: the connection after
/// it, and the acknowledgement that it may make owed.
pub open spec fn arrived(connection: ConnectionView, bytes: nat) -> (ConnectionView, Seq<u8>) {
    let (owed, session) = counted(connection.session, bytes);
    if connection.handshake.stage != handshake::Stage::Done {
        (connection, Seq::empty())
    } else {
        match owed {
            Some(action) => {
                let applied = apply_one(unapplied(connection.writer), action);
                (ConnectionView { session, writer: applied.writer, ..connection }, applied.sent)
            },
            None => (ConnectionView { session, ..connection }, Seq::empty()),
        }
    }
}

impl Default for Connection {
    fn default() -> (connection: Self)
        ensures
            connection@ == fresh_connection(),
            connection@.wf(),
    {
        Self::new()
    }
}

impl Connection {
    /// A connection that has said nothing yet.
    pub fn new() -> (connection: Self)
        ensures
            connection@ == fresh_connection(),
            connection@.wf(),
    {
        Self {
            handshake: Handshake::new(),
            reader: Reader::new(),
            writer: Writer::new(),
            session: Session::new(),
        }
    }

    /// The path this is publishing to, once `publish` has named one.
    pub fn path(&self) -> (path: Option<&str>)
        ensures
            match path {
                Some(path) => self@.session.stage == session::Stage::Publishing
                    && path@ == self@.session.path,
                None => self@.session.stage != session::Stage::Publishing,
            },
    {
        self.session.path()
    }

    /// What the client put in the four bytes of its hello that a plain
    /// handshake leaves zero, once the handshake is over. See
    /// [`Handshake::client_version`].
    pub fn client_version(&self) -> (version: Option<u32>)
        ensures
            version == if self@.handshake.stage == handshake::Stage::Done {
                Some(self@.handshake.client_version)
            } else {
                None
            },
    {
        if self.handshake.is_done() {
            self.handshake.client_version()
        } else {
            None
        }
    }

    /// Takes whatever comes next out of `buf`, a piece of the handshake or a
    /// message, and does what it asks for: replies go to the end of `out`, and
    /// what is to be done outside to the end of `effects`.
    ///
    /// Call it until it waits before reading more: one read can carry several
    /// messages, and the last of them may be the one that matters.
    pub fn advance(&mut self, buf: &mut BytesMut, out: &mut BytesMut, effects: &mut Vec<Effect>) -> (
        outcome: Result<Progress, ConnectionError>)
        requires
            old(self)@.wf(),
            old(self)@.session.timeline.wraps < u64::MAX,
        ensures
            final(self)@.wf(),
            ({
                let advanced = advanced(old(self)@, old(buf)@);
                &&& final(self)@ == advanced.connection
                &&& final(buf)@ == advanced.rest
                &&& final(out)@ == old(out)@ + advanced.sent
                &&& effect_views(final(effects)@) == effect_views(old(effects)@) + advanced.effects
                &&& match outcome {
                    Ok(progress) => advanced.outcome == Ok::<_, ConnectionErrorView>(progress),
                    Err(error) => advanced.outcome == Err::<Progress, _>(error@),
                }
            }),
    {
        if !self.handshake.is_done() {
            return self.shake_hands(buf, out, Ghost(effects@));
        }
        let message: Message = match self.reader.read(buf) {
            Ok(Some(message)) => message,
            Ok(None) => {
                assert(out@ =~= old(out)@ + Seq::<u8>::empty());
                assert(effect_views(effects@) =~= effect_views(old(effects)@) + Seq::empty());
                return Ok(Progress::Waits);
            },
            Err(error) => {
                assert(out@ =~= old(out)@ + Seq::<u8>::empty());
                assert(effect_views(effects@) =~= effect_views(old(effects)@) + Seq::empty());
                return Err(ConnectionError::Chunk(error));
            },
        };
        match self.session.handle(message) {
            Ok(actions) => match self.apply_all(actions, out, effects) {
                Ok(true) => Ok(Progress::GoesOn),
                Ok(false) => Ok(Progress::Over),
                Err(error) => Err(ConnectionError::Chunk(error)),
            },
            Err(error) => {
                assert(out@ =~= old(out)@ + Seq::<u8>::empty());
                assert(effect_views(effects@) =~= effect_views(old(effects)@) + Seq::empty());
                Err(ConnectionError::Session(error))
            },
        }
    }

    /// Takes the next piece of the handshake out of `buf`.
    fn shake_hands(
        &mut self,
        buf: &mut BytesMut,
        out: &mut BytesMut,
        Ghost(effects): Ghost<Seq<Effect>>,
    ) -> (outcome: Result<Progress, ConnectionError>)
        requires
            old(self)@.wf(),
        ensures
            final(self)@.wf(),
            ({
                let shaken = shaken(old(self)@, old(buf)@);
                &&& final(self)@ == shaken.connection
                &&& final(buf)@ == shaken.rest
                &&& final(out)@ == old(out)@ + shaken.sent
                &&& effect_views(effects) == effect_views(effects) + shaken.effects
                &&& match outcome {
                    Ok(progress) => shaken.outcome == Ok::<_, ConnectionErrorView>(progress),
                    Err(error) => shaken.outcome == Err::<Progress, _>(error@),
                }
            }),
    {
        let ghost sent = out@;
        assert(effect_views(effects) =~= effect_views(effects) + Seq::empty());
        assert(sent =~= sent + Seq::<u8>::empty());
        match self.handshake.read(buf) {
            Ok(handshake::Step::NeedMore) => Ok(Progress::Waits),
            Ok(handshake::Step::Send(reply)) => {
                put_slice(out, octets(&reply));
                Ok(Progress::GoesOn)
            },
            Ok(handshake::Step::Done) => Ok(Progress::GoesOn),
            Err(error) => Err(ConnectionError::Handshake(error)),
        }
    }

    /// Does one thing after another, until one ends the connection. Returns
    /// whether the connection goes on.
    fn apply_all(
        &mut self,
        actions: Vec<Action>,
        out: &mut BytesMut,
        effects: &mut Vec<Effect>,
    ) -> (outcome: Result<bool, ChunkError>)
        requires
            old(self)@.wf(),
        ensures
            final(self)@.wf(),
            ({
                let applied = applied_all(old(self)@.writer, action_views(actions@));
                &&& final(self)@ == (ConnectionView { writer: applied.writer, ..old(self)@ })
                &&& final(out)@ == old(out)@ + applied.sent
                &&& effect_views(final(effects)@) == effect_views(old(effects)@) + applied.effects
                &&& outcome == applied.outcome
            }),
    {
        let ghost all = action_views(actions@);
        let ghost writer = self@.writer;
        let mut goes_on: bool = true;
        assert(all.take(0) =~= Seq::empty());
        assert(out@ =~= old(out)@ + applied_all(writer, all.take(0)).sent);
        assert(effect_views(effects@) =~= effect_views(old(effects)@) + applied_all(
            writer,
            all.take(0),
        ).effects);
        let mut outcome: Result<bool, ChunkError> = Ok(true);
        for action in iter: actions
            invariant
                iter.seq() == actions@,
                all == action_views(actions@),
                self@.wf(),
                ({
                    let applied = applied_all(writer, all.take(iter.index()));
                    &&& self@ == (ConnectionView { writer: applied.writer, ..old(self)@ })
                    &&& out@ == old(out)@ + applied.sent
                    &&& effect_views(effects@) == effect_views(old(effects)@) + applied.effects
                    &&& outcome == applied.outcome
                    &&& goes_on == (outcome == Ok::<bool, ChunkError>(true))
                }),
        {
            assert(all.take(iter.index() + 1).drop_last() =~= all.take(iter.index()));
            assert(all.take(iter.index() + 1).last() == action@);
            if goes_on {
                outcome = self.apply(action, out, effects);
                goes_on = match &outcome {
                    Ok(on) => *on,
                    Err(_) => false,
                };
            }
        }
        assert(all.take(actions@.len() as int) =~= all);
        outcome
    }

    /// Does one thing the session asked for. Returns whether the connection
    /// goes on.
    fn apply(&mut self, action: Action, out: &mut BytesMut, effects: &mut Vec<Effect>) -> (outcome:
        Result<bool, ChunkError>)
        requires
            old(self)@.wf(),
        ensures
            final(self)@.wf(),
            ({
                let applied = apply_one(unapplied(old(self)@.writer), action@);
                &&& final(self)@ == (ConnectionView { writer: applied.writer, ..old(self)@ })
                &&& final(out)@ == old(out)@ + applied.sent
                &&& effect_views(final(effects)@) == effect_views(old(effects)@) + applied.effects
                &&& outcome == applied.outcome
            }),
    {
        let ghost before = effects@;
        let ghost sent = out@;
        match action {
            Action::Send { csid, message } => {
                let outcome = self.writer.write(out, csid, &*message);
                assert(effect_views(effects@) =~= effect_views(before) + Seq::empty());
                match outcome {
                    Ok(()) => {
                        assert(out@ =~= sent + (Seq::<u8>::empty() + writing(
                            old(self)@.writer,
                            csid.spec_value(),
                            message@,
                        )));
                        Ok(true)
                    },
                    Err(error) => {
                        assert(out@ =~= sent + Seq::<u8>::empty());
                        Err(error)
                    },
                }
            },
            // After the message announcing it, which the session put first.
            Action::SetChunkSize(size) => {
                let outcome = self.writer.set_chunk_size(size);
                assert(out@ =~= sent + Seq::<u8>::empty());
                assert(effect_views(effects@) =~= effect_views(before) + Seq::empty());
                match outcome {
                    Ok(()) => Ok(true),
                    Err(error) => Err(error),
                }
            },
            Action::Publish { path, description } => {
                let effect = Effect::Publish { path, description };
                effects.push(effect);
                assert(out@ =~= sent + Seq::<u8>::empty());
                assert(effect_views(effects@) =~= effect_views(before) + seq![effect@]);
                Ok(true)
            },
            Action::Unit(unit) => {
                let effect = Effect::Unit(unit);
                effects.push(effect);
                assert(out@ =~= sent + Seq::<u8>::empty());
                assert(effect_views(effects@) =~= effect_views(before) + seq![effect@]);
                Ok(true)
            },
            Action::Unpublish => {
                effects.push(Effect::Unpublish);
                assert(out@ =~= sent + Seq::<u8>::empty());
                assert(effect_views(effects@) =~= effect_views(before) + seq![
                    EffectView::Unpublish,
                ]);
                Ok(false)
            },
        }
    }

    /// Counts bytes read from the socket, and appends to `out` the
    /// acknowledgement that they may make owed.
    ///
    /// What arrived includes chunk headers and whatever partial message the
    /// reader is still holding, which is why the count comes from here rather
    /// than from the messages. What arrives before the handshake is over is
    /// not counted.
    pub fn received(&mut self, bytes: usize, out: &mut BytesMut)
        requires
            old(self)@.wf(),
            old(self)@.session.received + bytes <= u64::MAX,
        ensures
            final(self)@.wf(),
            final(self)@ == arrived(old(self)@, bytes as nat).0,
            final(out)@ == old(out)@ + arrived(old(self)@, bytes as nat).1,
    {
        assert(out@ =~= old(out)@ + Seq::<u8>::empty());
        if !self.handshake.is_done() {
            return;
        }
        match self.session.received(bytes) {
            Some(action) => {
                let mut effects: Vec<Effect> = Vec::new();
                // An acknowledgement is four bytes, and leaves nothing to do.
                let _ = self.apply(action, out, &mut effects);
            },
            None => {},
        }
    }
}

/// Bytes that arrive in two pieces do what they would have done at once: what
/// is not whole yet has done nothing, and is still there.
pub proof fn law_pieces_advance_as_one(connection: ConnectionView, first: Seq<u8>, more: Seq<u8>)
    requires
        connection.wf(),
        advanced(connection, first).outcome == Ok::<_, ConnectionErrorView>(Progress::Waits),
    ensures
        ({
            let waiting = advanced(connection, first);
            &&& waiting.sent.len() == 0 && waiting.effects.len() == 0
            &&& advanced(waiting.connection, waiting.rest + more) == advanced(
                connection,
                first + more,
            )
        }),
{
    if connection.handshake.stage == handshake::Stage::Done {
        law_pieces_read_as_one(connection.reader, first, more);
    }
}

/// Whether a list of actions ends a publish.
pub open spec fn unpublishes(actions: Seq<ActionView>) -> bool {
    exists|i: int| 0 <= i < actions.len() && #[trigger] actions[i] is Unpublish
}

/// A connection ends by itself exactly where its publisher says it is done, and
/// that is then the last thing to do.
pub proof fn law_only_unpublishing_ends_a_connection(writer: WriterView, actions: Seq<ActionView>)
    requires
        applied_all(writer, actions).outcome is Ok,
    ensures
        ({
            let applied = applied_all(writer, actions);
            let over = applied.outcome == Ok::<bool, ChunkError>(false);
            &&& over <==> unpublishes(actions)
            &&& over <==> applied.effects.len() > 0 && applied.effects.last() is Unpublish
        }),
    decreases actions.len(),
{
    if actions.len() > 0 {
        let fewer = actions.drop_last();
        let last = actions.len() - 1;
        law_only_unpublishing_ends_a_connection(writer, fewer);
        match applied_all(writer, fewer).outcome {
            Ok(goes_on) => {
                assert(goes_on == true || goes_on == false);
            },
            Err(_) => {},
        }
        assert(unpublishes(actions) == (unpublishes(fewer) || actions[last] is Unpublish)) by {
            if unpublishes(fewer) {
                let i = choose|i: int| 0 <= i < fewer.len() && #[trigger] fewer[i] is Unpublish;
                assert(actions[i] is Unpublish);
            }
            if unpublishes(actions) {
                let i = choose|i: int|
                    0 <= i < actions.len() && #[trigger] actions[i] is Unpublish;
                if i < last {
                    assert(fewer[i] is Unpublish);
                }
            }
        }
    }
}

/// The messages that a list of actions sends, and what each is sent on.
pub open spec fn sends(actions: Seq<ActionView>) -> Seq<(u32, MessageView)>
    decreases actions.len(),
{
    if actions.len() == 0 {
        Seq::empty()
    } else {
        match actions.last() {
            ActionView::Send { csid, message } => sends(actions.drop_last()).push((csid, message)),
            _ => sends(actions.drop_last()),
        }
    }
}

proof fn lemma_values_length(value: ValueView, rest: Seq<ValueView>)
    ensures
        emitted_all(seq![value] + rest).bytes.len() <= emitted(value).bytes.len() + emitted_all(
            rest,
        ).bytes.len(),
{
    let values = seq![value] + rest;
    assert(values.subrange(1, values.len() as int) =~= rest);
}

proof fn lemma_properties_length(
    key: Seq<char>,
    value: ValueView,
    rest: Seq<(Seq<char>, ValueView)>,
)
    ensures
        emitted_properties(seq![(key, value)] + rest).bytes.len() <= 2 + 4 * key.len() + emitted(
            value,
        ).bytes.len() + emitted_properties(rest).bytes.len(),
{
    let properties = seq![(key, value)] + rest;
    assert(properties.subrange(1, properties.len() as int) =~= rest);
    lemma_encoded_length(key);
}

proof fn lemma_text_length(text: Seq<char>)
    ensures
        emitted(ValueView::String(text)).bytes.len() <= 5 + 4 * text.len(),
{
    lemma_encoded_length(text);
}

/// How much a server says of itself is little.
proof fn lemma_server_is_short()
    ensures
        emitted(
            ValueView::Object(
                seq![
                    ("fmsVer"@, ValueView::String("FMS/3,0,1,123"@)),
                    ("capabilities"@, ValueView::Number(THIRTY_ONE)),
                ],
            ),
        ).bytes.len() <= 0x1000,
{
    reveal_strlit("fmsVer");
    reveal_strlit("FMS/3,0,1,123");
    reveal_strlit("capabilities");
    lemma_text_length("FMS/3,0,1,123"@);
    let none = Seq::<(Seq<char>, ValueView)>::empty();
    let first = ("fmsVer"@, ValueView::String("FMS/3,0,1,123"@));
    let second = ("capabilities"@, ValueView::Number(THIRTY_ONE));
    let last = seq![second] + none;
    lemma_properties_length(second.0, second.1, none);
    lemma_properties_length(first.0, first.1, last);
    assert(seq![first, second] =~= seq![first] + last);
}

/// A status is little.
proof fn lemma_status_is_short(code: Seq<char>, words: Seq<char>, extra: (Seq<char>, ValueView))
    requires
        code.len() <= 0x100,
        words.len() <= 0x100,
        extra.0.len() <= 0x100,
        emitted(extra.1).bytes.len() <= 0x100,
    ensures
        emitted(status_of(code, words, extra)).bytes.len() <= 0x4000,
{
    reveal_strlit("level");
    reveal_strlit("status");
    reveal_strlit("code");
    reveal_strlit("description");
    lemma_text_length("status"@);
    lemma_text_length(code);
    lemma_text_length(words);
    let none = Seq::<(Seq<char>, ValueView)>::empty();
    let described = ("description"@, ValueView::String(words));
    let coded = ("code"@, ValueView::String(code));
    let level = ("level"@, ValueView::String("status"@));
    let d = seq![extra] + none;
    let c = seq![described] + d;
    let b = seq![coded] + c;
    let a = seq![level] + b;
    lemma_properties_length(extra.0, extra.1, none);
    lemma_properties_length(described.0, described.1, d);
    lemma_properties_length(coded.0, coded.1, c);
    lemma_properties_length(level.0, level.1, b);
    assert(status_of(code, words, extra)->Object_0 =~= a);
}

/// What `connect` is answered with is short.
proof fn lemma_connect_result_is_short(transaction: u64)
    ensures
        connect_answer(transaction)[4] matches ActionView::Send { csid, message } && csid == 3
            && message.timestamp == 0 && message.kind == MessageType::Amf0Command
            && message.payload.len() <= 0x1_0000,
{
    let extra = ("objectEncoding"@, ValueView::Number(ZERO));
    let (code, words) = ("NetConnection.Connect.Success"@, "Connection succeeded."@);
    assert(code.len() <= 0x100 && words.len() <= 0x100 && extra.0.len() <= 0x100) by {
        reveal_strlit("NetConnection.Connect.Success");
        reveal_strlit("Connection succeeded.");
        reveal_strlit("objectEncoding");
    }
    assert("_result"@.len() == 7) by {
        reveal_strlit("_result");
    }
    lemma_text_length("_result"@);
    lemma_server_is_short();
    lemma_status_is_short(code, words, extra);
    let server = ValueView::Object(
        seq![
            ("fmsVer"@, ValueView::String("FMS/3,0,1,123"@)),
            ("capabilities"@, ValueView::Number(THIRTY_ONE)),
        ],
    );
    let status = status_of(code, words, extra);
    let nothing = Seq::<ValueView>::empty();
    let w = seq![status] + nothing;
    let v = seq![server] + w;
    let u = seq![ValueView::Number(transaction)] + v;
    lemma_values_length(status, nothing);
    lemma_values_length(server, w);
    lemma_values_length(ValueView::Number(transaction), v);
    lemma_values_length(ValueView::String("_result"@), u);
    let values = seq![ValueView::String("_result"@), ValueView::Number(transaction)] + seq![
        server,
        status,
    ];
    assert(values =~= seq![ValueView::String("_result"@)] + u);
}

/// The chunk size a connection announces is the one it then uses: a client that
/// starts at the size every connection opens at, and does as it is told, reads
/// every message of the answer to its `connect` as it was sent.
pub proof fn law_connect_answer_reads_back(transaction: u64, rest: Seq<u8>)
    ensures
        ({
            let fresh = fresh_connection();
            let actions = connect_answer(transaction);
            let applied = applied_all(fresh.writer, actions);
            &&& applied.outcome == Ok::<bool, ChunkError>(true)
            &&& applied.writer.chunk_size == CHUNK_SIZE
            &&& sends(actions).len() == 4
            &&& reading_run(fresh.reader, applied.sent + rest, 4) == sends(actions).map_values(
                |sent: (u32, MessageView)| Ok::<_, ChunkError>(Some(sent.1)),
            )
        }),
{
    let fresh = fresh_connection();
    let actions = connect_answer(transaction);
    let (w, r) = (fresh.writer, fresh.reader);
    lemma_widths(WINDOW_SIZE as int);
    lemma_widths(CHUNK_SIZE as int);
    lemma_connect_result_is_short(transaction);
    lemma_be32(CHUNK_SIZE as int);
    let window = actions[0]->message;
    let bandwidth = actions[1]->message;
    let announced = actions[2]->message;
    let result = actions[4]->message;
    let messages = seq![(2u32, window), (2u32, bandwidth), (2u32, announced), (3u32, result)];

    // What is sent, one after another.
    let one = after_writing(w, 2, window);
    let two = after_writing(one, 2, bandwidth);
    let three = after_writing(two, 2, announced);
    let four = WriterView { chunk_size: CHUNK_SIZE as nat, ..three };
    assert(told(three, announced) == four);
    assert(actions.take(0) =~= Seq::empty());
    assert(actions.take(1).drop_last() =~= actions.take(0));
    assert(actions.take(2).drop_last() =~= actions.take(1));
    assert(actions.take(3).drop_last() =~= actions.take(2));
    assert(actions.take(4).drop_last() =~= actions.take(3));
    assert(actions.drop_last() =~= actions.take(4));
    let none = Seq::<u8>::empty();
    assert(actions.take(1).last() == ActionView::Send { csid: 2, message: window });
    assert(actions.take(2).last() == ActionView::Send { csid: 2, message: bandwidth });
    assert(actions.take(3).last() == ActionView::Send { csid: 2, message: announced });
    assert(actions.take(4).last() == ActionView::SetChunkSize(CHUNK_SIZE as nat));
    assert(actions.last() == ActionView::Send { csid: 3, message: result });
    assert(applied_all(w, actions.take(0)) == unapplied(w));
    let a = applied_all(w, actions.take(1));
    assert(a == Applied { writer: one, sent: none + writing(w, 2, window), ..unapplied(w) });
    let b = applied_all(w, actions.take(2));
    assert(b == Applied { writer: two, sent: a.sent + writing(one, 2, bandwidth), ..unapplied(w) });
    let c = applied_all(w, actions.take(3));
    assert(c == Applied {
        writer: three,
        sent: b.sent + writing(two, 2, announced),
        ..unapplied(w)
    });
    let d = applied_all(w, actions.take(4));
    assert(d == Applied { writer: four, ..c });
    let applied = applied_all(w, actions);
    assert(applied.sent == d.sent + writing(four, 3, result));

    // The same as a run of messages.
    let last = seq![(3u32, result)];
    let later = seq![(2u32, announced), (3u32, result)];
    let late = seq![(2u32, bandwidth), (2u32, announced), (3u32, result)];
    assert(messages.drop_first() =~= late);
    assert(late.drop_first() =~= later);
    assert(later.drop_first() =~= last);
    let end = told(after_writing(four, 3, result), result);
    assert(last.drop_first() =~= Seq::empty());
    assert(writing_run(end, Seq::empty()) =~= none);
    assert(writing_run(four, last) =~= writing(four, 3, result));
    assert(writing_run(two, later) =~= writing(two, 2, announced) + writing(four, 3, result));
    assert(writing_run(one, late) =~= writing(one, 2, bandwidth) + writing_run(two, later));
    assert(writing_run(w, messages) =~= writing(w, 2, window) + writing_run(one, late));
    assert(applied.sent =~= writing_run(w, messages));

    // Which a client can read.
    assert(r.wf() && in_step(w, r)) by {
        assert(r.streams.dom() =~= w.streams.dom());
    }
    assert(one.streams.len() == 1 && two.streams.len() == 1 && three.streams.len() == 1) by {
        assert(two.streams.dom() =~= one.streams.dom());
        assert(three.streams.dom() =~= one.streams.dom());
    }
    assert(all_sound(end, Seq::empty()));
    assert(all_sound(four, last));
    assert(all_sound(two, later));
    assert(all_sound(one, late));
    assert(all_sound(w, messages));
    law_run_reads_back(w, r, messages, rest);

    assert(sends(actions.take(0)) =~= Seq::empty());
    assert(sends(actions.take(1)) =~= messages.take(1));
    assert(sends(actions.take(2)) =~= messages.take(2));
    assert(sends(actions.take(3)) =~= messages.take(3));
    assert(sends(actions.take(4)) =~= messages.take(3));
    assert(sends(actions) =~= messages);
}

/// What is to be done outside the connection, of what a session asks for, in order.
pub open spec fn effects_of(actions: Seq<ActionView>) -> Seq<EffectView>
    decreases actions.len(),
{
    if actions.len() == 0 {
        Seq::empty()
    } else {
        let before = effects_of(actions.drop_last());
        match actions.last() {
            ActionView::Publish { path, description } => before.push(
                EffectView::Publish { path, description },
            ),
            ActionView::Unit(unit) => before.push(EffectView::Unit(unit)),
            ActionView::Unpublish => before.push(EffectView::Unpublish),
            _ => before,
        }
    }
}

/// Everything a session asks for that is not the connection's own is passed on as it
/// is and in its order, and nothing is passed on that was not asked for. A session
/// asks for nothing after it stops publishing.
pub proof fn law_what_is_asked_for_is_passed_on(writer: WriterView, actions: Seq<ActionView>)
    requires
        applied_all(writer, actions).outcome is Ok,
        forall|i: int| 0 <= i < actions.len() - 1 ==> !(#[trigger] actions[i] is Unpublish),
    ensures
        applied_all(writer, actions).effects == effects_of(actions),
    decreases actions.len(),
{
    if actions.len() > 0 {
        let fewer = actions.drop_last();
        assert forall|i: int| 0 <= i < fewer.len() implies !(#[trigger] fewer[i] is Unpublish) by {
            assert(fewer[i] == actions[i]);
        }
        law_what_is_asked_for_is_passed_on(writer, fewer);
        law_only_unpublishing_ends_a_connection(writer, fewer);
        assert(!unpublishes(fewer));
        let so_far = applied_all(writer, fewer);
        assert(so_far.outcome is Ok && so_far.outcome->Ok_0);
        assert(so_far.outcome == Ok::<bool, ChunkError>(true));
    }
}

/// What a new connection does with its first bytes: it waits for 1537, refuses a
/// version other than three, and otherwise answers with 3073 and goes on behind them.
pub proof fn law_connections_begin_with_a_handshake(s: Seq<u8>)
    ensures
        ({
            let begun = advanced(fresh_connection(), s);
            &&& begun.effects.len() == 0
            &&& s.len() < 1537 ==> begun.outcome == Ok::<_, ConnectionErrorView>(Progress::Waits)
                && begun.rest == s && begun.sent.len() == 0 && begun.connection
                == fresh_connection()
            &&& s.len() >= 1537 && s[0] != 3 ==> begun.outcome == Err::<Progress, _>(
                ConnectionErrorView::Handshake(HandshakeError::UnsupportedVersion(s[0])),
            )
            &&& s.len() >= 1537 && s[0] == 3 ==> {
                &&& begun.outcome == Ok::<_, ConnectionErrorView>(Progress::GoesOn)
                &&& begun.rest == s.skip(1537)
                &&& begun.sent.len() == 3073 && begun.sent[0] == 3
                &&& begun.connection.session == fresh_connection().session
            }
        }),
{
    law_handshakes_by_their_bytes(s, 0);
    if s.len() >= 1537 {
        law_replies_by_their_bytes(s.subrange(1, 1537));
    }
}

/// A message that has come whole is the session's to answer: the session after it is
/// the one that took it, what it asks for is passed on and sent, and what it refuses
/// ends the connection as that. Without a whole message nothing happens.
pub proof fn law_messages_reach_the_session(connection: ConnectionView, s: Seq<u8>)
    requires
        connection.handshake.stage == handshake::Stage::Done,
    ensures
        ({
            let (read, after) = (reading(connection.reader, s), advanced(connection, s));
            &&& after.rest == read.rest && after.connection.reader == read.reader
            &&& after.connection.handshake == connection.handshake
            &&& read.outcome matches Err(error) ==> after.outcome == Err::<Progress, _>(
                ConnectionErrorView::Chunk(error),
            )
            &&& read.outcome == Ok::<_, ChunkError>(None::<MessageView>) ==> after.outcome == Ok::<
                _,
                ConnectionErrorView,
            >(Progress::Waits) && after.sent.len() == 0 && after.effects.len() == 0
                && after.connection.session == connection.session
            &&& read.outcome matches Ok(Some(message)) ==> {
                let taken = handled(connection.session, message);
                &&& after.connection.session == taken.session
                &&& taken.outcome matches Err(error) ==> after.outcome == Err::<Progress, _>(
                    ConnectionErrorView::Session(error),
                ) && after.sent.len() == 0 && after.effects.len() == 0
                &&& taken.outcome matches Ok(actions) ==> after.effects == applied_all(
                    connection.writer,
                    actions,
                ).effects && after.sent == applied_all(connection.writer, actions).sent
            }
        }),
{
}

/// Bytes are counted from the end of the handshake on, and an acknowledgement of them
/// is written as soon as it is owed; before that they are not.
pub proof fn law_bytes_are_acknowledged(connection: ConnectionView, bytes: nat)
    requires
        connection.wf(),
    ensures
        ({
            let (after, written) = arrived(connection, bytes);
            let all = connection.session.received + bytes;
            let done = connection.handshake.stage == handshake::Stage::Done;
            &&& !done ==> after == connection && written.len() == 0
            &&& done ==> after.session.received == all
            &&& done && all - connection.session.acknowledged < 2_500_000 ==> written.len() == 0
                && after.session.acknowledged == connection.session.acknowledged
            &&& done && all - connection.session.acknowledged >= 2_500_000 ==> {
                &&& after.session.acknowledged == all
                &&& written == writing(
                    connection.writer,
                    2,
                    MessageView {
                        timestamp: 0,
                        kind: MessageType::Acknowledgement,
                        stream_id: 0,
                        payload: be32(all as int % 0x1_0000_0000),
                    },
                )
            }
        }),
{
    let (owed, _) = counted(connection.session, bytes);
    if let Some(action) = owed {
        let written = apply_one(unapplied(connection.writer), action).sent;
        assert(written =~= writing(connection.writer, 2, action->message));
    }
}

} // verus!
