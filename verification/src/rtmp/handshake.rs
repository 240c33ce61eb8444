//! The exchange that opens an RTMP connection, from the server's side.
//!
//! Six pieces in three round trips, named for who sends them:
//!
//! ```text
//! client ──C0──C1──▶            one version byte, then 1536 bytes
//!        ◀──S0──S1──S2──        the same, and the client's C1 back
//!        ──C2──▶                our S1 back
//! ```
//!
//! C1 and S1 are a timestamp, four bytes that are zero, and 1528 random
//! bytes. C2 and S2 echo the other side's: a timestamp, the time it was read
//! at, and the random bytes verbatim. Nothing is negotiated and nothing is
//! agreed: the chunk stream simply begins at the byte after C2.
//!
//! # What is not checked
//!
//! That C2 echoes S1. There is nothing to learn from it: the random bytes
//! went out in the clear, so anyone can echo them, and "the peer read what
//! we sent" is something TCP already says. Clients that get the echo wrong
//! exist, and refusing them would buy nothing. The bytes are counted and
//! dropped.
//!
//! # The handshake this does not do
//!
//! Flash Player 9 introduced a second form, where the four zero bytes hold a
//! client version instead and both sides embed an HMAC-SHA256 digest in
//! their random bytes. A client that tries it is answered plainly, which is
//! what every encoder in use accepts. [`Handshake::client_version`] reports
//! the attempt so that a caller can say so.

use crate::buffer::{
    advance, be32, be64, get_u32, get_u64, lemma_num64_amid, lemma_widths, num32, num64, pending, put_slice, put_u32,
    put_u64, put_u8, Contents,
};
use crate::splitmix::{law_scrambling_can_be_undone, scramble, scrambled, STEP};
use bytes::{Bytes, BytesMut};
use vstd::arithmetic::div_mod::{lemma_add_mod_noop, lemma_small_mod};
use vstd::prelude::*;
use vstd::slice::slice_subrange;

verus! {

broadcast use lemma_widths;

/// The only version of RTMP there is. Lower numbers are deprecated forms of
/// the protocol and higher ones were never defined.
pub const VERSION: u8 = 3;

/// How large C1, C2, S1 and S2 each are.
pub const HANDSHAKE_SIZE: usize = 1536;

/// How much of one is random: the rest is the two four-byte fields in front.
pub const RANDOM_SIZE: usize = 1528;

/// What to do next.
#[derive(Debug, PartialEq, Eq)]
pub enum Step {
    /// Not enough has arrived. Read more into the same buffer and call
    /// again; nothing was consumed.
    NeedMore,
    /// Send these bytes, then call again.
    Send(Bytes),
    /// The handshake is over. Whatever is left in the buffer is the first of
    /// the chunk stream: a client may send it in the same packet as C2, so
    /// it has to be kept rather than discarded with the connection's
    /// handshake state.
    Done,
}

/// What to do next.
pub enum StepView {
    NeedMore,
    Send(Seq<u8>),
    Done,
}

impl View for Step {
    type V = StepView;

    open spec fn view(&self) -> StepView {
        match *self {
            Step::NeedMore => StepView::NeedMore,
            Step::Send(bytes) => StepView::Send(bytes@),
            Step::Done => StepView::Done,
        }
    }
}

impl Clone for Step {
    fn clone(&self) -> (copy: Self)
        ensures
            copy@ == self@,
    {
        match self {
            Step::NeedMore => Step::NeedMore,
            Step::Send(bytes) => Step::Send(bytes.clone()),
            Step::Done => Step::Done,
        }
    }
}

/// What can be wrong with a handshake.
#[derive(Debug, PartialEq, Eq)]
pub enum HandshakeError {
    /// The first byte a client sends names the protocol version, and 3 is
    /// the only one that is RTMP.
    UnsupportedVersion(u8),
}

/// How far a handshake has come.
#[derive(Clone, Copy, Debug, PartialEq, Eq, Structural)]
pub enum Stage {
    /// Waiting for C0 and C1.
    Hello,
    /// Waiting for C2.
    Echo,
    /// Over.
    Done,
}

/// The server's half of the opening exchange.
///
/// Fed the bytes a client sends, in whatever pieces they arrive in, and asked
/// what to do next. It does no I/O of its own, so a caller reads into a
/// buffer, calls [`Handshake::read`], and writes whatever it is handed, until
/// it is told that the handshake is done. The buffer may then already hold the
/// start of the chunk stream.
pub struct Handshake {
    stage: Stage,
    client_version: u32,
}

/// What a [`Handshake`] remembers.
pub struct HandshakeView {
    pub stage: Stage,
    pub client_version: u32,
}

impl View for Handshake {
    type V = HandshakeView;

    closed spec fn view(&self) -> HandshakeView {
        HandshakeView { stage: self.stage, client_version: self.client_version }
    }
}

/// A handshake that has seen nothing yet.
pub open spec fn unshaken() -> HandshakeView {
    HandshakeView { stage: Stage::Hello, client_version: 0 }
}

/// What a call of [`Handshake::read`] does: what it says to do next, the
/// handshake after it, and what is left in the buffer.
pub struct Shaken {
    pub outcome: Result<StepView, HandshakeError>,
    pub handshake: HandshakeView,
    pub rest: Seq<u8>,
}

/// Takes the next whole piece from the front of `s`.
///
/// C0 and C1 are read together because a client sends them together and there
/// is nothing to do between them.
pub open spec fn shake(h: HandshakeView, s: Seq<u8>) -> Shaken {
    let waiting = Shaken { outcome: Ok(StepView::NeedMore), handshake: h, rest: s };
    match h.stage {
        Stage::Hello => if s.len() < 1 + HANDSHAKE_SIZE {
            waiting
        } else if s[0] != VERSION {
            Shaken { outcome: Err(HandshakeError::UnsupportedVersion(s[0])), ..waiting }
        } else {
            let hello = s.subrange(1, 1 + HANDSHAKE_SIZE);
            Shaken {
                outcome: Ok(StepView::Send(reply_to(hello))),
                handshake: HandshakeView {
                    stage: Stage::Echo,
                    client_version: num32(hello, 4) as u32,
                },
                rest: s.skip(1 + HANDSHAKE_SIZE),
            }
        },
        Stage::Echo => if s.len() < HANDSHAKE_SIZE {
            waiting
        } else {
            Shaken {
                outcome: Ok(StepView::Done),
                handshake: HandshakeView { stage: Stage::Done, ..h },
                rest: s.skip(HANDSHAKE_SIZE as int),
            }
        },
        Stage::Done => Shaken { outcome: Ok(StepView::Done), ..waiting },
    }
}

/// S0, S1 and S2 in one piece.
///
/// S1 is our own timestamp, which nothing reads, then the four bytes that say
/// this is a plain handshake, then random bytes. S2 is the client's C1 back:
/// its timestamp, then the time we read it at, which nothing reads, then its
/// random bytes unchanged.
pub open spec fn reply_to(hello: Seq<u8>) -> Seq<u8> {
    seq![VERSION] + be32(0) + be32(0) + random_bytes(
        seed_of(hello.skip(8), (RANDOM_SIZE / 8) as nat),
        (RANDOM_SIZE / 8) as nat,
    ) + hello.take(4) + be32(0) + hello.skip(8)
}

/// The client's own random bytes mixed into a starting value, eight at a time.
///
/// The field is not a secret: it goes out in the clear and comes straight
/// back, and nothing is derived from it. All it has to be is not the same on
/// every connection, which taking it from what the client sent achieves.
pub open spec fn seed_of(random: Seq<u8>, count: nat) -> u64
    decreases count,
{
    if count == 0 {
        STEP
    } else {
        let eight = num64(random, 8 * (count - 1)) as u64;
        seed_of(random, (count - 1) as nat) ^ ((eight << 17u64) | (eight >> 47u64))
    }
}

/// The counter of splitmix64 after `count` steps.
pub open spec fn counter(seed: u64, count: nat) -> u64
    decreases count,
{
    if count == 0 {
        seed
    } else {
        counter(seed, (count - 1) as nat).wrapping_add(STEP)
    }
}

/// Eight bytes for each of `count` steps of splitmix64.
pub open spec fn random_bytes(seed: u64, count: nat) -> Seq<u8>
    decreases count,
{
    if count == 0 {
        Seq::empty()
    } else {
        random_bytes(seed, (count - 1) as nat) + be64(scrambled(counter(seed, (count - 1) as nat)) as int)
    }
}

impl Default for Handshake {
    fn default() -> (handshake: Self)
        ensures
            handshake@ == unshaken(),
    {
        Self::new()
    }
}

impl Handshake {
    /// A handshake that has seen nothing yet.
    pub fn new() -> (handshake: Self)
        ensures
            handshake@ == unshaken(),
    {
        Self { stage: Stage::Hello, client_version: 0 }
    }

    /// Whether the handshake is over, and the bytes after it are the chunk
    /// stream.
    pub fn is_done(&self) -> (done: bool)
        ensures
            done == (self@.stage == Stage::Done),
    {
        self.stage == Stage::Done
    }

    /// What the client put in the four bytes that a plain handshake leaves
    /// zero, which is its own version when it is attempting the digest form.
    ///
    /// `None` until C1 has been read, and `Some(0)` for the plain handshake
    /// every encoder in use performs. Anything else was answered plainly
    /// regardless, and is worth saying out loud only because it is the first
    /// thing to suspect if such a client then goes quiet.
    pub fn client_version(&self) -> (version: Option<u32>)
        ensures
            version == if self@.stage == Stage::Hello {
                None
            } else {
                Some(self@.client_version)
            },
    {
        if self.stage == Stage::Hello {
            None
        } else {
            Some(self.client_version)
        }
    }

    /// Takes what it can from `buf` and says what to do next.
    ///
    /// Consumes only whole pieces: a C1 that is one byte short leaves all of
    /// itself behind, so a caller can read more into the same buffer and
    /// call again.
    pub fn read(&mut self, buf: &mut BytesMut) -> (outcome: Result<Step, HandshakeError>)
        ensures
            ({
                let shaken = shake(old(self)@, old(buf)@);
                &&& final(self)@ == shaken.handshake
                &&& final(buf)@ == shaken.rest
                &&& match outcome {
                    Ok(step) => shaken.outcome == Ok::<_, HandshakeError>(step@),
                    Err(error) => shaken.outcome == Err::<StepView, _>(error),
                }
            }),
    {
        match self.stage {
            Stage::Hello => {
                let bytes = pending(buf);
                let ghost s = bytes@;
                if bytes.len() < 1 + HANDSHAKE_SIZE {
                    return Ok(Step::NeedMore);
                }
                let version: u8 = bytes[0];
                if version != VERSION {
                    return Err(HandshakeError::UnsupportedVersion(version));
                }
                advance(buf, 1);
                let hello = buf.split_to(HANDSHAKE_SIZE);
                assert(hello@ =~= s.subrange(1, 1 + HANDSHAKE_SIZE));
                assert(buf@ =~= s.skip(1 + HANDSHAKE_SIZE));
                self.client_version = get_u32(pending(&hello), 4);
                self.stage = Stage::Echo;
                Ok(Step::Send(reply(pending(&hello))))
            },
            Stage::Echo => {
                if pending(buf).len() < HANDSHAKE_SIZE {
                    return Ok(Step::NeedMore);
                }
                advance(buf, HANDSHAKE_SIZE);
                self.stage = Stage::Done;
                Ok(Step::Done)
            },
            Stage::Done => Ok(Step::Done),
        }
    }
}

/// Builds S0, S1 and S2 in one piece, which is how a server sends them.
fn reply(hello: &[u8]) -> (reply: Bytes)
    requires
        hello@.len() == HANDSHAKE_SIZE,
    ensures
        reply@ == reply_to(hello@),
{
    let random = slice_subrange(hello, 8, HANDSHAKE_SIZE);
    assert(random@ =~= hello@.skip(8));
    let mut out = BytesMut::new();

    put_u8(&mut out, VERSION);

    put_u32(&mut out, 0);
    put_u32(&mut out, 0);
    let seed: u64 = seed(random);
    let ghost head = out@;
    assert(head =~= seq![VERSION] + be32(0) + be32(0));
    let mut state: u64 = seed;
    let mut written: usize = 0;
    assert(out@ =~= head + random_bytes(seed, 0));
    while written < RANDOM_SIZE / 8
        invariant
            written <= RANDOM_SIZE / 8,
            state == counter(seed, written as nat),
            out@ == head + random_bytes(seed, written as nat),
        decreases RANDOM_SIZE / 8 - written,
    {
        put_u64(&mut out, scramble(state));
        state = state.wrapping_add(STEP);
        written = written + 1;
        assert(out@ =~= head + random_bytes(seed, written as nat));
    }

    put_slice(&mut out, slice_subrange(hello, 0, 4));
    assert(hello@.subrange(0, 4) =~= hello@.take(4));
    put_u32(&mut out, 0);
    put_slice(&mut out, random);
    out.freeze()
}

/// Mixes the client's own random bytes into a starting value.
fn seed(random: &[u8]) -> (seed: u64)
    requires
        random@.len() == RANDOM_SIZE,
    ensures
        seed == seed_of(random@, (RANDOM_SIZE / 8) as nat),
{
    let mut seed: u64 = STEP;
    let mut read: usize = 0;
    while read < RANDOM_SIZE / 8
        invariant
            random@.len() == RANDOM_SIZE,
            read <= RANDOM_SIZE / 8,
            seed == seed_of(random@, read as nat),
        decreases RANDOM_SIZE / 8 - read,
    {
        let eight: u64 = get_u64(random, 8 * read);
        seed = seed ^ ((eight << 17u64) | (eight >> 47u64));
        read = read + 1;
    }
    seed
}

proof fn lemma_random_length(seed: u64, count: nat)
    ensures
        random_bytes(seed, count).len() == 8 * count,
    decreases count,
{
    if count > 0 {
        lemma_random_length(seed, (count - 1) as nat);
    }
}

/// A hello is answered with the version byte, a plain S1, and an S2 that gives
/// the client its timestamp and its random bytes back unchanged.
pub proof fn law_reply_echoes_the_hello(hello: Seq<u8>)
    requires
        hello.len() == HANDSHAKE_SIZE,
    ensures
        ({
            let reply = reply_to(hello);
            &&& reply.len() == 1 + 2 * HANDSHAKE_SIZE
            &&& reply[0] == VERSION
            &&& reply.subrange(5, 9) == be32(0)
            &&& reply.subrange(1 + HANDSHAKE_SIZE, 5 + HANDSHAKE_SIZE) == hello.take(4)
            &&& reply.skip(9 + HANDSHAKE_SIZE) == hello.skip(8)
        }),
{
    let reply = reply_to(hello);
    let count = (RANDOM_SIZE / 8) as nat;
    let random = random_bytes(seed_of(hello.skip(8), count), count);
    lemma_random_length(seed_of(hello.skip(8), count), count);
    assert(random.len() == RANDOM_SIZE);
    assert(reply.subrange(5, 9) =~= be32(0));
    assert(reply.subrange(1 + HANDSHAKE_SIZE, 5 + HANDSHAKE_SIZE) =~= hello.take(4));
    assert(reply.skip(9 + HANDSHAKE_SIZE) =~= hello.skip(8));
}

/// Bytes that have not made a whole piece are all left where they are, and
/// whatever follows a piece is left too.
pub proof fn law_only_whole_pieces_are_consumed(h: HandshakeView, s: Seq<u8>)
    ensures
        shake(h, s).outcome == Ok::<_, HandshakeError>(StepView::NeedMore) ==> shake(h, s).rest == s
            && shake(h, s).handshake == h,
        shake(h, s).outcome is Err ==> shake(h, s).rest == s && shake(h, s).handshake == h,
        shake(h, s).rest.len() <= s.len(),
        shake(h, s).rest == s.skip(s.len() - shake(h, s).rest.len()),
{
    assert(s.skip(0) =~= s);
}

/// A handshake that is over stays over, and touches nothing.
pub proof fn law_done_stays_done(h: HandshakeView, s: Seq<u8>)
    requires
        h.stage == Stage::Done,
    ensures
        shake(h, s) == (Shaken { outcome: Ok(StepView::Done), handshake: h, rest: s }),
{
}

/// A whole handshake that arrives at once, whatever C2 holds and whatever
/// follows it, is answered once and then done, and leaves what follows it.
pub proof fn law_handshake_completes(hello: Seq<u8>, echo: Seq<u8>, rest: Seq<u8>)
    requires
        hello.len() == HANDSHAKE_SIZE,
        echo.len() == HANDSHAKE_SIZE,
    ensures
        ({
            let first = shake(unshaken(), seq![VERSION] + hello + echo + rest);
            let second = shake(first.handshake, first.rest);
            &&& first.outcome == Ok::<_, HandshakeError>(StepView::Send(reply_to(hello)))
            &&& first.handshake.client_version == num32(hello, 4)
            &&& second.outcome == Ok::<_, HandshakeError>(StepView::Done)
            &&& second.handshake.stage == Stage::Done
            &&& second.rest == rest
        }),
{
    let s = seq![VERSION] + hello + echo + rest;
    assert(s.subrange(1, 1 + HANDSHAKE_SIZE) =~= hello);
    assert(s.skip(1 + HANDSHAKE_SIZE) =~= echo + rest);
    assert((echo + rest).skip(HANDSHAKE_SIZE as int) =~= rest);
}

/// What the client is answered, byte by byte: the version, which is three; eight bytes
/// of nothing and 1528 that are anything; and then what the client sent, its time
/// first and nothing where its version was.
pub proof fn law_replies_by_their_bytes(hello: Seq<u8>)
    requires
        hello.len() == 1536,
    ensures
        ({
            let reply = reply_to(hello);
            &&& reply.len() == 3073
            &&& reply[0] == 3
            &&& forall|i: int| 1 <= i < 9 ==> #[trigger] reply[i] == 0
            &&& forall|i: int| 0 <= i < 4 ==> #[trigger] reply[1537 + i] == hello[i]
            &&& forall|i: int| 4 <= i < 8 ==> #[trigger] reply[1537 + i] == 0
            &&& forall|i: int| 8 <= i < 1536 ==> #[trigger] reply[1537 + i] == hello[i]
        }),
{
    let reply = reply_to(hello);
    let count = (RANDOM_SIZE / 8) as nat;
    let random = random_bytes(seed_of(hello.skip(8), count), count);
    lemma_random_length(seed_of(hello.skip(8), count), count);
    let zero = be32(0);
    assert(zero[0] == 0 && zero[1] == 0 && zero[2] == 0 && zero[3] == 0) by {
        reveal(be32);
    }
    assert(forall|i: int| 0 <= i < 4 ==> #[trigger] zero[i] == 0);
    let head = seq![VERSION] + zero + zero;
    let echo = hello.take(4) + zero + hello.skip(8);
    assert(reply =~= head + random + echo);
    assert forall|i: int| 1 <= i < 9 implies #[trigger] reply[i] == 0 by {
        assert(reply[i] == head[i]);
        if i < 5 {
            assert(head[i] == zero[i - 1]);
        } else {
            assert(head[i] == zero[i - 5]);
        }
    }
    assert forall|i: int| 0 <= i < 1536 implies #[trigger] reply[1537 + i] == echo[i] by {
        assert(reply[1537 + i] == (head + random + echo)[1537 + i]);
    }
    assert forall|i: int| 4 <= i < 8 implies #[trigger] reply[1537 + i] == 0 by {
        assert(echo[i] == zero[i - 4]);
    }
    assert forall|i: int| 8 <= i < 1536 implies #[trigger] reply[1537 + i] == hello[i] by {
        assert(echo[i] == hello.skip(8)[i - 8]);
    }
}

/// What a handshake waits for and what it refuses: the version and 1536 bytes, of
/// which only version three is taken, and then 1536 more, whatever they are.
pub proof fn law_handshakes_by_their_bytes(s: Seq<u8>, client_version: u32)
    ensures
        ({
            let (hello, echo) = (
                unshaken(),
                HandshakeView { stage: Stage::Echo, client_version },
            );
            &&& s.len() < 1537 ==> shake(hello, s).outcome == Ok::<_, HandshakeError>(
                StepView::NeedMore,
            )
            &&& s.len() >= 1537 && s[0] != 3 ==> shake(hello, s).outcome == Err::<StepView, _>(
                HandshakeError::UnsupportedVersion(s[0]),
            )
            &&& s.len() >= 1537 && s[0] == 3 ==> {
                &&& shake(hello, s).outcome == Ok::<_, HandshakeError>(
                    StepView::Send(reply_to(s.subrange(1, 1537))),
                )
                &&& shake(hello, s).rest == s.skip(1537)
                &&& shake(hello, s).handshake.stage == Stage::Echo
                &&& shake(hello, s).handshake.client_version == s[5] * 0x100_0000 + s[6]
                    * 0x1_0000 + s[7] * 0x100 + s[8]
            }
            &&& s.len() < 1536 ==> shake(echo, s).outcome == Ok::<_, HandshakeError>(
                StepView::NeedMore,
            )
            &&& s.len() >= 1536 ==> shake(echo, s) == (Shaken {
                outcome: Ok(StepView::Done),
                handshake: HandshakeView { stage: Stage::Done, client_version },
                rest: s.skip(1536),
            })
        }),
{
    let hello = s.subrange(1, 1537);
    assert(s.len() >= 1537 ==> hello[4] == s[5] && hello[5] == s[6] && hello[6] == s[7] && hello[7]
        == s[8]);
}

/// The bytes that are anything are not the same to clients that sent different ones:
/// where what two sent differs in one run of eight bytes, so does what they are sent.
pub proof fn law_clients_are_answered_apart(a: Seq<u8>, b: Seq<u8>, count: nat, differs: int)
    requires
        0 <= differs < count,
        num64(a, 8 * differs) as u64 != num64(b, 8 * differs) as u64,
        forall|i: int|
            0 <= i < count && i != differs ==> #[trigger] num64(a, 8 * i) == num64(b, 8 * i),
    ensures
        seed_of(a, count) != seed_of(b, count),
        random_bytes(seed_of(a, count), 1) != random_bytes(seed_of(b, count), 1),
{
    lemma_seeds_differ(a, b, count, differs);
    let (p, q) = (seed_of(a, count), seed_of(b, count));
    law_scrambling_can_be_undone(p);
    law_scrambling_can_be_undone(q);
    let (x, y) = (scrambled(p) as int, scrambled(q) as int);
    let none = Seq::<u8>::empty();
    reveal_with_fuel(random_bytes, 2);
    reveal_with_fuel(counter, 2);
    lemma_num64_amid(none, x, none);
    lemma_num64_amid(none, y, none);
    assert(none + be64(x) + none =~= be64(x));
    assert(none + be64(y) + none =~= be64(y));
    assert(random_bytes(p, 1) =~= be64(x));
    assert(random_bytes(q, 1) =~= be64(y));
}

proof fn lemma_seeds_differ(a: Seq<u8>, b: Seq<u8>, count: nat, differs: int)
    requires
        0 <= differs,
        num64(a, 8 * differs) as u64 != num64(b, 8 * differs) as u64,
        forall|i: int|
            0 <= i < count && i != differs ==> #[trigger] num64(a, 8 * i) == num64(b, 8 * i),
    ensures
        differs < count <==> seed_of(a, count) != seed_of(b, count),
    decreases count,
{
    if count > 0 {
        let last = count - 1;
        lemma_seeds_differ(a, b, last as nat, differs);
        let (p, q) = (seed_of(a, last as nat), seed_of(b, last as nat));
        let (x, y) = (num64(a, 8 * last) as u64, num64(b, 8 * last) as u64);
        if last != differs {
            assert(num64(a, 8 * last) == num64(b, 8 * last));
        }
        let u = (x << 17u64) | (x >> 47u64);
        let v = (y << 17u64) | (y >> 47u64);
        assert((p == q && x != y ==> p ^ u != q ^ v) && (p != q && u == v ==> p ^ u != q ^ v) && (p
            == q && x == y ==> p ^ u == q ^ v)) by (bit_vector)
            requires
                u == (x << 17u64) | (x >> 47u64),
                v == (y << 17u64) | (y >> 47u64),
        ;
    }
}

/// The bytes that are anything are splitmix64's, from the seed on: each eight are what
/// it makes of the next counter.
pub proof fn law_random_bytes_are_scrambled_counters(seed: u64, count: nat, index: int)
    requires
        0 <= index < count,
    ensures
        random_bytes(seed, count).len() == 8 * count,
        num64(random_bytes(seed, count), 8 * index) == scrambled(
            ((seed + index * 0x9e37_79b9_7f4a_7c15) % 0x1_0000_0000_0000_0000) as u64,
        ),
    decreases count,
{
    let fewer = (count - 1) as nat;
    let (before, last) = (random_bytes(seed, fewer), be64(scrambled(counter(seed, fewer)) as int));
    lemma_random_length(seed, count);
    lemma_random_length(seed, fewer);
    if index == fewer {
        lemma_counter(seed, fewer);
        lemma_num64_amid(before, scrambled(counter(seed, fewer)) as int, Seq::empty());
        assert(before + last + Seq::<u8>::empty() =~= random_bytes(seed, count));
    } else {
        law_random_bytes_are_scrambled_counters(seed, fewer, index);
        let (all, at) = (random_bytes(seed, count), 8 * index);
        assert(forall|i: int| 0 <= i < before.len() ==> all[i] == before[i]);
        assert(num64(all, at) == num64(before, at));
    }
}

proof fn lemma_counter(seed: u64, count: nat)
    ensures
        counter(seed, count) == (seed + count * 0x9e37_79b9_7f4a_7c15) % 0x1_0000_0000_0000_0000,
    decreases count,
{
    let modulus: int = 0x1_0000_0000_0000_0000;
    if count == 0 {
        lemma_small_mod(seed as nat, modulus as nat);
    } else {
        lemma_counter(seed, (count - 1) as nat);
        let before = seed + (count - 1) * 0x9e37_79b9_7f4a_7c15;
        lemma_add_mod_noop(before, 0x9e37_79b9_7f4a_7c15, modulus);
        lemma_small_mod(0x9e37_79b9_7f4a_7c15, modulus as nat);
        assert(seed + count * 0x9e37_79b9_7f4a_7c15 == before + 0x9e37_79b9_7f4a_7c15);
        let stepped = counter(seed, (count - 1) as nat);
        assert(counter(seed, count) == stepped.wrapping_add(STEP));
        assert(stepped == before % modulus);
    }
}

/// The seed takes in what the client sent eight bytes at a time, each turned left by
/// seventeen bits.
pub proof fn law_seeds_take_in_every_word(random: Seq<u8>, count: nat)
    ensures
        seed_of(random, 0) == 0x9e37_79b9_7f4a_7c15,
        ({
            let word = num64(random, 8 * count as int) as u64;
            let turned = (word % 0x8000_0000_0000 * 0x2_0000 + word / 0x8000_0000_0000) as u64;
            seed_of(random, count + 1) == seed_of(random, count) ^ turned
        }),
{
    let word = num64(random, 8 * count as int) as u64;
    let turned = (word % 0x8000_0000_0000 * 0x2_0000 + word / 0x8000_0000_0000) as u64;
    assert((word << 17u64) | (word >> 47u64) == (word % 0x8000_0000_0000 * 0x2_0000 + word
        / 0x8000_0000_0000) as u64) by (bit_vector);
}

} // verus!
