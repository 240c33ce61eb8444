//! H.264 in RTP, as RFC 6184 packetizes it.
//!
//! A NAL unit and a packet are different sizes for different reasons. A NAL
//! unit is as long as a coded picture needs; a packet is as long as the
//! network will carry without breaking it up. So there are two shapes:
//!
//! - **A single NAL unit packet** is the unit, unchanged, as the payload.
//!   Its first byte is the NAL header, so a receiver reads what it is
//!   without being told.
//! - **FU-A** cuts one unit across packets. Two bytes go in front of each
//!   piece, holding between them everything the original header said, so a
//!   receiver can rebuild it, and the piece itself starts after that
//!   header, which is not sent again.
//!
//! ```text
//! FU-A:  |F|NRI| 28  |S|E|R| Type |  a piece of the unit …
//!         └── indicator ┘└─ header ┘
//! ```
//!
//! S marks the first piece and E the last. Rebuilding the original is
//! `(indicator & 0xe0) | (header & 0x1f)` followed by every piece in order.
//!
//! # What is not done
//!
//! STAP-A, which packs several small units into one packet. Not aggregating
//! costs a few packets per keyframe and removes a way to be wrong.

use crate::buffer::{octets, Contents};
use crate::codec::h264::{units, Nal};
use crate::rtp::{
    lemma_packets_push, packets_of, payloads, Piece, Stream, StreamView, HEADER_SIZE,
};
use crate::time::MediaTime;
use bytes::Bytes;
use vstd::prelude::*;
use vstd::slice::slice_subrange;

verus! {

/// The type a fragmented unit's packets carry instead of their own.
pub const FU_A: u8 = 28;

/// Cuts H.264 access units into packets.
///
/// One per track, because the [`Stream`] inside it is one track's sequence
/// numbers and nothing else's.
#[derive(Debug)]
pub struct Packetizer {
    stream: Stream,
}

/// What a [`Packetizer`] is: its stream.
impl View for Packetizer {
    type V = StreamView;

    closed spec fn view(&self) -> StreamView {
        self.stream@
    }
}

impl Clone for Packetizer {
    fn clone(&self) -> (copy: Self)
        ensures
            copy@ == self@,
    {
        Self { stream: self.stream.clone() }
    }
}

/// The first byte of a fragment: the three bits above the type say how
/// important the unit is and whether it is corrupt, and belong to the unit, so
/// every piece repeats them.
pub open spec fn indicator(header: u8) -> u8 {
    (header / 32 * 32 + FU_A) as u8
}

/// The second byte of a fragment: whether it is the first, whether it is the
/// last, and the unit's type.
pub open spec fn fragment_header(header: u8, first: bool, last: bool) -> u8 {
    ((if first {
        0x80int
    } else {
        0
    }) + (if last {
        0x40int
    } else {
        0
    }) + header % 32) as u8
}

/// The pieces of what is left of a unit, each of at most `room` bytes of it.
/// The last of them completes the access unit if the unit does.
pub open spec fn fragments(
    header: u8,
    body: Seq<u8>,
    first: bool,
    completes: bool,
    room: int,
) -> Seq<Piece>
    decreases body.len(),
{
    if body.len() <= room || room <= 0 {
        seq![
            Piece {
                marker: completes,
                prefix: seq![indicator(header), fragment_header(header, first, true)],
                body,
            },
        ]
    } else {
        seq![
            Piece {
                marker: false,
                prefix: seq![indicator(header), fragment_header(header, first, false)],
                body: body.take(room),
            },
        ] + fragments(header, body.skip(room), false, completes, room)
    }
}

/// The pieces of one unit: itself, where it fits, or fragments, where it does
/// not. Two bytes of the budget go to the pair in front of a fragment, and the
/// original header byte is not sent at all.
pub open spec fn unit_pieces(unit: Seq<u8>, completes: bool, budget: int) -> Seq<Piece> {
    if unit.len() <= budget {
        seq![Piece { marker: completes, prefix: Seq::empty(), body: unit }]
    } else {
        fragments(unit[0], unit.skip(1), true, completes, budget - 2)
    }
}

/// The pieces of an access unit's first `count` units; the last unit of all
/// completes it.
pub open spec fn pieces(units: Seq<Seq<u8>>, count: nat, budget: int) -> Seq<Piece>
    decreases count,
{
    if count == 0 {
        Seq::empty()
    } else {
        pieces(units, (count - 1) as nat, budget) + unit_pieces(
            units[count - 1],
            count == units.len(),
            budget,
        )
    }
}

/// Whether every unit either fits a packet or can be cut up to.
pub open spec fn can_cut(units: Seq<Seq<u8>>, budget: int) -> bool {
    forall|i: int| 0 <= i < units.len() ==> (#[trigger] units[i]).len() <= budget || budget >= 3
}

impl Packetizer {
    /// Whether a packet has room for a payload.
    pub open spec fn wf(&self) -> bool {
        self@.mtu > HEADER_SIZE
    }

    /// A packetizer writing onto `stream`.
    pub fn new(stream: Stream) -> (packetizer: Self)
        ensures
            packetizer@ == stream@,
    {
        Self { stream }
    }

    /// The stream its packets belong to, which the SDP has to describe.
    pub fn stream(&self) -> (stream: &Stream)
        ensures
            stream@ == self@,
    {
        &self.stream
    }

    /// Cuts one access unit into the packets that carry it.
    ///
    /// Every packet gets the same timestamp, which is what says they are one
    /// picture, and only the last one gets the marker, which is what says
    /// there are no more of it coming.
    pub fn packetize(&mut self, nalus: &[Nal], at: MediaTime) -> (packets: Vec<Bytes>)
        requires
            old(self).wf(),
            can_cut(units(nalus@), old(self)@.budget()),
        ensures
            ({
                let pieces = pieces(units(nalus@), nalus@.len(), old(self)@.budget());
                &&& payloads(packets@) == packets_of(
                    old(self)@,
                    old(self)@.timestamp(at@),
                    pieces,
                )
                &&& final(self)@ == old(self)@.advanced(pieces.len())
            }),
    {
        let timestamp: u32 = self.stream.timestamp(at);
        let ghost start = self@;
        let ghost all = units(nalus@);
        let budget: usize = self.stream.budget();
        let mut packets: Vec<Bytes> = Vec::new();
        let mut i: usize = 0;
        let ghost mut done: Seq<Piece> = Seq::empty();
        assert(payloads(packets@) =~= packets_of(start, timestamp, done));
        while i < nalus.len()
            invariant
                i <= nalus@.len(),
                all == units(nalus@),
                can_cut(all, budget as int),
                budget == start.budget(),
                done == pieces(all, i as nat, budget as int),
                payloads(packets@) == packets_of(start, timestamp, done),
                self@ == start.advanced(done.len()),
            decreases nalus@.len() - i,
        {
            assert(all[i as int] == nalus@[i as int]@);
            let last = i + 1 == nalus.len();
            let data = octets(nalus[i].data());
            let ghost unit = data@;
            let ghost more = unit_pieces(unit, last, budget as int);
            if data.len() <= budget {
                let ghost piece = Piece { marker: last, prefix: Seq::empty(), body: unit };
                let empty: [u8; 0] = [];
                assert(empty@ =~= Seq::<u8>::empty());
                let ghost before = packets@;
                let packet = self.stream.packet(last, timestamp, &empty, data);
                packets.push(packet);
                proof {
                    lemma_packets_push(start, timestamp, done, piece);
                    assert(payloads(packets@) =~= payloads(before).push(packet@));
                    assert(done + more =~= done.push(piece));
                }
            } else {
                self.fragment(&mut packets, last, timestamp, data, Ghost(start), Ghost(done));
            }
            proof {
                done = done + more;
            }
            i = i + 1;
        }
        packets
    }

    /// Cuts one unit that will not fit into pieces that will.
    fn fragment(
        &mut self,
        packets: &mut Vec<Bytes>,
        last: bool,
        timestamp: u32,
        data: &[u8],
        Ghost(start): Ghost<StreamView>,
        Ghost(done): Ghost<Seq<Piece>>,
    )
        requires
            data@.len() > old(self)@.budget() >= 3,
            old(self)@ == start.advanced(done.len()),
            payloads(old(packets)@) == packets_of(start, timestamp, done),
        ensures
            ({
                let all = done + unit_pieces(data@, last, start.budget());
                &&& payloads(final(packets)@) == packets_of(start, timestamp, all)
                &&& final(self)@ == start.advanced(all.len())
            }),
    {
        let room: usize = self.stream.budget() - 2;
        let header: u8 = data[0];
        let first_byte: u8 = header / 32 * 32 + FU_A;
        let length: usize = data.len();
        let ghost body = data@.skip(1);
        let ghost whole = done + fragments(header, body, true, last, room as int);
        let mut at: usize = 1;
        let ghost mut sent: Seq<Piece> = done;
        assert(data@.skip(at as int) =~= body);
        while length - at > room
            invariant
                room >= 1,
                length == data@.len(),
                1 <= at <= length,
                header == data@[0],
                first_byte == indicator(header),
                whole == sent + fragments(
                    header,
                    data@.skip(at as int),
                    at == 1,
                    last,
                    room as int,
                ),
                payloads(packets@) == packets_of(start, timestamp, sent),
                self@ == start.advanced(sent.len()),
            decreases length - at,
        {
            let ghost left = data@.skip(at as int);
            let second_byte: u8 = if at == 1 {
                0x80 + header % 32
            } else {
                header % 32
            };
            let prefix: [u8; 2] = [first_byte, second_byte];
            let piece = slice_subrange(data, at, at + room);
            let ghost part = Piece { marker: false, prefix: prefix@, body: piece@ };
            let ghost before = packets@;
            let packet = self.stream.packet(false, timestamp, &prefix, piece);
            packets.push(packet);
            proof {
                lemma_packets_push(start, timestamp, sent, part);
                assert(payloads(packets@) =~= payloads(before).push(packet@));
                assert(piece@ =~= left.take(room as int));
                assert(data@.skip(at + room) =~= left.skip(room as int));
                assert(prefix@ =~= seq![
                    indicator(header),
                    fragment_header(header, at == 1, false),
                ]);
                let rest = fragments(header, left.skip(room as int), false, last, room as int);
                assert(sent + (seq![part] + rest) =~= sent.push(part) + rest);
                sent = sent.push(part);
            }
            at = at + room;
        }
        let ghost left = data@.skip(at as int);
        let second_byte: u8 = if at == 1 {
            0xc0 + header % 32
        } else {
            0x40 + header % 32
        };
        let prefix: [u8; 2] = [first_byte, second_byte];
        let piece = slice_subrange(data, at, length);
        let ghost part = Piece { marker: last, prefix: prefix@, body: piece@ };
        let ghost before = packets@;
        let packet = self.stream.packet(last, timestamp, &prefix, piece);
        packets.push(packet);
        proof {
            lemma_packets_push(start, timestamp, sent, part);
            assert(payloads(packets@) =~= payloads(before).push(packet@));
            assert(piece@ =~= left);
            assert(prefix@ =~= seq![indicator(header), fragment_header(header, at == 1, true)]);
            assert(whole =~= sent.push(part));
        }
    }
}

/// A piece's payload, as a receiver finds it after the header.
pub open spec fn payload_of(piece: Piece) -> Seq<u8> {
    piece.prefix + piece.body
}

/// What a receiver has: the units that are whole, and the one it is part-way
/// through.
pub struct Received {
    pub units: Seq<Seq<u8>>,
    pub open: Seq<u8>,
}

/// What a receiver has after a payload more: a fragment goes on the end of the
/// unit it is part-way through, with the header rebuilt at the first, and
/// anything else is a unit.
pub open spec fn received(before: Received, payload: Seq<u8>) -> Received {
    if payload[0] % 32 == FU_A {
        let header = payload[1];
        let begun = if header >= 0x80 {
            seq![(payload[0] / 32 * 32 + header % 32) as u8]
        } else {
            before.open
        };
        let open = begun + payload.skip(2);
        if header / 64 % 2 == 1 {
            Received { units: before.units.push(open), open: Seq::empty() }
        } else {
            Received { open, ..before }
        }
    } else {
        Received { units: before.units.push(payload), ..before }
    }
}

/// What a receiver has after the payloads of some pieces, in order.
pub open spec fn reassembled(before: Received, pieces: Seq<Piece>) -> Received
    decreases pieces.len(),
{
    if pieces.len() == 0 {
        before
    } else {
        received(reassembled(before, pieces.drop_last()), payload_of(pieces.last()))
    }
}

proof fn lemma_reassembled_in_turn(before: Received, first: Seq<Piece>, then: Seq<Piece>)
    ensures
        reassembled(before, first + then) == reassembled(reassembled(before, first), then),
    decreases then.len(),
{
    if then.len() == 0 {
        assert(first + then =~= first);
    } else {
        lemma_reassembled_in_turn(before, first, then.drop_last());
        assert((first + then).drop_last() =~= first + then.drop_last());
        assert((first + then).last() == then.last());
    }
}

/// What a receiver has after one piece.
proof fn lemma_reassembled_one(before: Received, piece: Piece)
    ensures
        reassembled(before, seq![piece]) == received(before, payload_of(piece)),
{
    assert(seq![piece].drop_last() =~= Seq::empty());
    assert(reassembled(before, seq![piece].drop_last()) == before);
}

/// The fragments of what is left of a unit complete it.
proof fn lemma_fragments_reassemble(
    before: Received,
    header: u8,
    body: Seq<u8>,
    first: bool,
    completes: bool,
    room: int,
)
    requires
        room >= 1,
    ensures
        reassembled(before, fragments(header, body, first, completes, room)) == (Received {
            units: before.units.push(
                (if first {
                    seq![header]
                } else {
                    before.open
                }) + body,
            ),
            open: Seq::empty(),
        }),
    decreases body.len(),
{
    let all = fragments(header, body, first, completes, room);
    let begun = if first {
        seq![header]
    } else {
        before.open
    };
    let last = body.len() <= room;
    let piece = Piece {
        marker: completes && last,
        prefix: seq![indicator(header), fragment_header(header, first, last)],
        body: if last {
            body
        } else {
            body.take(room)
        },
    };
    let payload = payload_of(piece);
    assert(payload[0] == indicator(header) && payload[1] == fragment_header(header, first, last));
    assert(payload.skip(2) =~= piece.body);
    lemma_reassembled_one(before, piece);
    if last {
        assert(all =~= seq![piece]);
    } else {
        let rest = fragments(header, body.skip(room), false, completes, room);
        let next = received(before, payload);
        assert(next == (Received { open: begun + body.take(room), ..before }));
        assert(all =~= seq![piece] + rest);
        lemma_reassembled_in_turn(before, seq![piece], rest);
        lemma_fragments_reassemble(next, header, body.skip(room), false, completes, room);
        assert(begun + body.take(room) + body.skip(room) =~= begun + body);
    }
}

/// Whether a list of units is one that RTP can carry: none is empty, and none
/// has the type that says a payload is a fragment.
pub open spec fn carriable(units: Seq<Seq<u8>>) -> bool {
    forall|i: int|
        0 <= i < units.len() ==> (#[trigger] units[i]).len() > 0 && units[i][0] % 32 != FU_A
}

/// A receiver that takes an access unit's payloads in order has the units it
/// was made of, whole and in order, whatever their sizes.
pub proof fn law_units_come_back_whole(units: Seq<Seq<u8>>, count: nat, budget: int)
    requires
        count <= units.len(),
        carriable(units),
        can_cut(units, budget),
    ensures
        reassembled(
            Received { units: Seq::empty(), open: Seq::empty() },
            pieces(units, count, budget),
        ) == (Received { units: units.take(count as int), open: Seq::empty() }),
    decreases count,
{
    let nothing = Received { units: Seq::empty(), open: Seq::empty() };
    if count == 0 {
        assert(units.take(0) =~= Seq::empty());
    } else {
        let fewer = (count - 1) as nat;
        let unit = units[count - 1];
        let completes = count == units.len();
        let before = pieces(units, fewer, budget);
        let more = unit_pieces(unit, completes, budget);
        law_units_come_back_whole(units, fewer, budget);
        lemma_reassembled_in_turn(nothing, before, more);
        let so_far = reassembled(nothing, before);
        if unit.len() <= budget {
            let piece = Piece { marker: completes, prefix: Seq::empty(), body: unit };
            assert(more =~= seq![piece]);
            lemma_reassembled_one(so_far, piece);
            assert(payload_of(piece) =~= unit);
        } else {
            lemma_fragments_reassemble(so_far, unit[0], unit.skip(1), true, completes, budget - 2);
            assert(seq![unit[0]] + unit.skip(1) =~= unit);
        }
        assert(units.take(count as int) =~= units.take(fewer as int).push(unit));
    }
}

proof fn lemma_fragments_fit(
    header: u8,
    body: Seq<u8>,
    first: bool,
    completes: bool,
    room: int,
)
    requires
        room >= 1,
    ensures
        ({
            let all = fragments(header, body, first, completes, room);
            &&& all.len() > 0
            &&& forall|i: int|
                0 <= i < all.len() ==> {
                    &&& (#[trigger] all[i]).marker == (completes && i == all.len() - 1)
                    &&& all[i].prefix.len() == 2
                    &&& all[i].body.len() <= room
                }
        }),
    decreases body.len(),
{
    if body.len() > room {
        lemma_fragments_fit(header, body.skip(room), false, completes, room);
    }
}

/// Of the packets of an access unit, the last is marked and no other is, and
/// none is larger than the budget allows.
pub proof fn law_only_the_last_is_marked(units: Seq<Seq<u8>>, count: nat, budget: int, index: int)
    requires
        count <= units.len(),
        can_cut(units, budget),
        0 <= index < pieces(units, count, budget).len(),
    ensures
        ({
            let all = pieces(units, count, budget);
            &&& all[index].marker == (count == units.len() && index == all.len() - 1)
            &&& payload_of(all[index]).len() <= budget
        }),
    decreases count,
{
    if count > 0 {
        let fewer = (count - 1) as nat;
        let unit = units[count - 1];
        let before = pieces(units, fewer, budget);
        let more = unit_pieces(unit, count == units.len(), budget);
        if unit.len() > budget {
            lemma_fragments_fit(
                unit[0],
                unit.skip(1),
                true,
                count == units.len(),
                budget - 2,
            );
        }
        assert(more.len() > 0);
        if index < before.len() {
            law_only_the_last_is_marked(units, fewer, budget, index);
        } else {
            assert(pieces(units, count, budget)[index] == more[index - before.len()]);
        }
    }
}

/// An access unit whose units all fit goes out as one packet for each, and each
/// packet carries its unit as it is.
pub proof fn law_units_that_fit_go_as_they_are(units: Seq<Seq<u8>>, count: nat, budget: int)
    requires
        count <= units.len(),
        forall|i: int| 0 <= i < units.len() ==> (#[trigger] units[i]).len() <= budget,
    ensures
        pieces(units, count, budget).len() == count,
        forall|i: int|
            0 <= i < count ==> payload_of(#[trigger] pieces(units, count, budget)[i]) == units[i],
    decreases count,
{
    if count > 0 {
        law_units_that_fit_go_as_they_are(units, (count - 1) as nat, budget);
        let unit = units[count - 1];
        assert(payload_of(Piece { marker: count == units.len(), prefix: Seq::empty(), body: unit })
            =~= unit);
    }
}

/// A unit that does not fit is cut into fragments. Each begins with the unit's
/// own top bits over the type 28, and then whether it is the first, whether it is
/// the last, and the unit's type; every one but the last is as long as a packet
/// allows; and together they are as long as the unit with two bytes more for
/// each, less the header byte that is not sent.
pub proof fn law_fragments_are_full_and_say_where_they_stand(
    unit: Seq<u8>,
    completes: bool,
    budget: int,
    index: int,
)
    requires
        3 <= budget < unit.len(),
        0 <= index < unit_pieces(unit, completes, budget).len(),
    ensures
        ({
            let all = unit_pieces(unit, completes, budget);
            let payload = payload_of(all[index]);
            let last = index == all.len() - 1;
            &&& all.len() >= 2
            &&& payload[0] == unit[0] - unit[0] % 32 + 28
            &&& payload[1] == unit[0] % 32 + (if index == 0 {
                128int
            } else {
                0
            }) + (if last {
                64int
            } else {
                0
            })
            &&& !last ==> payload.len() == budget
            &&& last ==> payload.len() == unit.len() - 1 + 2 - index * (budget - 2)
            &&& payload.skip(2) == unit.subrange(
                1 + index * (budget - 2),
                1 + index * (budget - 2) + payload.len() - 2,
            )
        }),
{
    let body = unit.skip(1);
    lemma_fragment(unit[0], body, true, completes, budget - 2, index);
    let all = unit_pieces(unit, completes, budget);
    let piece = all[index];
    let at = index * (budget - 2);
    assert(at >= 0) by (nonlinear_arith)
        requires
            at == index * (budget - 2),
            index >= 0,
            budget >= 3,
    ;
    assert(payload_of(piece).skip(2) =~= piece.body);
    assert(body.subrange(at, at + piece.body.len()) =~= unit.subrange(
        1 + at,
        1 + at + piece.body.len(),
    ));
}

proof fn lemma_fragment(
    header: u8,
    body: Seq<u8>,
    first: bool,
    completes: bool,
    room: int,
    index: int,
)
    requires
        room >= 1,
        0 <= index < fragments(header, body, first, completes, room).len(),
    ensures
        ({
            let all = fragments(header, body, first, completes, room);
            let piece = all[index];
            let last = index == all.len() - 1;
            &&& body.len() > room ==> all.len() >= 2
            &&& piece.prefix == seq![
                indicator(header),
                fragment_header(header, first && index == 0, last),
            ]
            &&& !last ==> piece.body.len() == room
            &&& last ==> piece.body.len() == body.len() - index * room
            &&& index * room + piece.body.len() <= body.len()
            &&& piece.body == body.subrange(index * room, index * room + piece.body.len())
        }),
    decreases body.len(),
{
    assert(0 * room == 0);
    if body.len() > room {
        let rest = body.skip(room);
        let others = fragments(header, rest, false, completes, room);
        lemma_fragments_fit(header, rest, false, completes, room);
        if index > 0 {
            lemma_fragment(header, rest, false, completes, room, index - 1);
            let all = fragments(header, body, first, completes, room);
            assert(all[index] == others[index - 1]);
            let (at, before) = (index * room, (index - 1) * room);
            assert(at == before + room && before >= 0) by (nonlinear_arith)
                requires
                    at == index * room,
                    before == (index - 1) * room,
                    index >= 1,
                    room >= 1,
            ;
            let length = all[index].body.len();
            assert(rest.subrange(before, before + length) =~= body.subrange(at, at + length));
        } else {
            assert(body.take(room) =~= body.subrange(0, room));
        }
    } else {
        assert(body.subrange(0, body.len() as int) =~= body);
    }
}

/// What a receiver has after some payloads, in their order.
pub open spec fn gathered(before: Received, payloads: Seq<Seq<u8>>) -> Received
    decreases payloads.len(),
{
    if payloads.len() == 0 {
        before
    } else {
        received(gathered(before, payloads.drop_last()), payloads.last())
    }
}

/// What a receiver makes of the payloads is what it makes of the pieces.
pub(crate) proof fn lemma_gathered(before: Received, pieces: Seq<Piece>, payloads: Seq<Seq<u8>>)
    requires
        pieces.len() == payloads.len(),
        forall|i: int| 0 <= i < pieces.len() ==> #[trigger] payloads[i] == payload_of(pieces[i]),
    ensures
        gathered(before, payloads) == reassembled(before, pieces),
    decreases pieces.len(),
{
    if pieces.len() > 0 {
        assert(payloads[payloads.len() - 1] == payload_of(pieces[pieces.len() - 1]));
        assert forall|i: int| 0 <= i < pieces.drop_last().len() implies #[trigger] payloads.drop_last()[i]
            == payload_of(pieces.drop_last()[i]) by {
            assert(payloads[i] == payload_of(pieces[i]));
        }
        lemma_gathered(before, pieces.drop_last(), payloads.drop_last());
    }
}

} // verus!
