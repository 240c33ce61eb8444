//! AAC in RTP, as RFC 3640 packetizes it in its `AAC-hbr` mode.
//!
//! An AAC access unit carries no length of its own: a decoder is told where
//! one ends by whatever framed it. So RTP has to say. Each packet opens
//! with a table of how long the units in it are:
//!
//! ```text
//! | AU-headers-length :16 | AU-header :16 | access unit … |
//!                          └ size :13 ┘└ index :3 ┘
//! ```
//!
//! `AU-headers-length` counts bits, not bytes, and with one unit per packet
//! it is always 16. The size is thirteen bits, which is the only real limit
//! here and one no bitrate anybody sends comes near.
//!
//! The three fields' widths are stated in the SDP, and this states
//! `sizelength=13; indexlength=3; indexdeltalength=3`, which is what
//! everything else uses.
//!
//! # One unit to a packet
//!
//! The format allows several, and saves three bytes each time. A frame at
//! any ordinary bitrate is a few hundred bytes and arrives every twenty-odd
//! milliseconds, so aggregating would trade latency for a saving of about
//! one percent. Fragmenting is done, because a frame that does not fit has
//! to go somehow.

use crate::buffer::{octets, Contents};
use crate::rtp::{
    lemma_packets_push, packets_of, payloads, Piece, RtpError, Stream, StreamView, HEADER_SIZE,
};
use crate::time::MediaTime;
use bytes::Bytes;
use vstd::prelude::*;
use vstd::slice::slice_subrange;

verus! {

/// How many bytes go in front of the media: the header count, then one
/// header.
pub const PREFIX: usize = 4;

/// The largest access unit a thirteen-bit size can describe.
pub const MAX_ACCESS_UNIT: usize = 8191;

/// Cuts AAC access units into packets.
#[derive(Debug)]
pub struct Packetizer {
    stream: Stream,
}

/// What a [`Packetizer`] is: its stream.
impl View for Packetizer {
    type V = StreamView;

    closed spec fn view(&self) -> StreamView {
        self.stream@
    }
}

impl Clone for Packetizer {
    fn clone(&self) -> (copy: Self)
        ensures
            copy@ == self@,
    {
        Self { stream: self.stream.clone() }
    }
}

/// What goes in front of the media of an access unit `length` bytes long: one
/// header of sixteen bits, and in it the length above an index of zero.
pub open spec fn size_prefix(length: nat) -> Seq<u8> {
    seq![0x00u8, 0x10, (length / 32) as u8, (length % 32 * 8) as u8]
}

/// The pieces of what is left of an access unit, each of at most `room` bytes
/// of it. Every piece states the size of the whole.
pub open spec fn pieces(left: Seq<u8>, prefix: Seq<u8>, room: int) -> Seq<Piece>
    decreases left.len(),
{
    if left.len() <= room || room <= 0 {
        seq![Piece { marker: true, prefix, body: left }]
    } else {
        seq![Piece { marker: false, prefix, body: left.take(room) }] + pieces(
            left.skip(room),
            prefix,
            room,
        )
    }
}

impl Packetizer {
    /// Whether a packet has room for a payload.
    pub open spec fn wf(&self) -> bool {
        self@.mtu > HEADER_SIZE
    }

    /// A packetizer writing onto `stream`.
    pub fn new(stream: Stream) -> (packetizer: Self)
        ensures
            packetizer@ == stream@,
    {
        Self { stream }
    }

    /// The stream its packets belong to, which the SDP has to describe.
    pub fn stream(&self) -> (stream: &Stream)
        ensures
            stream@ == self@,
    {
        &self.stream
    }

    /// Cuts one access unit into the packets that carry it.
    ///
    /// Almost always one. A frame too large for a packet is split, and every
    /// piece states the size of the whole so a receiver knows how much it is
    /// waiting for; only the last is marked.
    pub fn packetize(&mut self, frame: &Bytes, at: MediaTime) -> (outcome: Result<
        Vec<Bytes>,
        RtpError,
    >)
        requires
            old(self).wf(),
            frame@.len() > MAX_ACCESS_UNIT || old(self)@.budget() > PREFIX,
        ensures
            outcome is Ok <==> frame@.len() <= MAX_ACCESS_UNIT,
            outcome matches Ok(packets) ==> {
                let pieces = pieces(
                    frame@,
                    size_prefix(frame@.len()),
                    old(self)@.budget() - PREFIX,
                );
                &&& payloads(packets@) == packets_of(
                    old(self)@,
                    old(self)@.timestamp(at@),
                    pieces,
                )
                &&& final(self)@ == old(self)@.advanced(pieces.len())
            },
            outcome matches Err(error) ==> final(self)@ == old(self)@ && error == (
            RtpError::AccessUnitTooLong {
                length: frame@.len() as usize,
                limit: MAX_ACCESS_UNIT,
            }),
    {
        let data = octets(frame);
        let length: usize = data.len();
        if length > MAX_ACCESS_UNIT {
            return Err(RtpError::AccessUnitTooLong { length, limit: MAX_ACCESS_UNIT });
        }
        let ghost start = self@;
        let timestamp: u32 = self.stream.timestamp(at);
        let prefix: [u8; 4] = [0x00, 0x10, (length / 32) as u8, (length % 32 * 8) as u8];
        assert(prefix@ =~= size_prefix(frame@.len()));
        let room: usize = self.stream.budget() - PREFIX;
        let ghost whole = pieces(data@, prefix@, room as int);
        let mut packets: Vec<Bytes> = Vec::new();
        let mut from: usize = 0;
        let ghost mut sent: Seq<Piece> = Seq::empty();
        assert(payloads(packets@) =~= packets_of(start, timestamp, sent));
        assert(data@.skip(0) =~= data@);
        assert(whole =~= sent + pieces(data@.skip(0), prefix@, room as int));
        while length - from > room
            invariant
                room >= 1,
                length == data@.len(),
                from <= length,
                whole == sent + pieces(data@.skip(from as int), prefix@, room as int),
                payloads(packets@) == packets_of(start, timestamp, sent),
                self@ == start.advanced(sent.len()),
            decreases length - from,
        {
            let ghost left = data@.skip(from as int);
            let body = slice_subrange(data, from, from + room);
            let ghost part = Piece { marker: false, prefix: prefix@, body: body@ };
            let ghost before = packets@;
            let packet = self.stream.packet(false, timestamp, &prefix, body);
            packets.push(packet);
            proof {
                lemma_packets_push(start, timestamp, sent, part);
                assert(payloads(packets@) =~= payloads(before).push(packet@));
                assert(body@ =~= left.take(room as int));
                assert(data@.skip(from + room) =~= left.skip(room as int));
                let rest = pieces(left.skip(room as int), prefix@, room as int);
                assert(sent + (seq![part] + rest) =~= sent.push(part) + rest);
                sent = sent.push(part);
            }
            from = from + room;
        }
        let body = slice_subrange(data, from, length);
        let ghost part = Piece { marker: true, prefix: prefix@, body: body@ };
        let ghost before = packets@;
        let packet = self.stream.packet(true, timestamp, &prefix, body);
        packets.push(packet);
        proof {
            lemma_packets_push(start, timestamp, sent, part);
            assert(payloads(packets@) =~= payloads(before).push(packet@));
            assert(body@ =~= data@.skip(from as int));
            assert(whole =~= sent.push(part));
        }
        Ok(packets)
    }
}

/// The media of some pieces, in order.
pub open spec fn joined(pieces: Seq<Piece>) -> Seq<u8>
    decreases pieces.len(),
{
    if pieces.len() == 0 {
        Seq::empty()
    } else {
        pieces.first().body + joined(pieces.drop_first())
    }
}

/// The size a packet's prefix states.
pub open spec fn stated_size(prefix: Seq<u8>) -> int {
    prefix[2] * 32 + prefix[3] as int / 8
}

proof fn lemma_pieces(left: Seq<u8>, prefix: Seq<u8>, room: int)
    requires
        room >= 1,
    ensures
        joined(pieces(left, prefix, room)) == left,
        pieces(left, prefix, room).len() > 0,
        forall|i: int|
            0 <= i < pieces(left, prefix, room).len() ==> {
                let piece = #[trigger] pieces(left, prefix, room)[i];
                &&& piece.marker == (i == pieces(left, prefix, room).len() - 1)
                &&& piece.prefix == prefix
                &&& piece.body.len() <= room
            },
    decreases left.len(),
{
    let all = pieces(left, prefix, room);
    if left.len() <= room {
        assert(all.drop_first() =~= Seq::empty());
        assert(joined(all.drop_first()) =~= Seq::empty());
        assert(joined(all) =~= left);
    } else {
        let rest = pieces(left.skip(room), prefix, room);
        lemma_pieces(left.skip(room), prefix, room);
        assert(all.drop_first() =~= rest);
        assert(joined(all) =~= left);
    }
}

/// The packets of an access unit carry all of it in order, every one states
/// the size of the whole, only the last is marked, and none is larger than the
/// budget allows.
pub proof fn law_frame_comes_back_whole(frame: Seq<u8>, budget: int)
    requires
        frame.len() <= MAX_ACCESS_UNIT,
        budget > PREFIX,
    ensures
        ({
            let all = pieces(frame, size_prefix(frame.len()), budget - PREFIX);
            &&& joined(all) == frame
            &&& all.len() > 0
            &&& forall|i: int|
                0 <= i < all.len() ==> {
                    &&& (#[trigger] all[i]).prefix == size_prefix(frame.len())
                    &&& stated_size(all[i].prefix) == frame.len()
                    &&& all[i].marker == (i == all.len() - 1)
                    &&& (all[i].prefix + all[i].body).len() <= budget
                }
        }),
{
    lemma_pieces(frame, size_prefix(frame.len()), budget - PREFIX);
}

/// What goes in front of an access unit: that sixteen bits of header follow, and
/// in those the unit's size in thirteen bits above three bits of zero. Every
/// packet of it but the last is as long as a packet may be, and a unit that fits
/// one goes in one.
pub proof fn law_headers_state_the_size(frame: Seq<u8>, budget: int, index: int)
    requires
        frame.len() <= 8191,
        budget > 4,
        0 <= index < pieces(frame, size_prefix(frame.len()), budget - PREFIX).len(),
    ensures
        ({
            let all = pieces(frame, size_prefix(frame.len()), budget - PREFIX);
            let payload = all[index].prefix + all[index].body;
            &&& payload[0] == 0 && payload[1] == 16
            &&& payload[2] * 0x100 + payload[3] == frame.len() * 8
            &&& index < all.len() - 1 ==> payload.len() == budget
            &&& frame.len() + 4 <= budget ==> all.len() == 1 && payload.skip(4) == frame
        }),
{
    let room = budget - PREFIX;
    let prefix = size_prefix(frame.len());
    lemma_pieces(frame, prefix, room);
    if index < pieces(frame, prefix, room).len() - 1 {
        lemma_all_but_the_last_are_full(frame, prefix, room, index);
    }
    let piece = pieces(frame, prefix, room)[index];
    assert((piece.prefix + piece.body).skip(4) =~= piece.body);
}

proof fn lemma_all_but_the_last_are_full(left: Seq<u8>, prefix: Seq<u8>, room: int, index: int)
    requires
        room >= 1,
        0 <= index < pieces(left, prefix, room).len() - 1,
    ensures
        pieces(left, prefix, room)[index].body.len() == room,
    decreases left.len(),
{
    if left.len() > room && index > 0 {
        let others = pieces(left.skip(room), prefix, room);
        assert(pieces(left, prefix, room)[index] == others[index - 1]);
        lemma_all_but_the_last_are_full(left.skip(room), prefix, room, index - 1);
    }
}

/// What a receiver has of an access unit after some payloads: what follows the
/// four bytes that each begins with, one after another.
pub open spec fn gathered(payloads: Seq<Seq<u8>>) -> Seq<u8>
    decreases payloads.len(),
{
    if payloads.len() == 0 {
        Seq::empty()
    } else {
        payloads.first().skip(4) + gathered(payloads.drop_first())
    }
}

/// What a receiver makes of the payloads is what the pieces hold.
pub(crate) proof fn lemma_gathered(pieces: Seq<Piece>, payloads: Seq<Seq<u8>>)
    requires
        pieces.len() == payloads.len(),
        forall|i: int|
            0 <= i < pieces.len() ==> (#[trigger] pieces[i]).prefix.len() == 4 && payloads[i]
                == pieces[i].prefix + pieces[i].body,
    ensures
        gathered(payloads) == joined(pieces),
    decreases pieces.len(),
{
    if pieces.len() > 0 {
        let (fewer, rest) = (pieces.drop_first(), payloads.drop_first());
        assert(pieces[0] == pieces.first());
        assert(payloads.first().skip(4) =~= pieces.first().body);
        assert forall|i: int| 0 <= i < fewer.len() implies (#[trigger] fewer[i]).prefix.len() == 4
            && rest[i] == fewer[i].prefix + fewer[i].body by {
            assert(pieces[i + 1] == fewer[i]);
        }
        lemma_gathered(fewer, rest);
    }
}

} // verus!
