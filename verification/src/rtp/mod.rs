//! Cutting media into packets small enough to cross a network.
//!
//! RTSP carries media as RTP: an access unit is one logical thing but can be a
//! hundred kilobytes, and a packet cannot be. So each one is cut up, and the
//! rules for cutting differ per codec, which is why there is a module here
//! per codec, the way there is under [`crate::codec`].
//!
//! # What every packet looks like
//!
//! ```text
//! 0                   1                   2                   3
//! |V=2|P|X|  CC  |M|      PT     |       sequence number         |
//! |                           timestamp                          |
//! |                             SSRC                             |
//! |                           payload …                          |
//! ```
//!
//! Twelve bytes, then the payload. Of the header fields only four are ever
//! anything but zero here, and three of them are bookkeeping:
//!
//! - **sequence number** counts packets, so a receiver can put them back in
//!   order and notice a gap. It wraps at 16 bits and that is expected.
//! - **timestamp** says when the media belongs, counted in the track's own
//!   clock: 90 kHz for H.264, the sample rate for AAC. Every packet of one
//!   access unit carries the same one, which is how a receiver knows they
//!   belong together.
//! - **SSRC** names the stream. One per track, so a receiver told about two
//!   tracks can tell their packets apart on one socket.
//! - **marker** is the only one that means something per codec. Here it says
//!   "this packet completes an access unit", which is what lets a receiver
//!   hand one to a decoder without waiting to see whether more is coming.

use crate::buffer::{
    be16, be32, get_u16, get_u32, lemma_num16_amid, lemma_num32_amid, lemma_widths, num16, num32,
    put_slice, put_u16, put_u32, put_u8, Contents,
};
use crate::splitmix::{scramble, scrambled};
use crate::time::{MediaTime, END_OF_TIME};
use bytes::{Bytes, BytesMut};
use vstd::prelude::*;
use vstd::slice::slice_subrange;

pub mod aac;
pub mod h264;
pub mod payload_type;

verus! {

broadcast use lemma_widths;

/// The fixed part of an RTP header, which is all of it this writes.
pub const HEADER_SIZE: usize = 12;

/// How large a packet may be, header included.
///
/// Below the 1500 an Ethernet frame holds, with room for the IP and UDP
/// headers under it and a little more besides: a packet that has to be
/// fragmented by the network is a packet that is lost whole when any of its
/// fragments is.
pub const MTU: usize = 1400;

/// What can be wrong with something being packetized.
#[derive(Debug, PartialEq, Eq)]
pub enum RtpError {
    /// An AAC access unit longer than the thirteen bits its size is written
    /// in. At any bitrate anybody sends, a frame is a few hundred bytes.
    AccessUnitTooLong { length: usize, limit: usize },
    /// A packet size with no room for a payload after the headers.
    MtuTooSmall(usize),
}

/// One track's outgoing RTP stream: what a receiver needs to keep the
/// packets of it apart from every other's, and in order.
///
/// One per track. Two tracks sharing a sequence number space would look to a
/// receiver like one stream with half its packets missing.
#[derive(Debug)]
pub struct Stream {
    ssrc: u32,
    payload_type: u8,
    clock_rate: u32,
    sequence: u16,
    /// What the first packet's timestamp is counted from.
    ///
    /// Not zero, because a receiver is not supposed to be able to tell where
    /// a stream started from its timestamps, and because a stream that
    /// resumes after an interruption should not appear to go back in time.
    /// The value itself means nothing; only the differences do.
    origin: u32,
    mtu: usize,
}

/// What a [`Stream`] is.
pub struct StreamView {
    pub ssrc: u32,
    pub payload_type: u8,
    pub clock_rate: u32,
    /// The next packet's sequence number.
    pub sequence: u16,
    /// What the first packet's timestamp is counted from.
    pub origin: u32,
    pub mtu: nat,
}

impl View for Stream {
    type V = StreamView;

    closed spec fn view(&self) -> StreamView {
        StreamView {
            ssrc: self.ssrc,
            payload_type: self.payload_type,
            clock_rate: self.clock_rate,
            sequence: self.sequence,
            origin: self.origin,
            mtu: self.mtu as nat,
        }
    }
}

impl Clone for Stream {
    fn clone(&self) -> (copy: Self)
        ensures
            copy@ == self@,
    {
        Self {
            ssrc: self.ssrc,
            payload_type: self.payload_type,
            clock_rate: self.clock_rate,
            sequence: self.sequence,
            origin: self.origin,
            mtu: self.mtu,
        }
    }
}

impl StreamView {
    /// How many bytes of payload a packet has room for.
    pub open spec fn budget(self) -> int {
        self.mtu - HEADER_SIZE
    }

    /// The timestamp a moment in the stream, in nanoseconds, is written as.
    pub open spec fn timestamp(self, nanos: nat) -> u32 {
        ((self.origin + (nanos * self.clock_rate) as nat / 1_000_000_000) % 0x1_0000_0000) as u32
    }

    /// The stream after some packets more.
    pub open spec fn advanced(self, count: nat) -> StreamView {
        StreamView { sequence: ((self.sequence + count) % 0x1_0000) as u16, ..self }
    }
}

/// The stream an SSRC, a payload type and a clock rate make.
pub open spec fn fresh_stream(ssrc: u32, payload_type: u8, clock_rate: u32) -> StreamView {
    let mixed = scrambled(ssrc as u64);
    StreamView {
        ssrc,
        payload_type,
        clock_rate,
        sequence: (mixed % 0x1_0000) as u16,
        origin: (mixed / 0x1_0000 % 0x1_0000_0000) as u32,
        mtu: MTU as nat,
    }
}

/// What goes in one packet: whether it completes an access unit, what the
/// codec puts in front, and the media after it.
pub struct Piece {
    pub marker: bool,
    pub prefix: Seq<u8>,
    pub body: Seq<u8>,
}

/// One packet of a stream.
pub open spec fn packet_bytes(stream: StreamView, timestamp: u32, piece: Piece) -> Seq<u8> {
    let marked = if piece.marker {
        0x80u8
    } else {
        0u8
    };
    seq![0x80u8, marked | stream.payload_type] + be16(stream.sequence as int) + be32(
        timestamp as int,
    ) + be32(stream.ssrc as int) + piece.prefix + piece.body
}

/// The packets of a stream that carry some pieces, one each, all of one
/// moment.
pub open spec fn packets_of(stream: StreamView, timestamp: u32, pieces: Seq<Piece>) -> Seq<Seq<u8>> {
    pieces.map(
        |index: int, piece: Piece| packet_bytes(stream.advanced(index as nat), timestamp, piece),
    )
}

/// The bytes of each packet of a list.
pub open spec fn payloads(packets: Seq<Bytes>) -> Seq<Seq<u8>> {
    packets.map_values(|packet: Bytes| packet@)
}

impl Stream {
    /// Whether a packet has room for a payload.
    pub open spec fn wf(&self) -> bool {
        self@.mtu > HEADER_SIZE
    }

    /// A stream identified by `ssrc`, counting in `clock_rate` ticks.
    ///
    /// The first sequence number and timestamp are derived from the SSRC, so
    /// that two streams started at the same moment do not agree about
    /// either. Nothing here has to be unpredictable, only different.
    pub fn new(ssrc: u32, payload_type: u8, clock_rate: u32) -> (stream: Self)
        ensures
            stream@ == fresh_stream(ssrc, payload_type, clock_rate),
            stream.wf(),
    {
        let mixed: u64 = scramble(ssrc as u64);
        Self {
            ssrc,
            payload_type,
            clock_rate,
            sequence: (mixed % 0x1_0000) as u16,
            origin: (mixed / 0x1_0000 % 0x1_0000_0000) as u32,
            mtu: MTU,
        }
    }

    /// Sets how large a packet may be, header included.
    pub fn with_mtu(self, mtu: usize) -> (outcome: Result<Self, RtpError>)
        ensures
            outcome is Ok <==> mtu > HEADER_SIZE,
            outcome matches Ok(stream) ==> stream.wf() && stream@ == (StreamView {
                mtu: mtu as nat,
                ..self@
            }),
            outcome matches Err(error) ==> error == RtpError::MtuTooSmall(mtu),
    {
        if mtu <= HEADER_SIZE {
            return Err(RtpError::MtuTooSmall(mtu));
        }
        Ok(Self { mtu, ..self })
    }

    /// Which stream this is, as its packets say.
    pub fn ssrc(&self) -> (ssrc: u32)
        ensures
            ssrc == self@.ssrc,
    {
        self.ssrc
    }

    /// What its packets are, as the SDP has to say.
    pub fn payload_type(&self) -> (payload_type: u8)
        ensures
            payload_type == self@.payload_type,
    {
        self.payload_type
    }

    /// The clock its timestamps count in.
    pub fn clock_rate(&self) -> (clock_rate: u32)
        ensures
            clock_rate == self@.clock_rate,
    {
        self.clock_rate
    }

    /// How many bytes of payload a packet has room for.
    fn budget(&self) -> (budget: usize)
        requires
            self.wf(),
        ensures
            budget == self@.budget(),
    {
        self.mtu - HEADER_SIZE
    }

    /// The timestamp a moment in the stream is written as.
    ///
    /// Wraps at 32 bits, which every receiver expects: at 90 kHz that is
    /// thirteen and a half hours, and a stream that runs longer has not
    /// started again.
    pub fn timestamp(&self, at: MediaTime) -> (timestamp: u32)
        ensures
            timestamp == self@.timestamp(at@),
    {
        // In 128 bits because nanoseconds times a sample rate overflows 64
        // after a few years, and a stream is allowed to run that long.
        let nanos: u128 = at.as_nanos();
        let rate: u128 = self.clock_rate as u128;
        assert(nanos * rate <= u128::MAX) by (nonlinear_arith)
            requires
                nanos < END_OF_TIME,
                rate <= 0xffff_ffff,
        ;
        let ticks: u128 = nanos * rate / 1_000_000_000;
        let low: u32 = (ticks % 0x1_0000_0000) as u32;
        self.origin.wrapping_add(low)
    }

    /// Builds one packet out of a prefix the codec added and the media after
    /// it.
    pub fn packet(&mut self, marker: bool, timestamp: u32, prefix: &[u8], body: &[u8]) -> (packet:
        Bytes)
        ensures
            packet@ == packet_bytes(
                old(self)@,
                timestamp,
                Piece { marker, prefix: prefix@, body: body@ },
            ),
            final(self)@ == old(self)@.advanced(1),
    {
        let marked: u8 = if marker {
            0x80
        } else {
            0
        };
        let mut out = BytesMut::new();
        // Version 2, no padding, no extension, no contributing sources.
        put_u8(&mut out, 0x80);
        put_u8(&mut out, marked | self.payload_type);
        assert(out@ =~= seq![0x80u8, marked | self.payload_type]);
        put_u16(&mut out, self.sequence);
        put_u32(&mut out, timestamp);
        put_u32(&mut out, self.ssrc);
        put_slice(&mut out, prefix);
        put_slice(&mut out, body);
        self.sequence = self.sequence.wrapping_add(1);
        out.freeze()
    }
}

/// What a packet says about itself, for anything that has to look at one it
/// did not write.
#[derive(Clone, Copy, Debug, PartialEq, Eq)]
pub struct Header {
    pub marker: bool,
    pub payload_type: u8,
    pub sequence: u16,
    pub timestamp: u32,
    pub ssrc: u32,
}

/// What the fixed header at the front of a packet says.
pub open spec fn header_of(s: Seq<u8>) -> Header {
    Header {
        marker: s[1] >= 0x80,
        payload_type: s[1] % 0x80,
        sequence: num16(s, 2) as u16,
        timestamp: num32(s, 4) as u32,
        ssrc: num32(s, 8) as u32,
    }
}

impl Header {
    /// Reads the fixed header, or `None` if there is not one there.
    ///
    /// Only the fixed part: a packet with contributing sources or an
    /// extension has more in front of its payload, and nothing here writes
    /// one.
    pub fn parse(packet: &[u8]) -> (header: Option<(Self, &[u8])>)
        ensures
            header is Some <==> packet@.len() >= HEADER_SIZE,
            header matches Some((header, payload)) ==> header == header_of(packet@) && payload@
                == packet@.skip(HEADER_SIZE as int),
    {
        if packet.len() < HEADER_SIZE {
            return None;
        }
        let header = Self {
            marker: packet[1] >= 0x80,
            payload_type: packet[1] % 0x80,
            sequence: get_u16(packet, 2),
            timestamp: get_u32(packet, 4),
            ssrc: get_u32(packet, 8),
        };
        let payload = slice_subrange(packet, HEADER_SIZE, packet.len());
        assert(payload@ =~= packet@.skip(HEADER_SIZE as int));
        Some((header, payload))
    }
}

/// A packet's header says what the packet was built with, and its payload is
/// what was put in it.
pub proof fn law_header_reads_back(stream: StreamView, timestamp: u32, piece: Piece)
    requires
        stream.payload_type < 0x80,
    ensures
        ({
            let packet = packet_bytes(stream, timestamp, piece);
            &&& header_of(packet) == (Header {
                marker: piece.marker,
                payload_type: stream.payload_type,
                sequence: stream.sequence,
                timestamp,
                ssrc: stream.ssrc,
            })
            &&& packet[0] == 0x80
            &&& packet.skip(HEADER_SIZE as int) == piece.prefix + piece.body
            &&& packet.len() == HEADER_SIZE + piece.prefix.len() + piece.body.len()
        }),
{
    let packet = packet_bytes(stream, timestamp, piece);
    let kind = stream.payload_type;
    assert((0x80u8 | kind) == 0x80 + kind && (0u8 | kind) == kind) by (bit_vector)
        requires
            kind < 0x80,
    ;
    let marked = if piece.marker {
        0x80u8
    } else {
        0u8
    };
    let head = seq![0x80u8, marked | kind];
    let (sequence, moment, source) = (
        be16(stream.sequence as int),
        be32(timestamp as int),
        be32(stream.ssrc as int),
    );
    let rest = piece.prefix + piece.body;
    lemma_num16_amid(head, stream.sequence as int, moment + source + rest);
    assert(packet =~= head + sequence + (moment + source + rest));
    lemma_num32_amid(head + sequence, timestamp as int, source + rest);
    assert(packet =~= head + sequence + moment + (source + rest));
    lemma_num32_amid(head + sequence + moment, stream.ssrc as int, rest);
    assert(packet =~= head + sequence + moment + source + rest);
    assert(packet.skip(HEADER_SIZE as int) =~= rest);
    assert(packet[0] == head[0] && packet[1] == head[1]);
}

/// The packets of one access unit are numbered one after another, wrapping at
/// sixteen bits, and all say the same moment.
pub proof fn law_packets_count_up(
    stream: StreamView,
    timestamp: u32,
    pieces: Seq<Piece>,
    index: int,
)
    requires
        stream.payload_type < 0x80,
        0 <= index < pieces.len(),
    ensures
        ({
            let header = header_of(packets_of(stream, timestamp, pieces)[index]);
            &&& header.sequence == (stream.sequence + index) % 0x1_0000
            &&& header.timestamp == timestamp
            &&& header.ssrc == stream.ssrc
            &&& header.marker == pieces[index].marker
        }),
{
    law_header_reads_back(stream.advanced(index as nat), timestamp, pieces[index]);
}

/// Moments some seconds apart are that many clock rates apart, on a counter
/// that wraps at 32 bits.
pub proof fn law_timestamps_count_in_the_tracks_clock(stream: StreamView, nanos: nat, secs: nat)
    ensures
        stream.timestamp(nanos + secs * 1_000_000_000) == (stream.timestamp(nanos) + secs
            * stream.clock_rate) % 0x1_0000_0000,
        stream.timestamp(0) == stream.origin,
{
    let rate = stream.clock_rate as int;
    let ticks = nanos * rate / 1_000_000_000;
    assert((nanos + secs * 1_000_000_000) * rate == nanos * rate + 1_000_000_000 * (secs * rate))
        by (nonlinear_arith);
    assert(nanos * rate >= 0 && secs * rate >= 0) by (nonlinear_arith)
        requires
            rate >= 0,
    ;
    let later = (nanos + secs * 1_000_000_000) * rate / 1_000_000_000;
    let whole = nanos * rate;
    let more = secs * rate;
    assert((whole + 1_000_000_000 * more) / 1_000_000_000 == whole / 1_000_000_000 + more);
    assert(later == ticks + more);
    assert(0 * rate == 0) by (nonlinear_arith);
}

/// Pieces taken in turn give the packets of the pieces so far.
pub(crate) proof fn lemma_packets_push(
    stream: StreamView,
    timestamp: u32,
    pieces: Seq<Piece>,
    piece: Piece,
)
    ensures
        packets_of(stream, timestamp, pieces.push(piece)) == packets_of(
            stream,
            timestamp,
            pieces,
        ).push(packet_bytes(stream.advanced(pieces.len()), timestamp, piece)),
        stream.advanced(pieces.len()).advanced(1) == stream.advanced(pieces.push(piece).len()),
{
    assert(packets_of(stream, timestamp, pieces.push(piece)) =~= packets_of(
        stream,
        timestamp,
        pieces,
    ).push(packet_bytes(stream.advanced(pieces.len()), timestamp, piece)));
}

/// A moment is written as the whole ticks of the track's clock that have gone by
/// since the stream began, counted from the stream's origin and wrapping at 32
/// bits: as many as fit in the time, and one more would not.
pub proof fn law_timestamps_are_whole_ticks(stream: StreamView, nanos: nat, ticks: nat)
    requires
        ticks * 1_000_000_000 <= nanos * stream.clock_rate < (ticks + 1) * 1_000_000_000,
    ensures
        stream.timestamp(nanos) == (stream.origin + ticks) % 0x1_0000_0000,
{
    let elapsed = nanos * stream.clock_rate;
    assert(elapsed >= 0) by (nonlinear_arith)
        requires
            elapsed == nanos * stream.clock_rate,
    ;
    assert(elapsed / 1_000_000_000 == ticks);
}

/// Where each field of a packet stands: a version and nothing else in the first
/// byte, the marker above the payload type in the second, and then the sequence
/// number, the timestamp and the source, each the highest byte first, in front
/// of what the packet carries.
pub proof fn law_packet_layout(stream: StreamView, timestamp: u32, piece: Piece)
    requires
        stream.payload_type < 0x80,
    ensures
        ({
            let p = packet_bytes(stream, timestamp, piece);
            &&& p.len() == 12 + piece.prefix.len() + piece.body.len()
            &&& p[0] == 0x80
            &&& p[1] == stream.payload_type + if piece.marker {
                0x80int
            } else {
                0
            }
            &&& p[2] * 0x100 + p[3] == stream.sequence
            &&& p[4] * 0x100_0000 + p[5] * 0x1_0000 + p[6] * 0x100 + p[7] == timestamp
            &&& p[8] * 0x100_0000 + p[9] * 0x1_0000 + p[10] * 0x100 + p[11] == stream.ssrc
            &&& p.skip(12) == piece.prefix + piece.body
        }),
{
    law_header_reads_back(stream, timestamp, piece);
    let p = packet_bytes(stream, timestamp, piece);
    assert(num16(p, 2) <= 0xffff && num32(p, 4) <= 0xffff_ffff && num32(p, 8) <= 0xffff_ffff);
}

/// What a header says is what stands in those places, whoever wrote the packet.
pub proof fn law_header_says_what_stands_there(p: Seq<u8>)
    requires
        p.len() >= 12,
    ensures
        ({
            let header = header_of(p);
            &&& header.marker == (p[1] >= 0x80)
            &&& header.payload_type == if p[1] >= 0x80 {
                p[1] - 0x80
            } else {
                p[1] as int
            }
            &&& header.sequence == p[2] * 0x100 + p[3]
            &&& header.timestamp == p[4] * 0x100_0000 + p[5] * 0x1_0000 + p[6] * 0x100 + p[7]
            &&& header.ssrc == p[8] * 0x100_0000 + p[9] * 0x1_0000 + p[10] * 0x100 + p[11]
        }),
{
    assert(num16(p, 2) <= 0xffff && num32(p, 4) <= 0xffff_ffff && num32(p, 8) <= 0xffff_ffff);
}

/// A stream is what it was made as, and its sequence numbers and its origin are
/// different bits of one number that only its source decides.
pub proof fn law_streams_begin_as_they_are_made(ssrc: u32, payload_type: u8, clock_rate: u32)
    ensures
        ({
            let stream = fresh_stream(ssrc, payload_type, clock_rate);
            &&& stream.ssrc == ssrc && stream.payload_type == payload_type
            &&& stream.clock_rate == clock_rate
            &&& stream.mtu == 1400 && stream.budget() == 1388
            &&& stream.sequence + stream.origin * 0x1_0000 == scrambled(ssrc as u64)
                % 0x1_0000_0000_0000
        }),
{
}

} // verus!
