//! Where everything stands in a chunk, byte by byte, and what becomes of the chunks
//! that are not as they should be.

use crate::buffer::{be24, le32, lemma_be24, lemma_le32, lemma_widths, num24, num32_le};
use crate::rtmp::chunk::{
    applied, basic_header, basic_header_bytes, cut, message_header, message_header_bytes, reading,
    shortest, step, taken_in, type_of, writing, ChunkError, MessageType, MessageView, ReaderView,
    Reading, State, StepView, WriterView,
};
use vstd::prelude::*;

verus! {

broadcast use lemma_widths;

/// The types of messages by their numbers.
pub proof fn law_types_by_their_numbers(id: u8)
    ensures
        type_of(id) is SetChunkSize <==> id == 1,
        type_of(id) is Abort <==> id == 2,
        type_of(id) is Acknowledgement <==> id == 3,
        type_of(id) is UserControl <==> id == 4,
        type_of(id) is WindowAckSize <==> id == 5,
        type_of(id) is SetPeerBandwidth <==> id == 6,
        type_of(id) is Audio <==> id == 8,
        type_of(id) is Video <==> id == 9,
        type_of(id) is Amf3Data <==> id == 15,
        type_of(id) is Amf3Command <==> id == 17,
        type_of(id) is Amf0Data <==> id == 18,
        type_of(id) is Amf0Command <==> id == 20,
        type_of(id) is Aggregate <==> id == 22,
        type_of(id) matches MessageType::Other(other) ==> other == id,
{
}

/// The first bytes of a chunk: the form of its header in the top two bits, and its
/// chunk stream in the others, or in one byte more where those are zero, or in two,
/// the lowest first, where they are one.
pub proof fn law_chunk_streams_by_their_bytes(s: Seq<u8>)
    requires
        s.len() >= 3,
    ensures
        ({
            let form = (s[0] / 64) as u8;
            &&& s[0] % 64 >= 2 ==> basic_header(s) == Some((form, (s[0] % 64) as u32, 1int))
            &&& s[0] % 64 == 0 ==> basic_header(s) == Some((form, (s[1] + 64) as u32, 2int))
            &&& s[0] % 64 == 1 ==> basic_header(s) == Some(
                (form, (s[1] + s[2] * 256 + 64) as u32, 3int),
            )
        }),
        basic_header(Seq::empty()) is None,
        s[0] % 64 == 0 ==> basic_header(s.take(1)) is None,
        s[0] % 64 == 1 ==> basic_header(s.take(2)) is None,
{
    reveal(basic_header);
}

/// A whole header, of the first form: the time in three bytes, the length in three,
/// the type in one and the stream in four, the lowest of those first. A time of all
/// ones is in the four bytes after them instead.
pub proof fn law_whole_headers_by_their_bytes(last: Option<State>, s: Seq<u8>, at: int)
    requires
        0 <= at,
        at + 15 <= s.len(),
    ensures
        ({
            let time = s[at] * 0x1_0000 + s[at + 1] * 0x100 + s[at + 2];
            let late = s[at + 11] * 0x100_0000 + s[at + 12] * 0x1_0000 + s[at + 13] * 0x100 + s[at
                + 14];
            message_header(0, last, false, s, at) == Some(
                (
                    State {
                        timestamp: (if time == 0xff_ffff {
                            late
                        } else {
                            time
                        }) as u32,
                        delta: 0,
                        length: (s[at + 3] * 0x1_0000 + s[at + 4] * 0x100 + s[at + 5]) as usize,
                        kind: type_of(s[at + 6]),
                        stream_id: (s[at + 7] + s[at + 8] * 0x100 + s[at + 9] * 0x1_0000 + s[at
                            + 10] * 0x100_0000) as u32,
                        extended: time == 0xff_ffff,
                    },
                    at + 11 + if time == 0xff_ffff {
                        4int
                    } else {
                        0
                    },
                ),
            )
        }),
{
}

/// The shorter headers leave out what is as it was: the second the stream, the third
/// the length and the type too, and the fourth everything. What they state of the
/// time is how much later it is than the last, and the fourth says as much later
/// again, unless it goes on with a message that has begun.
pub proof fn law_shorter_headers_go_on_from_the_last(last: State, s: Seq<u8>, at: int)
    requires
        0 <= at,
        at + 7 <= s.len(),
        s[at] * 0x1_0000 + s[at + 1] * 0x100 + s[at + 2] != 0xff_ffff,
        !last.extended,
    ensures
        ({
            let delta = (s[at] * 0x1_0000 + s[at + 1] * 0x100 + s[at + 2]) as u32;
            let timestamp = ((last.timestamp + delta) % 0x1_0000_0000) as u32;
            let again = ((last.timestamp + last.delta) % 0x1_0000_0000) as u32;
            &&& message_header(1, Some(last), false, s, at) == Some(
                (
                    State {
                        timestamp,
                        delta,
                        length: (s[at + 3] * 0x1_0000 + s[at + 4] * 0x100 + s[at + 5]) as usize,
                        kind: type_of(s[at + 6]),
                        stream_id: last.stream_id,
                        extended: false,
                    },
                    at + 7,
                ),
            )
            &&& message_header(2, Some(last), false, s, at) == Some(
                (State { timestamp, delta, ..last }, at + 3),
            )
            &&& message_header(3, Some(last), false, s, at) == Some(
                (State { timestamp: again, ..last }, at),
            )
            &&& message_header(3, Some(last), true, s, at) == Some((last, at))
        }),
{
}

/// A time that does not fit three bytes is in four more after the header, in every
/// form: the fourth has them where the last header on its stream did.
pub proof fn law_long_times_follow_the_header(last: State, s: Seq<u8>, at: int)
    requires
        0 <= at,
        at + 11 <= s.len(),
    ensures
        ({
            let long = s[at] == 0xff && s[at + 1] == 0xff && s[at + 2] == 0xff;
            let second = s[at + 7] * 0x100_0000 + s[at + 8] * 0x1_0000 + s[at + 9] * 0x100 + s[at
                + 10];
            let third = s[at + 3] * 0x100_0000 + s[at + 4] * 0x1_0000 + s[at + 5] * 0x100 + s[at
                + 6];
            &&& long ==> (message_header(1, Some(last), false, s, at) matches Some((state, body))
                && state.delta == second && state.extended && body == at + 11)
            &&& long ==> (message_header(2, Some(last), false, s, at) matches Some((state, body))
                && state.delta == third && state.extended && body == at + 7)
            &&& last.extended ==> (message_header(3, Some(last), false, s, at) matches Some(
                (state, body),
            ) && state.delta == last.delta && body == at + 4)
        }),
{
}

/// A message is written with the shortest header that says it: the whole one where
/// it is the first on its chunk stream, is of another stream or goes back in time;
/// otherwise one without the stream, without the length and type where those are as
/// they were, and with nothing at all where it comes as much later as the last did.
pub proof fn law_headers_are_as_short_as_can_be(w: WriterView, csid: u32, message: MessageView)
    requires
        2 <= csid <= 63,
    ensures
        ({
            let form = writing(w, csid, message)[0] / 64;
            let later = message.timestamp - w.streams[csid].timestamp;
            &&& writing(w, csid, message)[0] % 64 == csid
            &&& !w.streams.contains_key(csid) ==> form == 0
            &&& w.streams.contains_key(csid) ==> {
                let last = w.streams[csid];
                let same = last.length == message.payload.len() && last.kind == message.kind;
                let again = last.delta == later && last.extended == (later >= 0xff_ffff);
                &&& last.stream_id != message.stream_id || later < 0 ==> form == 0
                &&& last.stream_id == message.stream_id && later >= 0 ==> form == if !same {
                    1int
                } else if !again {
                    2
                } else {
                    3
                }
            }
        }),
{
    reveal(basic_header_bytes);
    let (form, written) = shortest(w.last(csid), message);
    let head = basic_header_bytes(form, csid);
    assert(writing(w, csid, message)[0] == head[0]);
}

/// The first message on a chunk stream, byte by byte, and that it is cut where the
/// chunk size says.
pub proof fn law_first_messages_are_written_out(w: WriterView, csid: u32, message: MessageView)
    requires
        2 <= csid <= 63,
        !w.streams.contains_key(csid),
        message.timestamp < 0xff_ffff,
        message.payload.len() <= 0xff_ffff,
        1 <= w.chunk_size,
    ensures
        ({
            let s = writing(w, csid, message);
            &&& s[0] == csid
            &&& s[1] * 0x1_0000 + s[2] * 0x100 + s[3] == message.timestamp
            &&& s[4] * 0x1_0000 + s[5] * 0x100 + s[6] == message.payload.len()
            &&& s[7] == message.kind.spec_id()
            &&& s[8] + s[9] * 0x100 + s[10] * 0x1_0000 + s[11] * 0x100_0000 == message.stream_id
            &&& message.payload.len() <= w.chunk_size ==> s.skip(12) == message.payload
            &&& message.payload.len() > w.chunk_size ==> {
                &&& s.subrange(12, 12 + w.chunk_size as int) == message.payload.take(
                    w.chunk_size as int,
                )
                &&& s[12 + w.chunk_size as int] == 0xc0 + csid
            }
        }),
{
    let s = writing(w, csid, message);
    let head = basic_header_bytes(0, csid) + message_header_bytes(0, message.timestamp, message);
    let chunks = cut(message.payload, w.chunk_size, csid, Seq::empty());
    lemma_whole_header(csid, message);
    assert(s =~= head + chunks);
    assert(forall|i: int| 0 <= i < 12 ==> s[i] == head[i]);
    assert(s.skip(12) =~= chunks);
    if message.payload.len() > w.chunk_size {
        let size = w.chunk_size as int;
        lemma_repeat(csid);
        assert(chunks.take(size) =~= message.payload.take(size));
        assert(s.subrange(12, 12 + size) =~= chunks.take(size));
        assert(s[12 + size] == chunks[size]);
        assert(chunks[size] == basic_header_bytes(3, csid)[0]);
    }
}

proof fn lemma_repeat(csid: u32)
    requires
        2 <= csid <= 63,
    ensures
        basic_header_bytes(3, csid).len() == 1,
        basic_header_bytes(3, csid)[0] == 0xc0 + csid,
{
    reveal(basic_header_bytes);
}

proof fn lemma_whole_header(csid: u32, message: MessageView)
    requires
        2 <= csid <= 63,
        message.timestamp < 0xff_ffff,
        message.payload.len() <= 0xff_ffff,
    ensures
        ({
            let head = basic_header_bytes(0, csid) + message_header_bytes(
                0,
                message.timestamp,
                message,
            );
            &&& head.len() == 12
            &&& head[0] == csid
            &&& head[1] * 0x1_0000 + head[2] * 0x100 + head[3] == message.timestamp
            &&& head[4] * 0x1_0000 + head[5] * 0x100 + head[6] == message.payload.len()
            &&& head[7] == message.kind.spec_id()
            &&& head[8] + head[9] * 0x100 + head[10] * 0x1_0000 + head[11] * 0x100_0000
                == message.stream_id
        }),
{
    reveal(basic_header_bytes);
    let n = message.payload.len() as int;
    let (time, stream) = (message.timestamp as int, message.stream_id as int);
    let first = basic_header_bytes(0, csid);
    let (before, after) = (be24(time), le32(stream));
    let middle = be24(n).push(message.kind.spec_id());
    let head = first + message_header_bytes(0, message.timestamp, message);
    assert(head =~= first + before + middle + after);
    assert(head[1] == before[0] && head[2] == before[1] && head[3] == before[2]);
    assert(head[4] == middle[0] && head[5] == middle[1] && head[6] == middle[2]);
    assert(head[8] == after[0] && head[9] == after[1] && head[10] == after[2] && head[11]
        == after[3]);
    lemma_be24(time);
    lemma_be24(n);
    assert(num24(before, 0) == time && num24(be24(n), 0) == n);
    lemma_le32(stream);
    assert(num32_le(after, 0) == stream);
}

/// What a chunk whose beginning cannot be right is refused as, with nothing read: a
/// short header on a chunk stream that has had none, a chunk stream more than
/// sixty-four, and a new message on one that has another unfinished.
pub proof fn law_chunks_that_cannot_be_are_refused(r: ReaderView, s: Seq<u8>)
    requires
        s.len() >= 1,
        s[0] % 64 >= 2,
    ensures
        ({
            let (form, csid) = ((s[0] / 64) as u8, (s[0] % 64) as u32);
            let known = r.streams.contains_key(csid);
            let pending = r.streams[csid].pending.len();
            &&& !known && form != 0 ==> reading(r, s) == (Reading {
                outcome: Err(ChunkError::NothingToInherit { csid, fmt: form }),
                reader: r,
                rest: s,
            })
            &&& !known && form == 0 && r.streams.len() >= 64 ==> reading(r, s) == (Reading {
                outcome: Err(ChunkError::TooManyChunkStreams),
                reader: r,
                rest: s,
            })
            &&& known && form != 3 && pending > 0 ==> reading(r, s) == (Reading {
                outcome: Err(ChunkError::Interleaved { csid, pending: pending as usize }),
                reader: r,
                rest: s,
            })
        }),
{
    reveal(basic_header);
    reveal(step);
}

/// A message that says it is longer than eight mebibytes is refused before any of
/// it is kept, and one that says it is that long is not.
pub proof fn law_messages_too_long_are_refused(r: ReaderView, s: Seq<u8>)
    requires
        r.wf(),
        s.len() >= 16,
        2 <= s[0] < 64,
        r.streams.contains_key(s[0] as u32) ==> r.streams[s[0] as u32].pending.len() == 0,
        !r.streams.contains_key(s[0] as u32) ==> r.streams.len() < 64,
    ensures
        ({
            let length = s[4] * 0x1_0000 + s[5] * 0x100 + s[6];
            &&& length > 8_388_608 ==> reading(r, s) == (Reading {
                outcome: Err(
                    ChunkError::MessageTooLong { length: length as usize, limit: 8_388_608 },
                ),
                reader: r,
                rest: s,
            })
            &&& length <= 8_388_608 ==> !(step(r, s).outcome matches Err(error)
                && error is MessageTooLong)
        }),
{
    reveal(basic_header);
    reveal(step);
    reveal(taken_in);
    reveal(applied);
    law_whole_headers_by_their_bytes(r.last(s[0] as u32), s, 1);
}

/// What the messages about the chunks themselves do: the size is what four bytes say
/// under a bit that is nothing, from one up to what three bytes hold; what has come
/// of the message on a chunk stream is forgotten; and no other message does anything
/// to the reader.
pub proof fn law_control_messages_take_effect(r: ReaderView, message: MessageView)
    ensures
        ({
            let payload = message.payload;
            let number = payload[0] * 0x100_0000 + payload[1] * 0x1_0000 + payload[2] * 0x100
                + payload[3];
            let size = number % 0x8000_0000;
            &&& message.kind is SetChunkSize && payload.len() == 4 ==> applied(r, message) == (
            if 1 <= size <= 0xff_ffff {
                Ok(ReaderView { chunk_size: size as nat, ..r })
            } else {
                Err(ChunkError::InvalidChunkSize(size as u32))
            })
            &&& message.kind is SetChunkSize && payload.len() != 4 ==> applied(r, message) == Err::<
                ReaderView,
                _,
            >(
                ChunkError::MalformedControl {
                    kind: "set chunk size",
                    length: payload.len() as usize,
                },
            )
            &&& message.kind is Abort && payload.len() != 4 ==> applied(r, message) == Err::<
                ReaderView,
                _,
            >(ChunkError::MalformedControl { kind: "abort", length: payload.len() as usize })
            &&& message.kind is Abort && payload.len() == 4 ==> (applied(r, message) matches Ok(
                after,
            ) && {
                &&& after.chunk_size == r.chunk_size
                &&& after.streams.dom() == r.streams.dom()
                &&& after.pending(number as u32).len() == 0
                &&& after.last(number as u32) == r.last(number as u32)
                &&& forall|csid: u32|
                    csid != number && r.streams.contains_key(csid)
                        ==> #[trigger] after.streams[csid] == r.streams[csid]
            })
            &&& !(message.kind is SetChunkSize) && !(message.kind is Abort) ==> applied(r, message)
                == Ok::<_, ChunkError>(r)
        }),
{
    reveal(applied);
    if message.kind is Abort && message.payload.len() == 4 {
        let after = applied(r, message)->Ok_0;
        assert(after.streams.dom() =~= r.streams.dom());
    }
}

/// A chunk that is not the last of its message is kept behind what came before of it,
/// and touches no other chunk stream.
pub proof fn law_chunk_streams_are_apart(r: ReaderView, s: Seq<u8>, other: u32)
    requires
        r.wf(),
        step(r, s).outcome matches Ok(StepView::Absorbed),
        s.len() >= 1,
        s[0] % 64 >= 2,
        s[0] % 64 != other,
    ensures
        ({
            let (after, csid) = (step(r, s).reader, (s[0] % 64) as u32);
            &&& after.streams.contains_key(other) == r.streams.contains_key(other)
            &&& r.streams.contains_key(other) ==> after.streams[other] == r.streams[other]
            &&& after.chunk_size == r.chunk_size
            &&& after.streams.contains_key(csid)
            &&& after.pending(csid).len() == r.pending(csid).len() + r.chunk_size
            &&& after.pending(csid).take(r.pending(csid).len() as int) == r.pending(csid)
            &&& after.pending(csid).skip(r.pending(csid).len() as int) == s.take(
                s.len() - step(r, s).rest.len(),
            ).skip(s.len() - step(r, s).rest.len() - r.chunk_size)
        }),
{
    reveal(basic_header);
    reveal(step);
    reveal(taken_in);
    reveal(applied);
    let csid = (s[0] % 64) as u32;
    let fmt = (s[0] / 64) as u8;
    let (state, body) = message_header(fmt, r.last(csid), r.pending(csid).len() > 0, s, 1)->0;
    let end = body + r.chunk_size;
    let (after, gathered) = (step(r, s).reader, r.pending(csid) + s.subrange(body, end));
    assert(after.pending(csid) =~= gathered);
    assert(gathered.take(r.pending(csid).len() as int) =~= r.pending(csid));
    assert(gathered.skip(r.pending(csid).len() as int) =~= s.subrange(body, end));
    assert(s.len() - step(r, s).rest.len() == end);
    assert(s.take(end).skip(body) =~= s.subrange(body, end));
}

} // verus!
