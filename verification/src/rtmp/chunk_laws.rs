//! What holds of a [`Writer`](crate::rtmp::chunk::Writer) and a
//! [`Reader`](crate::rtmp::chunk::Reader) together: what one side leaves out,
//! the other puts back.

use crate::buffer::{be24, le16, le32, lemma_num24_amid, lemma_num32_amid, lemma_widths, num24, num32};
use crate::rtmp::chunk::{
    after_writing, applied, basic_header, basic_header_bytes, chunk_length, cut, extended_bytes,
    finished, headed, header_width, is_extended, message_header, message_header_bytes, reading,
    remembered, shortest, step, taken_in, type_of, writing, ChunkError, MessageType, MessageView,
    Reading, ReaderView, State, StepView, Stepped, StreamView, WriterView, EXTENDED_TIMESTAMP,
    MAX_ASSEMBLED_LENGTH, MAX_CHUNK_SIZE, MAX_CHUNK_STREAMS,
};
use vstd::prelude::*;

verus! {

broadcast use lemma_widths;

/// Every type id names a type, and the type stands for the id.
pub proof fn law_type_ids_round_trip(id: u8)
    ensures
        type_of(id).spec_id() == id,
        type_of(id).canonical(),
{
}

/// Whether a reader has read everything a writer has written, and nothing
/// else: both remember the same of the same chunk streams.
pub open spec fn in_step(w: WriterView, r: ReaderView) -> bool {
    &&& r.chunk_size == w.chunk_size
    &&& r.streams.dom() == w.streams.dom()
    &&& forall|csid: u32| #[trigger]
        r.streams.contains_key(csid) ==> r.streams[csid] == (StreamView {
            state: w.streams[csid],
            pending: Seq::empty(),
        })
}

/// Whether a message that reconfigures the chunk stream is one that can.
pub open spec fn sound_control(message: MessageView) -> bool {
    &&& message.kind == MessageType::SetChunkSize ==> {
        &&& message.payload.len() == 4
        &&& 1 <= num32(message.payload, 0) % 0x8000_0000 <= MAX_CHUNK_SIZE
    }
    &&& message.kind == MessageType::Abort ==> message.payload.len() == 4
}

/// The writer whose caller, having sent a `SetChunkSize`, does what it said.
pub open spec fn told(w: WriterView, message: MessageView) -> WriterView {
    if message.kind == MessageType::SetChunkSize {
        WriterView { chunk_size: (num32(message.payload, 0) % 0x8000_0000) as nat, ..w }
    } else {
        w
    }
}

/// A written message reads back whole, whatever follows it, and leaves reader
/// and writer in step for the next one.
///
/// What is asked of the message is that the reader assembles one so long, that
/// its type is not an unnamed one holding a named one's id, and, if it is one
/// that reconfigures the chunk stream, that it makes sense.
pub proof fn law_written_message_reads_back(
    w: WriterView,
    r: ReaderView,
    csid: u32,
    message: MessageView,
    rest: Seq<u8>,
)
    requires
        r.wf(),
        in_step(w, r),
        2 <= csid <= 65_599,
        w.streams.contains_key(csid) || w.streams.len() < MAX_CHUNK_STREAMS,
        message.payload.len() <= MAX_ASSEMBLED_LENGTH,
        message.kind.canonical(),
        sound_control(message),
    ensures
        ({
            let read = reading(r, writing(w, csid, message) + rest);
            &&& read.outcome == Ok::<_, ChunkError>(Some(message))
            &&& read.rest == rest
            &&& in_step(told(after_writing(w, csid, message), message), read.reader)
            &&& read.reader.wf()
        }),
{
    let (fmt, written) = shortest(w.last(csid), message);
    let state = remembered(w.last(csid), message);
    let repeat = extended_bytes(written);
    let basic = basic_header_bytes(fmt, csid);
    let head = message_header_bytes(fmt, written, message);
    let chunks = cut(message.payload, w.chunk_size, csid, repeat);
    lemma_basic(fmt, csid, head + chunks + rest);
    lemma_header(w.last(csid), message, basic, chunks + rest);
    lemma_regroup(basic, head, chunks, rest);
    assert(r.last(csid) == w.last(csid));
    lemma_whole(r, fmt, csid, state, basic, head, message.payload, repeat, rest);

    let after = r.with(csid, state, Seq::empty());
    assert(after.streams.dom() =~= after_writing(w, csid, message).streams.dom());
    reveal(applied);
    if message.kind == MessageType::Abort {
        let aborted = num32(message.payload, 0) as u32;
        if after.streams.contains_key(aborted) {
            assert(after.with(aborted, after.streams[aborted].state, Seq::empty()).streams
                =~= after.streams);
        }
    }
}

/// The bytes that put a run of messages on their chunk streams, one after
/// another, the writer doing after each what it announced.
pub open spec fn writing_run(w: WriterView, messages: Seq<(u32, MessageView)>) -> Seq<u8>
    decreases messages.len(),
{
    if messages.len() == 0 {
        Seq::empty()
    } else {
        let (csid, message) = messages.first();
        writing(w, csid, message) + writing_run(
            told(after_writing(w, csid, message), message),
            messages.drop_first(),
        )
    }
}

/// Whether every message of a run is one that a reader takes where it stands.
pub open spec fn all_sound(w: WriterView, messages: Seq<(u32, MessageView)>) -> bool
    decreases messages.len(),
{
    messages.len() > 0 ==> {
        let (csid, message) = messages.first();
        &&& 2 <= csid <= 65_599
        &&& w.streams.contains_key(csid) || w.streams.len() < MAX_CHUNK_STREAMS
        &&& message.payload.len() <= MAX_ASSEMBLED_LENGTH
        &&& message.kind.canonical()
        &&& sound_control(message)
        &&& all_sound(told(after_writing(w, csid, message), message), messages.drop_first())
    }
}

/// What `count` calls of `Reader::read` return, one after another.
pub open spec fn reading_run(r: ReaderView, s: Seq<u8>, count: nat) -> Seq<
    Result<Option<MessageView>, ChunkError>,
>
    decreases count,
{
    if count == 0 {
        Seq::empty()
    } else {
        let read = reading(r, s);
        seq![read.outcome] + reading_run(read.reader, read.rest, (count - 1) as nat)
    }
}

/// A run of messages reads back as the run that was written, in order, with
/// whatever each header left out put back.
pub proof fn law_run_reads_back(
    w: WriterView,
    r: ReaderView,
    messages: Seq<(u32, MessageView)>,
    rest: Seq<u8>,
)
    requires
        r.wf(),
        in_step(w, r),
        all_sound(w, messages),
    ensures
        reading_run(r, writing_run(w, messages) + rest, messages.len()) == messages.map_values(
            |sent: (u32, MessageView)| Ok::<_, ChunkError>(Some(sent.1)),
        ),
    decreases messages.len(),
{
    let returned = |sent: (u32, MessageView)| Ok::<_, ChunkError>(Some(sent.1));
    if messages.len() > 0 {
        let (csid, message) = messages.first();
        let next = told(after_writing(w, csid, message), message);
        let others = messages.drop_first();
        let first = writing(w, csid, message);
        let follow = writing_run(next, others) + rest;
        assert(writing_run(w, messages) + rest =~= first + follow);
        law_written_message_reads_back(w, r, csid, message, follow);
        let read = reading(r, first + follow);
        law_run_reads_back(next, read.reader, others, rest);
        assert(messages.map_values(returned) =~= seq![returned(messages.first())]
            + others.map_values(returned));
    } else {
        assert(messages.map_values(returned) =~= Seq::empty());
    }
}

/// Headers read the same whatever follows them.
proof fn lemma_headers_extend(
    fmt: u8,
    last: Option<State>,
    midway: bool,
    s: Seq<u8>,
    at: int,
    more: Seq<u8>,
)
    requires
        0 <= at,
        fmt <= 3,
        message_header(fmt, last, midway, s, at) is Some,
    ensures
        message_header(fmt, last, midway, s + more, at) == message_header(
            fmt,
            last,
            midway,
            s,
            at,
        ),
        at <= (message_header(fmt, last, midway, s, at)->0).1 <= s.len(),
        midway && fmt == 3 ==> (message_header(fmt, last, midway, s, at)->0).0 == last->0,
{
    let t = s + more;
    assert(forall|i: int| 0 <= i < s.len() ==> t[i] == s[i]);
    if fmt <= 2 {
        assert(num24(t, at) == num24(s, at));
    }
    if fmt <= 1 {
        assert(num24(t, at + 3) == num24(s, at + 3));
    }
}

/// A chunk whose header has been read is taken in the same whatever follows
/// it.
proof fn lemma_taken_extends(
    r: ReaderView,
    s: Seq<u8>,
    csid: u32,
    state: State,
    body: int,
    more: Seq<u8>,
)
    requires
        0 <= body,
        r.pending(csid).len() <= state.length,
        taken_in(r, s, csid, state, body).outcome != Ok::<_, ChunkError>(StepView::NeedMore),
    ensures
        ({
            let longer = taken_in(r, s + more, csid, state, body);
            let stepped = taken_in(r, s, csid, state, body);
            &&& longer.outcome == stepped.outcome
            &&& longer.reader == stepped.reader
            &&& longer.rest == stepped.rest + more
            &&& stepped.rest.len() <= s.len()
            &&& stepped.rest == s.skip(s.len() - stepped.rest.len())
        }),
{
    reveal(taken_in);
    let t = s + more;
    let end = body + chunk_length(r, csid, state);
    assert(t.subrange(body, end) =~= s.subrange(body, end));
    assert(t.skip(end) =~= s.skip(end) + more);
}

/// A chunk reads the same whatever follows it, and leaves the end of what was
/// there.
proof fn lemma_step_extends(r: ReaderView, s: Seq<u8>, more: Seq<u8>)
    requires
        r.wf(),
    ensures
        step(r, s).outcome != Ok::<_, ChunkError>(StepView::NeedMore) ==> {
            &&& step(r, s + more).outcome == step(r, s).outcome
            &&& step(r, s + more).reader == step(r, s).reader
            &&& step(r, s + more).rest == step(r, s).rest + more
        },
        step(r, s).rest.len() <= s.len(),
        step(r, s).rest == s.skip(s.len() - step(r, s).rest.len()),
{
    reveal(step);
    assert(s.skip(0) =~= s);
    if let Some((fmt, csid, at)) = basic_header(s) {
        assert(basic_header(s + more) == Some((fmt, csid, at)) && 0 < at && fmt <= 3) by {
            reveal(basic_header);
        }
        let last = r.last(csid);
        let pending = r.pending(csid);
        let midway = pending.len() > 0;
        if fmt != 3 && midway {
        } else if let Some((state, body)) = message_header(fmt, last, midway, s, at) {
            lemma_headers_extend(fmt, last, midway, s, at, more);
            if taken_in(r, s, csid, state, body).outcome != Ok::<_, ChunkError>(StepView::NeedMore) {
                lemma_taken_extends(r, s, csid, state, body, more);
            } else {
                assert(taken_in(r, s, csid, state, body).rest == s) by {
                    reveal(taken_in);
                }
            }
        }
    }
}

/// What one chunk leaves of a reader is a reader.
proof fn lemma_step_keeps(r: ReaderView, s: Seq<u8>)
    requires
        r.wf(),
    ensures
        step(r, s).reader.wf(),
{
    reveal(step);
    reveal(taken_in);
    reveal(applied);
}

/// Bytes that arrive in two pieces read the same as bytes that arrive at once:
/// what a reader that ran out has not used, it has left behind.
pub proof fn law_pieces_read_as_one(r: ReaderView, s: Seq<u8>, more: Seq<u8>)
    requires
        r.wf(),
        reading(r, s).outcome == Ok::<_, ChunkError>(None::<MessageView>),
    ensures
        reading(reading(r, s).reader, reading(r, s).rest + more) == reading(r, s + more),
    decreases s.len(),
{
    let stepped = step(r, s);
    if stepped.outcome == Ok::<_, ChunkError>(StepView::Absorbed) && stepped.rest.len() < s.len() {
        lemma_step_extends(r, s, more);
        lemma_step_keeps(r, s);
        law_pieces_read_as_one(stepped.reader, stepped.rest, more);
    }
}

/// Whatever a call of `Reader::read` does not use, it leaves: what is left is
/// the end of what was there.
pub proof fn law_reading_consumes_from_the_front(r: ReaderView, s: Seq<u8>)
    requires
        r.wf(),
    ensures
        reading(r, s).rest.len() <= s.len(),
        reading(r, s).rest == s.skip(s.len() - reading(r, s).rest.len()),
    decreases s.len(),
{
    let stepped = step(r, s);
    lemma_step_extends(r, s, Seq::empty());
    if stepped.outcome == Ok::<_, ChunkError>(StepView::Absorbed) && stepped.rest.len() < s.len() {
        lemma_step_keeps(r, s);
        law_reading_consumes_from_the_front(stepped.reader, stepped.rest);
    }
    assert(reading(r, s).rest =~= s.skip(s.len() - reading(r, s).rest.len()));
}

/// A call of `Reader::read` that finds a message, or something that cannot be
/// read, finds it whatever follows, and leaves what follows behind.
pub proof fn law_reading_ignores_what_follows(r: ReaderView, s: Seq<u8>, more: Seq<u8>)
    requires
        r.wf(),
        reading(r, s).outcome != Ok::<_, ChunkError>(None::<MessageView>),
    ensures
        reading(r, s + more) == (Reading {
            rest: reading(r, s).rest + more,
            ..reading(r, s)
        }),
    decreases s.len(),
{
    let stepped = step(r, s);
    lemma_step_extends(r, s, more);
    if stepped.outcome == Ok::<_, ChunkError>(StepView::Absorbed) && stepped.rest.len() < s.len() {
        lemma_step_keeps(r, s);
        law_reading_ignores_what_follows(stepped.reader, stepped.rest, more);
    }
}

/// What reading until there is no whole message left comes to: the messages, in
/// order, why it stopped if it could not go on, the reader after it, and what
/// is left in the buffer.
pub struct Drained {
    pub messages: Seq<MessageView>,
    pub error: Option<ChunkError>,
    pub reader: ReaderView,
    pub rest: Seq<u8>,
}

/// Calls `Reader::read` until it returns no message.
pub open spec fn drained(r: ReaderView, s: Seq<u8>) -> Drained
    decreases s.len(),
{
    let read = reading(r, s);
    let stopped = Drained {
        messages: Seq::empty(),
        error: None,
        reader: read.reader,
        rest: read.rest,
    };
    match read.outcome {
        Ok(Some(message)) if read.rest.len() < s.len() => {
            let others = drained(read.reader, read.rest);
            Drained { messages: seq![message] + others.messages, ..others }
        },
        Ok(_) => stopped,
        Err(error) => Drained { error: Some(error), ..stopped },
    }
}

/// A chunk that is taken in is taken out of the buffer.
proof fn lemma_step_uses(r: ReaderView, s: Seq<u8>)
    requires
        r.wf(),
    ensures
        step(r, s).outcome matches Ok(outcome) ==> outcome !is NeedMore ==> step(r, s).rest.len()
            < s.len(),
{
    reveal(step);
    if let Some((fmt, csid, at)) = basic_header(s) {
        assert(0 < at <= s.len() && fmt <= 3) by {
            reveal(basic_header);
        }
        let last = r.last(csid);
        let midway = r.pending(csid).len() > 0;
        if fmt != 3 && midway {
        } else if let Some((state, body)) = message_header(fmt, last, midway, s, at) {
            lemma_headers_extend(fmt, last, midway, s, at, Seq::empty());
            reveal(taken_in);
        }
    }
}

/// What a call of `Reader::read` leaves of a reader is a reader, and a message
/// it returns is taken out of the buffer.
proof fn lemma_reading_uses(r: ReaderView, s: Seq<u8>)
    requires
        r.wf(),
    ensures
        reading(r, s).reader.wf(),
        reading(r, s).outcome matches Ok(Some(_)) ==> reading(r, s).rest.len() < s.len(),
    decreases s.len(),
{
    let stepped = step(r, s);
    lemma_step_keeps(r, s);
    lemma_step_uses(r, s);
    if stepped.outcome == Ok::<_, ChunkError>(StepView::Absorbed) && stepped.rest.len() < s.len() {
        lemma_reading_uses(stepped.reader, stepped.rest);
    }
}

/// Bytes cut anywhere give the messages that the same bytes give at once, in
/// the same order, and leave the same bytes and the same reader, chunk size and
/// all. A piece that cannot be read cannot be read with more after it either.
pub proof fn law_a_run_reads_the_same_however_it_is_cut(r: ReaderView, s: Seq<u8>, more: Seq<u8>)
    requires
        r.wf(),
    ensures
        ({
            let whole = drained(r, s + more);
            let first = drained(r, s);
            let second = drained(first.reader, first.rest + more);
            if first.error is None {
                whole == Drained { messages: first.messages + second.messages, ..second }
            } else {
                whole == Drained { rest: first.rest + more, ..first }
            }
        }),
    decreases s.len(),
{
    let read = reading(r, s);
    let whole = drained(r, s + more);
    let first = drained(r, s);
    let second = drained(first.reader, first.rest + more);
    lemma_reading_uses(r, s);
    match read.outcome {
        Ok(Some(message)) => {
            law_reading_ignores_what_follows(r, s, more);
            law_a_run_reads_the_same_however_it_is_cut(read.reader, read.rest, more);
            let others = drained(read.reader, read.rest);
            assert(first.error is None ==> whole.messages =~= first.messages + second.messages);
        },
        Ok(None) => {
            law_pieces_read_as_one(r, s, more);
            lemma_reading_uses(read.reader, read.rest + more);
            lemma_reading_uses(r, s + more);
            assert(first.messages + second.messages =~= second.messages);
        },
        Err(_) => {
            law_reading_ignores_what_follows(r, s, more);
        },
    }
}

/// What a writer has written, a reader in step with it reads until nothing is
/// left: exactly the messages that were written, in order.
pub proof fn law_a_written_run_is_all_that_is_read(
    w: WriterView,
    r: ReaderView,
    messages: Seq<(u32, MessageView)>,
)
    requires
        r.wf(),
        in_step(w, r),
        all_sound(w, messages),
    ensures
        ({
            let read = drained(r, writing_run(w, messages));
            &&& read.messages == messages.map_values(|sent: (u32, MessageView)| sent.1)
            &&& read.error is None
            &&& read.rest == Seq::<u8>::empty()
        }),
    decreases messages.len(),
{
    let given = |sent: (u32, MessageView)| sent.1;
    let s = writing_run(w, messages);
    if messages.len() > 0 {
        let (csid, message) = messages.first();
        let next = told(after_writing(w, csid, message), message);
        let others = messages.drop_first();
        let follow = writing_run(next, others);
        law_written_message_reads_back(w, r, csid, message, follow);
        lemma_reading_uses(r, s);
        law_a_written_run_is_all_that_is_read(next, reading(r, s).reader, others);
        assert(messages.map_values(given) =~= seq![message] + others.map_values(given));
    } else {
        assert(messages.map_values(given) =~= Seq::empty());
        assert(step(r, s).outcome == Ok::<_, ChunkError>(StepView::NeedMore)) by {
            reveal(step);
            reveal(basic_header);
        }
    }
}

/// A basic header reads back, whatever follows it.
proof fn lemma_basic(fmt: u8, csid: u32, tail: Seq<u8>)
    requires
        fmt <= 3,
        2 <= csid <= 65_599,
    ensures
        basic_header(basic_header_bytes(fmt, csid) + tail) == Some(
            (fmt, csid, basic_header_bytes(fmt, csid).len() as int),
        ),
        basic_header_bytes(fmt, csid).len() > 0,
{
    reveal(basic_header);
    reveal(basic_header_bytes);
    reveal(le16);
    let head = basic_header_bytes(fmt, csid);
    let s = head + tail;
    assert(s[0] == head[0]);
    if csid > 319 {
        assert(s[1] == head[1] && s[2] == head[2]);
    } else if csid > 63 {
        assert(s[1] == head[1]);
    }
}

/// A message header reads back as what the writer remembers, whatever stands
/// before and after it.
#[verifier::rlimit(80)]
proof fn lemma_header(
    last: Option<State>,
    message: MessageView,
    before: Seq<u8>,
    after: Seq<u8>,
)
    requires
        message.payload.len() <= MAX_ASSEMBLED_LENGTH,
        message.kind.canonical(),
    ensures
        ({
            let (fmt, written) = shortest(last, message);
            let head = message_header_bytes(fmt, written, message);
            message_header(fmt, last, false, before + head + after, before.len() as int) == Some(
                (remembered(last, message), (before + head).len() as int),
            )
        }),
{
    let (fmt, written) = shortest(last, message);
    let head = message_header_bytes(fmt, written, message);
    let s = before + head + after;
    let at = before.len() as int;
    let extra = extended_bytes(written);
    let length = message.payload.len() as int;
    let field = if written >= EXTENDED_TIMESTAMP {
        EXTENDED_TIMESTAMP as int
    } else {
        written as int
    };
    let time = be24(field);
    let long = be24(length);
    let kind = seq![message.kind.spec_id()];
    let stream = le32(message.stream_id as int);
    let fields = if fmt == 0 {
        time + long + kind + stream
    } else if fmt == 1 {
        time + long + kind
    } else if fmt == 2 {
        time
    } else {
        Seq::empty()
    };
    assert(head =~= fields + extra);
    assert(fields.len() == header_width(fmt));
    if fmt <= 2 {
        let follow = s.skip(at + 3);
        assert(s =~= before + time + follow);
        lemma_num24_amid(before, field, follow);
    }
    if fmt <= 1 {
        let follow = s.skip(at + 6);
        assert(s =~= (before + time) + long + follow);
        lemma_num24_amid(before + time, length, follow);
        assert(s[at + 6] == message.kind.spec_id());
    }
    if fmt == 0 {
        let follow = s.skip(at + 11);
        assert(s =~= (before + time + long + kind) + stream + follow);
        lemma_num32_amid(before + time + long + kind, message.stream_id as int, follow);
    }
    if written >= EXTENDED_TIMESTAMP {
        assert(s =~= (before + fields) + extra + after);
        lemma_num32_amid(before + fields, written as int, after);
    }
    assert(is_extended(fmt, last, s, at) == (written >= EXTENDED_TIMESTAMP));
    assert(headed(fmt, last, false, s, at) == remembered(last, message));
}

/// What one chunk does whose header reads as `state`: its payload is `chunk`,
/// and `tail` is what follows it.
proof fn lemma_chunk(
    r: ReaderView,
    fmt: u8,
    csid: u32,
    state: State,
    basic: Seq<u8>,
    head: Seq<u8>,
    chunk: Seq<u8>,
    tail: Seq<u8>,
)
    requires
        basic_header(basic + head + chunk + tail) == Some((fmt, csid, basic.len() as int)),
        message_header(
            fmt,
            r.last(csid),
            r.pending(csid).len() > 0,
            basic + head + chunk + tail,
            basic.len() as int,
        ) == Some((state, (basic + head).len() as int)),
        r.last(csid) is Some || (fmt == 0 && r.streams.len() < MAX_CHUNK_STREAMS),
        fmt == 3 || r.pending(csid).len() == 0,
        state.length <= MAX_ASSEMBLED_LENGTH,
        chunk.len() == chunk_length(r, csid, state),
    ensures
        ({
            let stepped = step(r, basic + head + chunk + tail);
            let gathered = r.pending(csid) + chunk;
            if gathered.len() < state.length {
                &&& stepped.outcome == Ok::<_, ChunkError>(StepView::Absorbed)
                &&& stepped.reader == r.with(csid, state, gathered)
                &&& stepped.rest == tail
            } else {
                stepped == finished(
                    r.with(csid, state, Seq::empty()),
                    MessageView {
                        timestamp: state.timestamp,
                        kind: state.kind,
                        stream_id: state.stream_id,
                        payload: gathered,
                    },
                    tail,
                )
            }
        }),
{
    let s = basic + head + chunk + tail;
    let body = (basic + head).len() as int;
    assert(step(r, s) == taken_in(r, s, csid, state, body)) by {
        reveal(step);
    }
    reveal(taken_in);
    assert(s.subrange(body, body + chunk.len()) =~= chunk);
    assert(s.skip(body + chunk.len()) =~= tail);
}

/// The first chunk of a payload that takes more than one, and what follows it.
proof fn lemma_cut(
    before: Seq<u8>,
    payload: Seq<u8>,
    size: nat,
    csid: u32,
    repeat: Seq<u8>,
    rest: Seq<u8>,
)
    requires
        1 <= size < payload.len(),
    ensures
        before + cut(payload, size, csid, repeat) + rest == before + payload.take(size as int) + (
        basic_header_bytes(3, csid) + repeat + cut(payload.skip(size as int), size, csid, repeat)
            + rest),
{
    let basic = basic_header_bytes(3, csid);
    let others = cut(payload.skip(size as int), size, csid, repeat);
    let first = payload.take(size as int);
    assert(before + (first + basic + repeat + others) + rest =~= before + first + (basic + repeat
        + others + rest));
}

/// Whether a call of `Reader::read` ends as the message that is now whole does.
spec fn ends_as(read: Reading, done: Stepped) -> bool {
    &&& read.reader == done.reader
    &&& read.rest == done.rest
    &&& read.outcome == match done.outcome {
        Ok(step) => Ok(Some(step->Message_0)),
        Err(error) => Err(error),
    }
}

/// Four sequences on end are the same sequence however they are grouped.
proof fn lemma_regroup(a: Seq<u8>, b: Seq<u8>, c: Seq<u8>, d: Seq<u8>)
    ensures
        a + (b + c + d) == a + b + c + d,
        a + b + (c + d) == a + b + c + d,
{
    assert(a + (b + c + d) =~= a + b + c + d);
    assert(a + b + (c + d) =~= a + b + c + d);
}

/// A message whose first header reads as `state` is read whole.
proof fn lemma_whole(
    r: ReaderView,
    fmt: u8,
    csid: u32,
    state: State,
    basic: Seq<u8>,
    head: Seq<u8>,
    payload: Seq<u8>,
    repeat: Seq<u8>,
    rest: Seq<u8>,
)
    requires
        2 <= csid <= 65_599,
        r.chunk_size >= 1,
        r.pending(csid).len() == 0,
        r.last(csid) is Some || (fmt == 0 && r.streams.len() < MAX_CHUNK_STREAMS),
        payload.len() == state.length,
        state.length <= MAX_ASSEMBLED_LENGTH,
        repeat.len() == if state.extended {
            4nat
        } else {
            0
        },
        ({
            let s = basic + head + cut(payload, r.chunk_size, csid, repeat) + rest;
            let at = basic.len() as int;
            &&& basic_header(s) == Some((fmt, csid, at))
            &&& message_header(fmt, r.last(csid), false, s, at) == Some(
                (state, (basic + head).len() as int),
            )
        }),
    ensures
        ends_as(
            reading(r, basic + head + cut(payload, r.chunk_size, csid, repeat) + rest),
            finished(
                r.with(csid, state, Seq::empty()),
                MessageView {
                    timestamp: state.timestamp,
                    kind: state.kind,
                    stream_id: state.stream_id,
                    payload,
                },
                rest,
            ),
        ),
{
    let size = r.chunk_size;
    assert(r.pending(csid) =~= Seq::<u8>::empty());
    if payload.len() <= size {
        lemma_chunk(r, fmt, csid, state, basic, head, payload, rest);
        assert(r.pending(csid) + payload =~= payload);
    } else {
        let first = payload.take(size as int);
        let more = payload.skip(size as int);
        let follow = basic_header_bytes(3, csid) + repeat + cut(more, size, csid, repeat) + rest;
        lemma_cut(basic + head, payload, size, csid, repeat, rest);
        lemma_chunk(r, fmt, csid, state, basic, head, first, follow);
        assert(r.pending(csid) + first =~= first);
        let next = r.with(csid, state, first);
        lemma_continued(next, csid, state, first, more, repeat, rest);
        assert(first + more =~= payload);
        assert(next.with(csid, state, Seq::empty()).streams =~= r.with(
            csid,
            state,
            Seq::empty(),
        ).streams);
    }
}

/// What is left of a message that is part-way through reads back as the whole
/// of it.
proof fn lemma_continued(
    r: ReaderView,
    csid: u32,
    state: State,
    begun: Seq<u8>,
    more: Seq<u8>,
    repeat: Seq<u8>,
    rest: Seq<u8>,
)
    requires
        2 <= csid <= 65_599,
        r.chunk_size >= 1,
        r.streams.contains_key(csid),
        r.streams[csid] == (StreamView { state, pending: begun }),
        begun.len() > 0,
        more.len() > 0,
        begun.len() + more.len() == state.length,
        state.length <= MAX_ASSEMBLED_LENGTH,
        repeat.len() == if state.extended {
            4nat
        } else {
            0
        },
    ensures
        ends_as(
            reading(
                r,
                basic_header_bytes(3, csid) + repeat + cut(more, r.chunk_size, csid, repeat) + rest,
            ),
            finished(
                r.with(csid, state, Seq::empty()),
                MessageView {
                    timestamp: state.timestamp,
                    kind: state.kind,
                    stream_id: state.stream_id,
                    payload: begun + more,
                },
                rest,
            ),
        ),
    decreases more.len(),
{
    let size = r.chunk_size;
    let basic = basic_header_bytes(3, csid);
    let chunks = cut(more, size, csid, repeat);
    let s = basic + repeat + chunks + rest;
    lemma_basic(3, csid, repeat + chunks + rest);
    assert(s =~= basic + (repeat + chunks + rest));
    if more.len() <= size {
        lemma_chunk(r, 3, csid, state, basic, repeat, more, rest);
    } else {
        let first = more.take(size as int);
        let others = more.skip(size as int);
        let follow = basic + repeat + cut(others, size, csid, repeat) + rest;
        lemma_cut(basic + repeat, more, size, csid, repeat, rest);
        lemma_chunk(r, 3, csid, state, basic, repeat, first, follow);
        let next = r.with(csid, state, begun + first);
        lemma_continued(next, csid, state, begun + first, others, repeat, rest);
        assert(begun + first + others =~= begun + more);
        assert(next.with(csid, state, Seq::empty()).streams =~= r.with(
            csid,
            state,
            Seq::empty(),
        ).streams);
    }
}

} // verus!
