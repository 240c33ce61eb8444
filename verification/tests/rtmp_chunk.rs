use bytes::{BufMut, Bytes, BytesMut};
use relaybay::rtmp::chunk::{
    ChunkError, ChunkStreamId, Message, MessageType, Reader, Writer, DEFAULT_CHUNK_SIZE,
    EXTENDED_TIMESTAMP, MAX_ASSEMBLED_LENGTH, MAX_CHUNK_STREAMS,
};

fn message(kind: MessageType, timestamp: u32, stream_id: u32, payload: &[u8]) -> Message {
    Message {
        timestamp,
        kind,
        stream_id,
        payload: Bytes::copy_from_slice(payload),
    }
}

fn video(timestamp: u32, payload: &[u8]) -> Message {
    message(MessageType::Video, timestamp, 1, payload)
}

/// Writes messages and reads them back at the same chunk size, which is
/// the property that matters: what one side leaves out, the other has to
/// put back.
fn round_trip(messages: &[(ChunkStreamId, Message)], chunk_size: usize) -> Vec<Message> {
    let mut writer = Writer::new();
    writer.set_chunk_size(chunk_size).unwrap();
    let mut buf = BytesMut::new();
    for (csid, message) in messages {
        writer.write(&mut buf, *csid, message).unwrap();
    }

    let mut reader = reader_at(chunk_size);
    let mut read = Vec::new();
    while let Some(message) = reader.read(&mut buf).unwrap() {
        read.push(message);
    }
    assert!(buf.is_empty(), "{} bytes left over", buf.len());
    read
}

/// A reader whose peer has said how large its chunks are.
fn reader_at(chunk_size: usize) -> Reader {
    let mut reader = Reader::new();
    let mut buf = chunk0(2, 0, 4, 1, 0, &(chunk_size as u32).to_be_bytes());
    reader.read(&mut buf).unwrap().expect("the chunk size");
    assert_eq!(reader.chunk_size(), chunk_size);
    reader
}

fn payloads(messages: &[(ChunkStreamId, Message)]) -> Vec<Message> {
    messages
        .iter()
        .map(|(_, message)| message.clone())
        .collect()
}

fn chunk0(
    csid: u8,
    timestamp: u32,
    length: usize,
    kind: u8,
    stream_id: u32,
    data: &[u8],
) -> BytesMut {
    let mut out = BytesMut::new();
    out.put_u8(csid);
    out.put_slice(&timestamp.to_be_bytes()[1..]);
    out.put_slice(&(length as u32).to_be_bytes()[1..]);
    out.put_u8(kind);
    out.put_u32_le(stream_id);
    out.put_slice(data);
    out
}

fn chunk3(csid: u8, data: &[u8]) -> BytesMut {
    let mut out = BytesMut::new();
    out.put_u8(0xc0 | csid);
    out.put_slice(data);
    out
}

#[test]
fn a_type_round_trips_through_its_id() {
    for id in 0..=u8::MAX {
        assert_eq!(MessageType::from_id(id).id(), id);
    }
}

#[test]
fn a_chunk_stream_id_that_cannot_be_written_is_refused() {
    assert_eq!(ChunkStreamId::new(0), None);
    assert_eq!(ChunkStreamId::new(1), None);
    assert_eq!(ChunkStreamId::new(65_600), None);
    assert_eq!(ChunkStreamId::new(2).map(ChunkStreamId::value), Some(2));
}

#[test]
fn a_message_that_fits_one_chunk_round_trips() {
    let sent = video(1000, b"one picture");
    assert_eq!(
        round_trip(&[(ChunkStreamId::video(), sent.clone())], 4096),
        vec![sent]
    );
}

#[test]
fn a_message_cut_into_chunks_is_put_back_together() {
    let sent = video(1000, &[0x17; 1000]);
    assert_eq!(
        round_trip(&[(ChunkStreamId::video(), sent.clone())], DEFAULT_CHUNK_SIZE),
        vec![sent]
    );
}

#[test]
fn every_basic_header_width_round_trips() {
    // 63 is the last id the six bits hold, 64 the first that needs a
    // second byte, and 320 the first that needs two.
    for id in [2, 63, 64, 319, 320, 65_599] {
        let csid = ChunkStreamId::new(id).expect("in range");
        let sent = video(0, b"payload");
        assert_eq!(
            round_trip(&[(csid, sent.clone())], 4096),
            vec![sent],
            "{id}"
        );
    }
}

#[test]
fn a_run_of_messages_round_trips_through_the_shortened_headers() {
    // One length, type and stream throughout, at a fixed step: after the
    // first few the writer has nothing left to say and every header is
    // one byte.
    let sent: Vec<_> = (0..8u32)
        .map(|n| (ChunkStreamId::video(), video(n * 33, &[n as u8; 40])))
        .collect();
    assert_eq!(round_trip(&sent, 4096), payloads(&sent));
}

#[test]
fn each_header_format_is_used_as_soon_as_it_says_enough() {
    let sequence = [
        // The first message on a chunk stream has nothing behind it:
        // format 0, and a twelve-byte header.
        (video(0, b"aaaa"), 12),
        // A different message stream, which only format 0 can state.
        (message(MessageType::Video, 10, 2, b"aaaa"), 12),
        // A length that changed: format 1.
        (message(MessageType::Video, 20, 2, b"aaaaa"), 8),
        // Nothing new but the step from the last timestamp: format 2.
        (message(MessageType::Video, 45, 2, b"bbbbb"), 4),
        // The same step again, so there is nothing left to say at all
        // and a message costs one byte.
        (message(MessageType::Video, 70, 2, b"ccccc"), 1),
    ];

    let mut writer = Writer::new();
    let mut buf = BytesMut::new();
    for (message, header) in &sequence {
        let before = buf.len();
        writer
            .write(&mut buf, ChunkStreamId::video(), message)
            .unwrap();
        assert_eq!(
            buf.len() - before,
            header + message.payload.len(),
            "{message:?}"
        );
    }

    // And what was left out comes back.
    let mut reader = Reader::new();
    for (message, _) in &sequence {
        assert_eq!(reader.read(&mut buf).unwrap().as_ref(), Some(message));
    }
    assert!(buf.is_empty());
}

#[test]
fn a_stream_id_goes_out_little_endian() {
    let mut writer = Writer::new();
    let mut out = BytesMut::new();
    writer
        .write(
            &mut out,
            ChunkStreamId::video(),
            &message(MessageType::Video, 0, 0x0102_0304, b""),
        )
        .unwrap();
    assert_eq!(&out[8..12], &[0x04, 0x03, 0x02, 0x01]);
}

#[test]
fn an_incomplete_chunk_consumes_nothing() {
    let sent = video(1000, &[0x17; 300]);
    let mut writer = Writer::new();
    let mut whole = BytesMut::new();
    writer
        .write(&mut whole, ChunkStreamId::video(), &sent)
        .unwrap();

    // Arriving in two pieces has to read the same as arriving in one, at
    // every point it could be cut, which holds only if a chunk that is
    // not all there leaves every one of its own bytes behind.
    for cut in 0..whole.len() {
        let mut reader = Reader::new();
        let mut buf = whole.clone().split_to(cut);
        assert_eq!(reader.read(&mut buf).unwrap(), None, "{cut}");
        buf.extend_from_slice(&whole[cut..]);
        assert_eq!(reader.read(&mut buf).unwrap(), Some(sent.clone()), "{cut}");
        assert!(buf.is_empty(), "{cut}");
    }
}

#[test]
fn a_read_yields_every_message_already_in_the_buffer() {
    let sent = vec![
        (
            ChunkStreamId::command(),
            message(MessageType::Amf0Command, 0, 0, b"connect"),
        ),
        (ChunkStreamId::video(), video(0, b"picture")),
        (
            ChunkStreamId::audio(),
            message(MessageType::Audio, 0, 1, b"sound"),
        ),
    ];
    assert_eq!(round_trip(&sent, 4096), payloads(&sent));
}

#[test]
fn messages_on_two_chunk_streams_interleave() {
    // Four bytes at a time, two eight-byte messages, alternating.
    let mut buf = BytesMut::new();
    buf.unsplit(chunk0(3, 10, 8, 20, 0, b"AAAA"));
    buf.unsplit(chunk0(4, 20, 8, 9, 1, b"BBBB"));
    buf.unsplit(chunk3(3, b"aaaa"));
    buf.unsplit(chunk3(4, b"bbbb"));

    let mut reader = reader_at(4);
    let first = reader.read(&mut buf).unwrap().expect("A completes first");
    let second = reader.read(&mut buf).unwrap().expect("then B");
    assert_eq!(first.payload, Bytes::from_static(b"AAAAaaaa"));
    assert_eq!(first.kind, MessageType::Amf0Command);
    assert_eq!(second.payload, Bytes::from_static(b"BBBBbbbb"));
    assert_eq!(second.stream_id, 1);
    assert_eq!(reader.read(&mut buf).unwrap(), None);
}

#[test]
fn a_set_chunk_size_applies_to_the_chunks_after_it() {
    let mut buf = BytesMut::new();
    buf.unsplit(chunk0(2, 0, 4, 1, 0, &1024u32.to_be_bytes()));
    // 300 bytes in one chunk, which only parses at the new size.
    buf.unsplit(chunk0(6, 0, 300, 9, 1, &[0x17; 300]));

    let mut reader = Reader::new();
    let control = reader.read(&mut buf).unwrap().expect("the control message");
    assert_eq!(control.kind, MessageType::SetChunkSize);
    assert_eq!(reader.chunk_size(), 1024);
    let picture = reader.read(&mut buf).unwrap().expect("the picture");
    assert_eq!(picture.payload.len(), 300);
}

#[test]
fn a_chunk_size_of_zero_is_refused() {
    let mut buf = chunk0(2, 0, 4, 1, 0, &0u32.to_be_bytes());
    assert_eq!(
        Reader::new().read(&mut buf),
        Err(ChunkError::InvalidChunkSize(0))
    );
}

#[test]
fn an_abort_discards_the_half_read_message() {
    let mut buf = BytesMut::new();
    buf.unsplit(chunk0(6, 0, 8, 9, 1, b"AAAA"));
    buf.unsplit(chunk0(2, 0, 4, 2, 0, &6u32.to_be_bytes()));

    let mut reader = reader_at(4);
    let abort = reader.read(&mut buf).unwrap().expect("the abort itself");
    assert_eq!(abort.kind, MessageType::Abort);

    // With the half-read message gone, chunk stream 6 may start another
    //, which is the whole point of an abort, and would be refused as an
    // interleave if the discard had not happened.
    buf.unsplit(chunk0(6, 0, 4, 9, 1, b"BBBB"));
    let next = reader.read(&mut buf).unwrap().expect("a new message");
    assert_eq!(next.payload, Bytes::from_static(b"BBBB"));
}

#[test]
fn a_chunk_stream_cannot_open_with_an_inherited_header() {
    let mut buf = BytesMut::from(&[0xc6u8, 0, 0, 0][..]);
    assert_eq!(
        Reader::new().read(&mut buf),
        Err(ChunkError::NothingToInherit { csid: 6, fmt: 3 })
    );
}

#[test]
fn a_message_begun_before_the_last_one_finished_is_refused() {
    let mut buf = BytesMut::new();
    buf.unsplit(chunk0(6, 0, 8, 9, 1, b"AAAA"));
    buf.unsplit(chunk0(6, 0, 4, 9, 1, b"BBBB"));

    let mut reader = reader_at(4);
    assert_eq!(
        reader.read(&mut buf),
        Err(ChunkError::Interleaved {
            csid: 6,
            pending: 4
        })
    );
}

#[test]
fn a_message_longer_than_this_assembles_is_refused() {
    let length = MAX_ASSEMBLED_LENGTH + 1;
    let mut buf = chunk0(6, 0, length, 9, 1, b"");
    assert_eq!(
        Reader::new().read(&mut buf),
        Err(ChunkError::MessageTooLong {
            length,
            limit: MAX_ASSEMBLED_LENGTH
        })
    );
}

#[test]
fn more_chunk_streams_than_a_connection_uses_are_refused() {
    let mut writer = Writer::new();
    let mut buf = BytesMut::new();
    for id in 0..=MAX_CHUNK_STREAMS as u32 {
        let csid = ChunkStreamId::new(2 + id).expect("in range");
        writer.write(&mut buf, csid, &video(0, b"x")).unwrap();
    }
    let mut reader = Reader::new();
    let outcome = loop {
        match reader.read(&mut buf) {
            Ok(Some(_)) => continue,
            other => break other,
        }
    };
    assert_eq!(outcome, Err(ChunkError::TooManyChunkStreams));
}

#[test]
fn a_timestamp_too_large_for_its_field_goes_after_the_header() {
    let sent = video(EXTENDED_TIMESTAMP + 5, &[0x17; 300]);
    let mut writer = Writer::new();
    let mut buf = BytesMut::new();
    writer.write(&mut buf, ChunkStreamId::video(), &sent).unwrap();
    // The field says "look past the header", and the four bytes after it
    // hold the value.
    assert_eq!(&buf[1..4], &[0xff, 0xff, 0xff]);
    assert_eq!(&buf[12..16], &(EXTENDED_TIMESTAMP + 5).to_be_bytes());

    assert_eq!(Reader::new().read(&mut buf).unwrap(), Some(sent));
}

#[test]
fn an_extended_timestamp_is_repeated_on_every_continuation() {
    // Two messages, so the second is written with a shortened header
    // against a chunk stream whose last message was extended, and both
    // span several chunks so the continuations carry the repeat.
    let sent = vec![
        (
            ChunkStreamId::video(),
            video(EXTENDED_TIMESTAMP + 5, &[0x17; 400]),
        ),
        (
            ChunkStreamId::video(),
            video(EXTENDED_TIMESTAMP + 38, &[0x27; 400]),
        ),
    ];
    assert_eq!(round_trip(&sent, DEFAULT_CHUNK_SIZE), payloads(&sent));
}

#[test]
fn a_control_message_of_the_wrong_length_is_refused() {
    let mut buf = chunk0(2, 0, 2, 1, 0, &[0, 0]);
    assert_eq!(
        Reader::new().read(&mut buf),
        Err(ChunkError::MalformedControl {
            kind: "set chunk size",
            length: 2
        })
    );
}

#[test]
fn an_empty_message_is_a_message() {
    let sent = message(MessageType::UserControl, 0, 0, b"");
    assert_eq!(
        round_trip(&[(ChunkStreamId::control(), sent.clone())], 4096),
        vec![sent]
    );
}
