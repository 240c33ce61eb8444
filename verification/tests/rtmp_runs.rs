use bytes::{Bytes, BytesMut};
use relaybay::rtmp::chunk::{ChunkStreamId, Message, MessageType, Reader, Writer};

fn message(timestamp: u32, kind: MessageType, payload: Vec<u8>) -> Message {
    Message {
        timestamp,
        kind,
        stream_id: 1,
        payload: Bytes::from(payload),
    }
}

fn drain(reader: &mut Reader, buf: &mut BytesMut) -> Vec<Message> {
    let mut messages = Vec::new();
    while let Some(message) = reader.read(buf).unwrap() {
        messages.push(message);
    }
    messages
}

/// A run with times around the one that no longer fits its field, and messages
/// alike and not.
fn run() -> Vec<(ChunkStreamId, Message)> {
    let mut run = Vec::new();
    for timestamp in [
        0x00ff_fffe,
        0x00ff_ffff,
        0x00ff_ffff,
        0x0100_0000,
        0x0100_0000,
        0x0100_0000,
        0x0300_0000,
        0x0500_0000,
        0x0500_0000,
        5,
        0xffff_ffff,
        0xffff_ffff,
    ] {
        run.push((
            ChunkStreamId::video(),
            message(timestamp, MessageType::Video, vec![timestamp as u8; 300]),
        ));
        run.push((
            ChunkStreamId::audio(),
            message(timestamp, MessageType::Audio, vec![7; 2]),
        ));
    }
    run
}

#[test]
fn two_alike_messages_at_one_late_timestamp_both_read_back() {
    for timestamp in [0x00ff_ffff, 0x0100_0000, u32::MAX] {
        let sent = message(timestamp, MessageType::Audio, vec![1]);
        let mut writer = Writer::new();
        let mut buf = BytesMut::new();
        for _ in 0..4 {
            writer
                .write(&mut buf, ChunkStreamId::audio(), &sent)
                .unwrap();
        }
        let read = drain(&mut Reader::new(), &mut buf);
        assert_eq!(read, vec![sent.clone(), sent.clone(), sent.clone(), sent]);
        assert!(buf.is_empty());
    }
}

#[test]
fn a_run_reads_back_whatever_its_times() {
    let mut writer = Writer::new();
    let mut buf = BytesMut::new();
    let sent = run();
    for (csid, message) in &sent {
        writer.write(&mut buf, *csid, message).unwrap();
    }
    let read = drain(&mut Reader::new(), &mut buf);
    assert!(buf.is_empty());
    assert_eq!(
        read,
        sent.into_iter()
            .map(|(_, message)| message)
            .collect::<Vec<_>>()
    );
}

#[test]
fn a_run_cut_anywhere_reads_the_same() {
    let mut writer = Writer::new();
    let mut bytes = BytesMut::new();
    for (csid, message) in &run()[..8] {
        writer.write(&mut bytes, *csid, message).unwrap();
    }
    bytes.extend_from_slice(&[0x06, 0, 0]);
    let mut whole = bytes.clone();
    let mut at_once = Reader::new();
    let expected = drain(&mut at_once, &mut whole);
    for cut in 0..bytes.len() {
        let mut reader = Reader::new();
        let mut buf = BytesMut::from(&bytes[..cut]);
        let mut read = drain(&mut reader, &mut buf);
        buf.extend_from_slice(&bytes[cut..]);
        read.extend(drain(&mut reader, &mut buf));
        assert_eq!(read, expected);
        assert_eq!(buf, whole);
        assert_eq!(reader.chunk_size(), at_once.chunk_size());
    }
}
