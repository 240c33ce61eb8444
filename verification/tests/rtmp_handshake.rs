use bytes::{BufMut, Bytes, BytesMut};
use relaybay::rtmp::handshake::{
    Handshake, HandshakeError, Step, HANDSHAKE_SIZE, RANDOM_SIZE, VERSION,
};

/// C0 and C1, with `version` in the four bytes a plain handshake leaves
/// zero and `random` repeated through the rest.
fn hello(version: u32, random: u8) -> BytesMut {
    let mut out = BytesMut::new();
    out.put_u8(VERSION);
    out.put_u32(0x1122_3344);
    out.put_u32(version);
    out.put_slice(&[random; RANDOM_SIZE]);
    out
}

fn echo() -> BytesMut {
    BytesMut::from(&[0xab; HANDSHAKE_SIZE][..])
}

/// Drives a handshake to the end, returning what was sent and whatever
/// was left in the buffer.
fn run(buf: &mut BytesMut) -> (Bytes, Handshake) {
    let mut handshake = Handshake::new();
    let mut sent = Bytes::new();
    loop {
        match handshake.read(buf).expect("a well-formed handshake") {
            Step::NeedMore => panic!("everything is already in the buffer"),
            Step::Send(reply) => sent = reply,
            Step::Done => return (sent, handshake),
        }
    }
}

#[test]
fn a_handshake_completes_and_answers_with_three_pieces() {
    let mut buf = hello(0, 0x11);
    buf.unsplit(echo());
    let (sent, handshake) = run(&mut buf);

    assert_eq!(sent.len(), 1 + HANDSHAKE_SIZE * 2);
    assert_eq!(sent[0], VERSION);
    assert!(handshake.is_done());
    assert!(buf.is_empty());
}

#[test]
fn the_reply_sends_the_client_its_own_hello_back() {
    let mut buf = hello(0, 0x11);
    buf.unsplit(echo());
    let (sent, _) = run(&mut buf);

    let s2 = &sent[1 + HANDSHAKE_SIZE..];
    // The client's timestamp, unchanged.
    assert_eq!(&s2[..4], &0x1122_3344u32.to_be_bytes());
    // Its random bytes, unchanged.
    assert_eq!(&s2[8..], &[0x11; RANDOM_SIZE][..]);
}

#[test]
fn the_reply_says_it_is_a_plain_handshake() {
    let mut buf = hello(0, 0x11);
    buf.unsplit(echo());
    let (sent, _) = run(&mut buf);

    let s1 = &sent[1..1 + HANDSHAKE_SIZE];
    assert_eq!(&s1[4..8], &[0, 0, 0, 0]);
}

#[test]
fn what_we_send_is_not_what_we_were_sent() {
    let mut buf = hello(0, 0x11);
    buf.unsplit(echo());
    let (sent, _) = run(&mut buf);

    let s1_random = &sent[9..1 + HANDSHAKE_SIZE];
    assert_ne!(s1_random, &[0x11; RANDOM_SIZE][..]);
    // And it is not all one byte either, which a mixing step that did
    // nothing would leave it.
    assert!(s1_random.iter().any(|byte| *byte != s1_random[0]));
}

#[test]
fn two_clients_are_not_sent_the_same_bytes() {
    let mut first = hello(0, 0x11);
    first.unsplit(echo());
    let mut second = hello(0, 0x12);
    second.unsplit(echo());

    assert_ne!(run(&mut first).0, run(&mut second).0);
}

#[test]
fn nothing_is_consumed_until_a_whole_piece_is_there() {
    let mut whole = hello(0, 0x11);
    whole.unsplit(echo());

    // Feed it one byte at a time. Until a piece is complete every byte
    // of it has to still be in the buffer, or the one that arrives next
    // lands in the middle of something.
    let mut handshake = Handshake::new();
    let mut buf = BytesMut::new();
    let mut fed = 0;
    let mut sent = None;
    for byte in whole.iter() {
        buf.put_u8(*byte);
        fed += 1;
        match handshake.read(&mut buf).expect("well-formed") {
            Step::NeedMore => assert_eq!(buf.len(), fed),
            Step::Send(reply) => {
                assert_eq!(fed, 1 + HANDSHAKE_SIZE);
                sent = Some(reply);
                fed = 0;
            }
            Step::Done => {
                assert_eq!(fed, HANDSHAKE_SIZE);
                fed = 0;
            }
        }
    }
    assert!(handshake.is_done());
    assert!(buf.is_empty());
    assert!(sent.is_some(), "the reply was never produced");
}

#[test]
fn what_follows_the_handshake_is_left_where_it_is() {
    // A client is free to put its first chunks in the same packet as C2,
    // and dropping them with the handshake would lose its `connect`.
    let mut buf = hello(0, 0x11);
    buf.unsplit(echo());
    buf.put_slice(b"the chunk stream starts here");

    let (_, handshake) = run(&mut buf);
    assert!(handshake.is_done());
    assert_eq!(&buf[..], b"the chunk stream starts here");
}

#[test]
fn a_version_that_is_not_rtmp_is_refused() {
    let mut buf = hello(0, 0x11);
    buf[0] = 6;
    assert_eq!(
        Handshake::new().read(&mut buf),
        Err(HandshakeError::UnsupportedVersion(6))
    );
}

#[test]
fn a_client_reaching_for_the_digest_handshake_is_answered_plainly() {
    // What Flash Player put there: a version, rather than the zero a
    // plain handshake has.
    let mut buf = hello(0x8000_0702, 0x11);
    buf.unsplit(echo());

    let mut handshake = Handshake::new();
    assert_eq!(handshake.client_version(), None, "C1 has not been read");

    let Step::Send(sent) = handshake.read(&mut buf).expect("well-formed") else {
        panic!("C0 and C1 are both here");
    };
    assert_eq!(handshake.client_version(), Some(0x8000_0702));
    // Answered as a plain handshake all the same: S1's own four bytes
    // are zero, and no digest went anywhere.
    assert_eq!(&sent[5..9], &[0, 0, 0, 0]);
    assert_eq!(handshake.read(&mut buf), Ok(Step::Done));
}

#[test]
fn reading_after_the_end_stays_at_the_end() {
    let mut buf = hello(0, 0x11);
    buf.unsplit(echo());
    let (_, mut handshake) = run(&mut buf);
    assert_eq!(handshake.read(&mut buf), Ok(Step::Done));
}
