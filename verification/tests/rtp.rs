use relaybay::rtp::{payload_type, Header, RtpError, Stream, HEADER_SIZE};
use relaybay::time::MediaTime;

fn stream() -> Stream {
    Stream::new(0x1234_5678, payload_type::VIDEO, 90_000)
}

#[test]
fn a_header_says_what_it_was_built_with() {
    let mut stream = stream();
    let packet = stream.packet(true, 900, &[0xaa], &[0xbb, 0xcc]);
    let (header, payload) = Header::parse(&packet).unwrap();

    assert!(header.marker);
    assert_eq!(header.payload_type, payload_type::VIDEO);
    assert_eq!(header.timestamp, 900);
    assert_eq!(header.ssrc, 0x1234_5678);
    assert_eq!(payload, &[0xaa, 0xbb, 0xcc]);
    // Version 2, and nothing else set.
    assert_eq!(packet[0], 0x80);
}

#[test]
fn sequence_numbers_count_up_and_wrap() {
    let mut stream = stream();
    loop {
        let sent = Header::parse(&stream.packet(false, 0, &[], &[])).unwrap().0;
        if sent.sequence == u16::MAX - 2 {
            break;
        }
    }
    let first = Header::parse(&stream.packet(false, 0, &[], &[])).unwrap().0;
    let second = Header::parse(&stream.packet(false, 0, &[], &[])).unwrap().0;
    let third = Header::parse(&stream.packet(false, 0, &[], &[])).unwrap().0;

    assert_eq!(first.sequence, u16::MAX - 1);
    assert_eq!(second.sequence, u16::MAX);
    assert_eq!(third.sequence, 0);
}

#[test]
fn a_timestamp_counts_in_the_tracks_own_clock() {
    let video = Stream::new(1, payload_type::VIDEO, 90_000);
    let audio = Stream::new(1, payload_type::AUDIO, 44_100);
    let second = MediaTime::from_secs(1);

    // The origin is the same for both, since it comes from the SSRC, so
    // the difference is what each clock counts in a second.
    assert_eq!(
        video
            .timestamp(second)
            .wrapping_sub(video.timestamp(MediaTime::zero())),
        90_000
    );
    assert_eq!(
        audio
            .timestamp(second)
            .wrapping_sub(audio.timestamp(MediaTime::zero())),
        44_100
    );
}

#[test]
fn a_timestamp_does_not_start_at_zero() {
    // A receiver is not meant to be able to read where a stream began
    // out of its first packet.
    let stream = Stream::new(0xdead_beef, payload_type::VIDEO, 90_000);
    assert_ne!(stream.timestamp(MediaTime::zero()), 0);
}

#[test]
fn two_streams_do_not_agree_about_where_they_started() {
    let mut first = Stream::new(1, payload_type::VIDEO, 90_000);
    let mut second = Stream::new(2, payload_type::VIDEO, 90_000);
    let numbered = |stream: &mut Stream| {
        Header::parse(&stream.packet(false, 0, &[], &[])).unwrap().0.sequence
    };
    assert_ne!(numbered(&mut first), numbered(&mut second));
    assert_ne!(
        first.timestamp(MediaTime::zero()),
        second.timestamp(MediaTime::zero())
    );
}

#[test]
fn a_timestamp_survives_a_stream_running_for_years() {
    // Nanoseconds times 90 000 overflows 64 bits after about six years,
    // which is not long for a camera.
    let stream = Stream::new(1, payload_type::VIDEO, 90_000);
    let decade = MediaTime::from_secs(10 * 365 * 24 * 60 * 60);
    let expected =
        (u128::from(stream.timestamp(MediaTime::zero())) + decade.as_nanos() * 90_000 / 1_000_000_000) as u32;
    assert_eq!(stream.timestamp(decade), expected);
}

#[test]
fn a_packet_with_no_room_for_a_payload_is_refused() {
    assert_eq!(
        stream().with_mtu(HEADER_SIZE).unwrap_err(),
        RtpError::MtuTooSmall(HEADER_SIZE)
    );
    assert!(stream().with_mtu(HEADER_SIZE + 1).is_ok());
}

#[test]
fn a_header_shorter_than_a_header_reads_as_nothing() {
    assert_eq!(Header::parse(&[0x80; HEADER_SIZE - 1]), None);
}
