use bytes::Bytes;
use relaybay::rtp::aac::{Packetizer, MAX_ACCESS_UNIT, PREFIX};
use relaybay::rtp::{payload_type, Header, RtpError, Stream, HEADER_SIZE, MTU};
use relaybay::time::MediaTime;

fn packetizer() -> Packetizer {
    Packetizer::new(Stream::new(0x1234_5678, payload_type::AUDIO, 44_100))
}

fn frame(length: usize) -> Bytes {
    Bytes::from_owner((0..length).map(|byte| byte as u8).collect::<Vec<_>>())
}

/// Reads the size a packet's header states, and the media after it.
fn read(packet: &Bytes) -> (usize, &[u8]) {
    let (_, payload) = Header::parse(packet).unwrap();
    assert_eq!(
        u16::from_be_bytes([payload[0], payload[1]]),
        16,
        "one header, sixteen bits of it"
    );
    let header = u16::from_be_bytes([payload[2], payload[3]]);
    assert_eq!(header & 0x07, 0, "the first unit of a packet is index 0");
    (usize::from(header >> 3), &payload[PREFIX..])
}

#[test]
fn a_frame_goes_in_one_packet_and_says_how_long_it_is() {
    let sound = frame(370);
    let packets = packetizer().packetize(&sound, MediaTime::zero()).unwrap();

    assert_eq!(packets.len(), 1);
    let (stated, media) = read(&packets[0]);
    assert_eq!(stated, sound.len());
    assert_eq!(media, &sound[..]);
    assert!(Header::parse(&packets[0]).unwrap().0.marker);
}

#[test]
fn aac_every_size_around_the_boundary_comes_back_whole() {
    let budget = MTU - HEADER_SIZE - PREFIX;
    for length in [
        1,
        2,
        budget - 1,
        budget,
        budget + 1,
        budget * 2,
        MAX_ACCESS_UNIT,
    ] {
        let sound = frame(length);
        let packets = packetizer().packetize(&sound, MediaTime::zero()).unwrap();

        let mut rebuilt = Vec::new();
        for packet in &packets {
            let (stated, media) = read(packet);
            assert_eq!(stated, length, "{length}: every piece states the whole");
            rebuilt.extend_from_slice(media);
            assert!(packet.len() <= MTU, "{length}: over the MTU");
        }
        assert_eq!(rebuilt, sound[..], "{length}");

        let markers = packets
            .iter()
            .filter(|packet| Header::parse(packet).unwrap().0.marker)
            .count();
        assert_eq!(markers, 1, "{length}: one end");
        assert!(
            Header::parse(packets.last().unwrap()).unwrap().0.marker,
            "{length}: and it is the last packet"
        );
    }
}

#[test]
fn frames_a_second_apart_are_a_sample_rate_apart() {
    let mut packetizer = packetizer();
    let first = packetizer.packetize(&frame(100), MediaTime::zero()).unwrap();
    let second = packetizer
        .packetize(&frame(100), MediaTime::from_secs(1))
        .unwrap();

    let at = |packet: &Bytes| Header::parse(packet).unwrap().0.timestamp;
    assert_eq!(at(&second[0]).wrapping_sub(at(&first[0])), 44_100);
}

#[test]
fn a_frame_longer_than_its_size_field_is_refused() {
    // Nothing sends one: at 44.1 kHz a unit is 1024 samples, so this is
    // a bitrate of nearly three megabits for one channel of audio.
    let sound = frame(MAX_ACCESS_UNIT + 1);
    assert_eq!(
        packetizer().packetize(&sound, MediaTime::zero()),
        Err(RtpError::AccessUnitTooLong {
            length: MAX_ACCESS_UNIT + 1,
            limit: MAX_ACCESS_UNIT
        })
    );
}

#[test]
fn an_empty_frame_is_still_a_packet() {
    // Odd, but not malformed, and refusing one would drop a stream over
    // a single frame.
    let packets = packetizer()
        .packetize(&Bytes::new(), MediaTime::zero())
        .unwrap();
    assert_eq!(packets.len(), 1);
    assert_eq!(read(&packets[0]), (0, &[][..]));
}
