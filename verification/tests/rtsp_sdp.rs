use bytes::Bytes;
use relaybay::codec::{aac, h264};
use relaybay::rtsp::sdp::{base64, describe, hex};
use relaybay::track::{Codec, Description};

fn sps() -> h264::Nal {
    h264::Nal::new(Bytes::from_static(&[
        0x67, 0x42, 0xc0, 0x1e, 0xd9, 0x00, 0x80,
    ]))
    .unwrap()
}

fn pps() -> h264::Nal {
    h264::Nal::new(Bytes::from_static(&[0x68, 0xce, 0x3c, 0x80])).unwrap()
}

fn both() -> Description {
    Description::new(vec![
        Codec::H264(h264::Parameters {
            sps: vec![sps()],
            pps: vec![pps()],
        }),
        Codec::Aac(aac::Parameters::parse(Bytes::from_static(&[0x12, 0x10])).unwrap()),
    ])
    .unwrap()
}

/// The value of the first attribute with this name.
fn attribute<'a>(sdp: &'a str, name: &str) -> Option<&'a str> {
    sdp.lines()
        .find_map(|line| line.strip_prefix(&format!("a={name}:")))
}

#[test]
fn a_description_becomes_the_lines_a_player_reads() {
    let sdp = describe(&both(), "live/cam1");
    let lines: Vec<_> = sdp.lines().collect();

    assert_eq!(lines[0], "v=0");
    assert_eq!(lines[2], "s=live/cam1");
    assert_eq!(lines[4], "t=0 0");
    assert!(sdp.contains("m=video 0 RTP/AVP 96\r\n"));
    assert!(sdp.contains("a=rtpmap:96 H264/90000\r\n"));
    assert!(sdp.contains("m=audio 0 RTP/AVP 97\r\n"));
    assert!(sdp.contains("a=rtpmap:97 mpeg4-generic/44100/2\r\n"));
    // Every line ends the way SDP's do, not the way a Rust string does.
    assert!(sdp.ends_with("\r\n"));
    assert!(!sdp.contains("\n\n"));
}

#[test]
fn each_track_is_named_by_the_id_its_units_carry() {
    let description = both();
    let sdp = describe(&description, "s");
    let controls: Vec<_> = sdp
        .lines()
        .filter_map(|line| line.strip_prefix("a=control:"))
        .collect();
    assert_eq!(controls, ["*", "trackID=0", "trackID=1"]);
    assert_eq!(description.tracks()[1].id().index(), 1);
}

#[test]
fn the_parameter_sets_go_in_the_sdp_rather_than_the_stream() {
    let sdp = describe(&both(), "s");
    let fmtp = sdp
        .lines()
        .find(|line| line.starts_with("a=fmtp:96"))
        .unwrap();

    assert!(fmtp.contains("packetization-mode=1"));
    // The three bytes after the SPS header byte.
    assert!(fmtp.contains("profile-level-id=42c01e"), "{fmtp}");
    // Base64 of the SPS, then of the PPS, in that order.
    assert!(
        fmtp.contains("sprop-parameter-sets=Z0LAHtkAgA==,aM48gA=="),
        "{fmtp}"
    );
}

#[test]
fn the_audio_configuration_goes_out_as_the_bytes_it_arrived_as() {
    let sdp = describe(&both(), "s");
    let fmtp = sdp
        .lines()
        .find(|line| line.starts_with("a=fmtp:97"))
        .unwrap();

    assert!(fmtp.contains("mode=AAC-hbr"));
    // The widths a receiver reads the AU headers with.
    assert!(fmtp.contains("sizelength=13"));
    assert!(fmtp.contains("indexlength=3"));
    assert!(fmtp.contains("indexdeltalength=3"));
    assert!(fmtp.contains("config=1210"), "{fmtp}");
}

#[test]
fn a_configuration_this_did_not_fully_read_goes_out_whole() {
    // The bytes past the three fields this reads are an SBR extension.
    // A receiver needs them even though nothing here understands them.
    let description = Description::new(vec![Codec::Aac(
        aac::Parameters::parse(Bytes::from_static(&[0x12, 0x08, 0x56, 0xe5, 0x00])).unwrap(),
    )])
    .unwrap();
    let sdp = describe(&description, "s");
    assert!(sdp.contains("config=120856e500"), "{sdp}");
    assert!(sdp.contains("mpeg4-generic/44100/1"), "{sdp}");
}

#[test]
fn a_stream_with_one_track_describes_one() {
    let description = Description::new(vec![Codec::H264(h264::Parameters {
        sps: vec![sps()],
        pps: vec![pps()],
    })])
    .unwrap();
    let sdp = describe(&description, "s");
    assert_eq!(sdp.matches("m=").count(), 1);
    assert!(sdp.contains("m=video"));
    assert!(!sdp.contains("m=audio"));
}

#[test]
fn nowhere_in_this_says_where_to_send_anything() {
    // Which is settled by SETUP, per track, after the client has read
    // this. See the module docs.
    let sdp = describe(&both(), "s");
    assert!(sdp.contains("c=IN IP4 0.0.0.0"));
    assert_eq!(sdp.matches(" 0 RTP/AVP ").count(), 2);
}

#[test]
fn a_name_cannot_end_the_field_it_is_in() {
    let sdp = describe(&both(), "live\r\na=control:evil");
    assert_eq!(attribute(&sdp, "control"), Some("*"));
    assert!(sdp.contains("s=live  a=control:evil\r\n"), "{sdp}");
}

#[test]
fn base64_writes_what_the_standard_says() {
    assert_eq!(base64(b""), "");
    assert_eq!(base64(b"f"), "Zg==");
    assert_eq!(base64(b"fo"), "Zm8=");
    assert_eq!(base64(b"foo"), "Zm9v");
    assert_eq!(base64(b"foob"), "Zm9vYg==");
    assert_eq!(base64(b"fooba"), "Zm9vYmE=");
    assert_eq!(base64(b"foobar"), "Zm9vYmFy");
    // Every bit pattern, so the alphabet is right end to end.
    assert_eq!(base64(&[0xff, 0xff, 0xff]), "////");
    assert_eq!(base64(&[0x00, 0x00, 0x00]), "AAAA");
}

#[test]
fn hex_is_two_digits_a_byte() {
    assert_eq!(hex(&[0x42, 0xc0, 0x1e]), "42c01e");
    assert_eq!(hex(&[0x00, 0x0f]), "000f");
}
