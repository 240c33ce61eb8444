use bytes::{BufMut, Bytes, BytesMut};
use relaybay::rtmp::flv::{
    read_audio, read_video, write_audio, write_video, AudioTag, FlvError, VideoTag,
};

fn video(bytes: &'static [u8]) -> Bytes {
    Bytes::from_static(bytes)
}

#[test]
fn a_sequence_header_is_the_record_after_five_bytes() {
    // Keyframe, AVC, packet type 0, no composition time, then the
    // record. The frame type on a sequence header is 1 by convention
    // and means nothing.
    let tag = read_video(&video(&[0x17, 0x00, 0, 0, 0, 0x01, 0x42, 0xc0])).unwrap();
    assert_eq!(
        tag,
        VideoTag::SequenceHeader(Bytes::from_static(&[0x01, 0x42, 0xc0]))
    );
}

#[test]
fn a_keyframe_and_an_inter_picture_are_told_apart() {
    let key = read_video(&video(&[0x17, 0x01, 0, 0, 0, 0x65])).unwrap();
    let inter = read_video(&video(&[0x27, 0x01, 0, 0, 0, 0x41])).unwrap();
    assert!(matches!(key, VideoTag::Picture { keyframe: true, .. }));
    assert!(matches!(
        inter,
        VideoTag::Picture {
            keyframe: false,
            ..
        }
    ));

    // Frame type 4 is a keyframe a server generated, and is still a
    // place a reader can start.
    let generated = read_video(&video(&[0x47, 0x01, 0, 0, 0, 0x65])).unwrap();
    assert!(matches!(
        generated,
        VideoTag::Picture { keyframe: true, .. }
    ));
}

#[test]
fn a_negative_composition_time_stays_negative() {
    // 0xffffff is -1, not 16 777 215. See the module docs.
    let tag = read_video(&video(&[0x27, 0x01, 0xff, 0xff, 0xff, 0x41])).unwrap();
    let VideoTag::Picture {
        composition_time, ..
    } = tag
    else {
        panic!("a picture")
    };
    assert_eq!(composition_time, -1);
}

#[test]
fn every_composition_time_the_field_holds_round_trips() {
    for value in [-0x80_0000, -1000, -1, 0, 1, 1000, 0x7f_ffff] {
        let tag = VideoTag::Picture {
            keyframe: false,
            composition_time: value,
            data: Bytes::from_static(&[0x41]),
        };
        let written = write_video(&tag).unwrap();
        assert_eq!(read_video(&written).unwrap(), tag, "{value}");
    }
}

#[test]
fn a_composition_time_the_field_cannot_hold_is_refused() {
    let tag = VideoTag::Picture {
        keyframe: false,
        composition_time: 0x80_0000,
        data: Bytes::new(),
    };
    assert_eq!(
        write_video(&tag),
        Err(FlvError::CompositionTimeTooLarge(0x80_0000))
    );
}

#[test]
fn a_video_tag_round_trips() {
    for tag in [
        VideoTag::SequenceHeader(Bytes::from_static(&[0x01, 0x42, 0xc0, 0x1e])),
        VideoTag::Picture {
            keyframe: true,
            composition_time: 33,
            data: Bytes::from_static(&[0, 0, 0, 2, 0x65, 0x88]),
        },
        VideoTag::End,
    ] {
        let written = write_video(&tag).unwrap();
        assert_eq!(read_video(&written).unwrap(), tag);
    }
}

#[test]
fn an_audio_tag_round_trips() {
    for tag in [
        AudioTag::SequenceHeader(Bytes::from_static(&[0x12, 0x10])),
        AudioTag::Frame(Bytes::from_static(&[0x21, 0x00, 0x03])),
    ] {
        assert_eq!(read_audio(&write_audio(&tag)).unwrap(), tag);
    }
}

#[test]
fn an_audio_tag_says_what_it_carries_and_nothing_about_its_rate() {
    // A 48 kHz mono stream, whose first byte still claims 44 kHz stereo
    // because the specification says it must. See `read_audio`.
    let tag = read_audio(&video(&[0xaf, 0x01, 0x21, 0x00])).unwrap();
    assert_eq!(tag, AudioTag::Frame(Bytes::from_static(&[0x21, 0x00])));
}

#[test]
fn a_codec_this_does_not_read_is_named() {
    // Codec 2 is Sorenson H.263, which RTMP could carry and nothing
    // sends any more.
    assert_eq!(
        read_video(&video(&[0x12, 0x00])),
        Err(FlvError::UnreadVideoCodec(2))
    );
    // Format 2 is MP3.
    assert_eq!(
        read_audio(&video(&[0x2f, 0x00])),
        Err(FlvError::UnreadAudioFormat(2))
    );
}

#[test]
fn an_enhanced_tag_says_which_codec_it_wanted() {
    let mut tag = BytesMut::from(&[0x91u8][..]);
    tag.put_slice(b"hvc1");
    assert_eq!(
        read_video(&tag.freeze()),
        Err(FlvError::Enhanced {
            codec: "hvc1".to_owned()
        })
    );
}

#[test]
fn a_packet_type_that_is_not_defined_is_refused() {
    assert_eq!(
        read_video(&video(&[0x17, 0x09])),
        Err(FlvError::UnknownPacketType(9))
    );
    assert_eq!(
        read_audio(&video(&[0xaf, 0x09])),
        Err(FlvError::UnknownPacketType(9))
    );
}

#[test]
fn a_tag_shorter_than_its_own_header_is_refused() {
    assert_eq!(
        read_video(&Bytes::new()),
        Err(FlvError::Truncated {
            offset: 0,
            needed: 1
        })
    );
    assert_eq!(
        read_video(&video(&[0x17])),
        Err(FlvError::Truncated {
            offset: 1,
            needed: 1
        })
    );
    // A picture needs the three composition time bytes as well.
    assert_eq!(
        read_video(&video(&[0x17, 0x01, 0, 0])),
        Err(FlvError::Truncated {
            offset: 4,
            needed: 1
        })
    );
    assert_eq!(
        read_audio(&video(&[0xaf])),
        Err(FlvError::Truncated {
            offset: 1,
            needed: 1
        })
    );
}

#[test]
fn a_picture_with_no_payload_is_a_picture() {
    // An empty access unit is odd but not malformed, and refusing it
    // here would drop a whole publish over one message.
    assert_eq!(
        read_video(&video(&[0x17, 0x01, 0, 0, 0])).unwrap(),
        VideoTag::Picture {
            keyframe: true,
            composition_time: 0,
            data: Bytes::new()
        }
    );
}
