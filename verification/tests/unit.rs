use bytes::Bytes;
use relaybay::codec::{aac, h264};
use relaybay::time::MediaTime;
use relaybay::track::{Codec, Description};
use relaybay::unit::{AudioPayload, AudioUnit, Unit, VideoPayload, VideoUnit};

fn description() -> Description {
    let sps = h264::Nal::new(Bytes::from_static(&[0x67, 0x42, 0xc0, 0x1e])).unwrap();
    let pps = h264::Nal::new(Bytes::from_static(&[0x68, 0xce, 0x3c, 0x80])).unwrap();
    Description::new(vec![
        Codec::H264(h264::Parameters {
            sps: vec![sps],
            pps: vec![pps],
        }),
        Codec::Aac(aac::Parameters::parse(Bytes::from_static(&[0x12, 0x10])).unwrap()),
    ])
    .unwrap()
}

fn nal(bytes: &'static [u8]) -> h264::Nal {
    h264::Nal::new(Bytes::from_static(bytes)).expect("not empty")
}

#[test]
fn a_unit_reads_its_own_keyframe_flag() {
    let video = description().tracks()[0].id();
    let idr = VideoPayload::H264(vec![nal(&[0x65, 0x88])]);
    let inter = VideoPayload::H264(vec![nal(&[0x41, 0x9a])]);
    assert!(VideoUnit::new(video, idr, MediaTime::zero(), MediaTime::zero()).keyframe);
    assert!(!VideoUnit::new(video, inter, MediaTime::zero(), MediaTime::zero()).keyframe);
}

#[test]
fn a_path_can_ask_a_unit_what_it_needs_without_knowing_which_kind_it_is() {
    let description = description();
    let video = description.tracks()[0].id();
    let audio = description.tracks()[1].id();

    let picture = Unit::from(VideoUnit::new(
        video,
        VideoPayload::H264(vec![nal(&[0x41, 0x9a])]),
        MediaTime::from_millis(40),
        MediaTime::from_millis(40),
    ));
    let sound = Unit::from(AudioUnit {
        track: audio,
        payload: AudioPayload::Aac(Bytes::from_static(&[0x21, 0x00])),
        pts: MediaTime::from_millis(23),
    });

    assert_eq!(picture.track(), video);
    assert_eq!(picture.pts(), MediaTime::from_millis(40));
    assert!(!picture.is_keyframe());

    assert_eq!(sound.track(), audio);
    assert_eq!(sound.pts(), MediaTime::from_millis(23));
    assert!(sound.is_keyframe(), "every frame of sound stands alone");
}

#[test]
fn a_unit_names_a_track_that_exists() {
    let description = description();
    let audio = description.tracks()[1].id();
    let sound = Unit::from(AudioUnit {
        track: audio,
        payload: AudioPayload::Aac(Bytes::new()),
        pts: MediaTime::zero(),
    });
    let track = description
        .track(sound.track())
        .expect("in this description");
    assert!(matches!(track.codec(), Codec::Aac(_)));
}
