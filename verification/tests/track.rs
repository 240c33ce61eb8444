use bytes::Bytes;
use relaybay::codec::{aac, h264};
use relaybay::track::{Codec, Description, DescriptionError, Kind};

fn h264() -> Codec {
    Codec::H264(h264::Parameters {
        sps: vec![h264::Nal::new(Bytes::from_static(&[0x67, 0x42, 0xc0, 0x1e])).unwrap()],
        pps: vec![h264::Nal::new(Bytes::from_static(&[0x68, 0xce, 0x3c, 0x80])).unwrap()],
    })
}

fn aac() -> Codec {
    Codec::Aac(aac::Parameters::parse(Bytes::from_static(&[0x12, 0x10])).unwrap())
}

#[test]
fn tracks_are_numbered_by_where_they_sit() {
    let description = Description::new(vec![h264(), aac()]).unwrap();
    let ids: Vec<_> = description
        .tracks()
        .iter()
        .map(|track| track.id().index())
        .collect();
    assert_eq!(ids, [0, 1]);
}

#[test]
fn a_unit_finds_its_own_track() {
    let description = Description::new(vec![h264(), aac()]).unwrap();
    let audio = description.tracks()[1].id();
    assert_eq!(description.track(audio).unwrap().kind(), Kind::Audio);
}

#[test]
fn an_id_from_another_description_finds_nothing() {
    let two = Description::new(vec![h264(), aac()]).unwrap();
    let one = Description::new(vec![h264()]).unwrap();
    assert_eq!(one.track(two.tracks()[1].id()), None);
}

#[test]
fn what_a_track_is_comes_from_its_codec() {
    assert_eq!(h264().kind(), Kind::Video);
    assert_eq!(aac().kind(), Kind::Audio);
}

#[test]
fn a_clock_rate_is_fixed_for_pictures_and_the_sample_rate_for_sound() {
    assert_eq!(h264().clock_rate(), 90_000);
    assert_eq!(aac().clock_rate(), 44100);
}

#[test]
fn an_egress_can_ask_for_one_kind() {
    let description = Description::new(vec![aac(), h264(), aac()]).unwrap();
    let audio: Vec<_> = description
        .of_kind(Kind::Audio)
        .into_iter()
        .map(|track| track.id().index())
        .collect();
    assert_eq!(audio, [0, 2]);
    assert_eq!(description.of_kind(Kind::Video).len(), 1);
}

#[test]
fn a_stream_with_no_tracks_is_refused() {
    assert_eq!(
        Description::new(Vec::new()),
        Err(DescriptionError::NoTracks)
    );
}

#[test]
fn a_video_track_a_reader_could_not_start_on_is_refused() {
    let no_pps = Codec::H264(h264::Parameters {
        sps: vec![h264::Nal::new(Bytes::from_static(&[0x67, 0x42])).unwrap()],
        pps: Vec::new(),
    });
    assert_eq!(
        Description::new(vec![aac(), no_pps]),
        Err(DescriptionError::MissingParameterSet {
            index: 1,
            missing: "PPS"
        })
    );

    let no_sps = Codec::H264(h264::Parameters {
        sps: Vec::new(),
        pps: Vec::new(),
    });
    assert_eq!(
        Description::new(vec![no_sps]),
        Err(DescriptionError::MissingParameterSet {
            index: 0,
            missing: "SPS"
        })
    );
}
