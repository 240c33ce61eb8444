use bytes::{BufMut, Bytes, BytesMut};
use relaybay::codec::h264::{
    is_keyframe, split_annex_b, split_length_prefixed, to_annex_b, to_length_prefixed, AvcConfig,
    H264Error, Nal, NalType, Parameters,
};

fn nal(bytes: &'static [u8]) -> Nal {
    Nal::new(Bytes::from_static(bytes)).expect("not empty")
}

/// A syntactically plausible SPS: header byte, then the profile,
/// constraint and level bytes an `AvcConfig` writes back out.
fn sps() -> Nal {
    nal(&[0x67, 0x42, 0xc0, 0x1e, 0xd9, 0x00, 0x80])
}

fn pps() -> Nal {
    nal(&[0x68, 0xce, 0x3c, 0x80])
}

fn idr() -> Nal {
    nal(&[0x65, 0x88, 0x84, 0x00])
}

#[test]
fn a_unit_knows_what_it_is() {
    assert_eq!(sps().kind(), NalType::Sps);
    assert_eq!(pps().kind(), NalType::Pps);
    assert_eq!(idr().kind(), NalType::Idr);
    // The reference-idc bits above the type are not part of it.
    assert_eq!(nal(&[0x41, 0x9a]).kind(), NalType::Slice);
    assert_eq!(nal(&[0x1c, 0x00]).kind(), NalType::Other(28));
}

#[test]
fn a_type_round_trips_through_its_number() {
    for byte in 0..=0x1fu8 {
        assert_eq!(NalType::from_header(byte).value(), byte);
    }
}

#[test]
fn an_empty_unit_is_not_one() {
    assert_eq!(Nal::new(Bytes::new()), None);
}

#[test]
fn splits_both_start_code_widths() {
    let mut stream = BytesMut::new();
    stream.put_slice(&[0, 0, 0, 1]);
    stream.put_slice(sps().data());
    stream.put_slice(&[0, 0, 1]);
    stream.put_slice(pps().data());
    stream.put_slice(&[0, 0, 0, 1]);
    stream.put_slice(idr().data());

    let nalus = split_annex_b(&stream.freeze());
    assert_eq!(nalus, vec![sps(), pps(), idr()]);
}

#[test]
fn a_unit_ending_in_zeros_keeps_them() {
    // The last byte of `idr()` is zero, and the next start code begins
    // after it. Ending a unit at "three bytes before the next unit"
    // rather than at where the next start code begins would eat it.
    let mut stream = BytesMut::new();
    stream.put_slice(&[0, 0, 0, 1]);
    stream.put_slice(idr().data());
    stream.put_slice(&[0, 0, 0, 1]);
    stream.put_slice(pps().data());

    let nalus = split_annex_b(&stream.freeze());
    assert_eq!(nalus, vec![idr(), pps()]);
}

#[test]
fn annex_b_round_trips() {
    let nalus = vec![sps(), pps(), idr()];
    assert_eq!(split_annex_b(&to_annex_b(&nalus)), nalus);
}

#[test]
fn length_prefixed_round_trips_at_every_width() {
    let nalus = vec![sps(), pps(), idr()];
    for size in [1, 2, 4] {
        let framed = to_length_prefixed(&nalus, size).expect("units are short");
        assert_eq!(
            split_length_prefixed(&framed, size).unwrap(),
            nalus,
            "{size}"
        );
    }
}

#[test]
fn a_truncated_length_prefixed_unit_is_refused() {
    let framed = to_length_prefixed(&[idr()], 4).unwrap();
    let short = framed.slice(..framed.len() - 1);
    assert_eq!(
        split_length_prefixed(&short, 4),
        Err(H264Error::Truncated {
            offset: 4,
            needed: 1
        })
    );
}

#[test]
fn the_wrong_prefix_width_is_refused_rather_than_misread() {
    // Read as 2-byte prefixes, the 4-byte framing's leading zeros make a
    // zero-length unit, which is the shape of the failure, not a
    // plausible stream.
    let framed = to_length_prefixed(&[idr()], 4).unwrap();
    assert!(split_length_prefixed(&framed, 2).is_err());
}

#[test]
fn a_unit_too_long_for_its_prefix_is_refused() {
    let long = Nal::new(Bytes::from(vec![0x65; 300])).unwrap();
    assert_eq!(
        to_length_prefixed(&[long], 1),
        Err(H264Error::NalUnitTooLong {
            length: 300,
            size: 1
        })
    );
}

fn parameters() -> Parameters {
    Parameters {
        sps: vec![sps()],
        pps: vec![pps()],
    }
}

fn config() -> AvcConfig {
    AvcConfig {
        parameters: parameters(),
        nal_length_size: 4,
    }
}

#[test]
fn config_round_trips() {
    let parsed = AvcConfig::parse(&config().to_bytes().unwrap()).unwrap();
    assert_eq!(parsed, config());
}

#[test]
fn config_takes_its_profile_from_the_sps() {
    let record = config().to_bytes().unwrap();
    assert_eq!(&record[1..4], &sps().data()[1..4]);
    assert_eq!(parameters().profile_level().unwrap(), &sps().data()[1..4]);
}

#[test]
fn parameters_without_an_sps_describe_nothing() {
    let empty = Parameters {
        sps: Vec::new(),
        pps: vec![pps()],
    };
    assert_eq!(
        empty.profile_level(),
        Err(H264Error::MissingParameterSet("SPS"))
    );
}

#[test]
fn a_config_without_a_pps_is_refused() {
    let mut record = BytesMut::new();
    record.put_slice(&[1, 0x42, 0xc0, 0x1e, 0xff, 0xe1]);
    record.put_u16(sps().data().len() as u16);
    record.put_slice(sps().data());
    record.put_u8(0);
    assert_eq!(
        AvcConfig::parse(&record.freeze()),
        Err(H264Error::MissingParameterSet("PPS"))
    );
}

#[test]
fn a_config_of_another_version_is_refused() {
    let record = Bytes::from_static(&[2, 0x42, 0xc0, 0x1e, 0xff, 0xe1]);
    assert_eq!(
        AvcConfig::parse(&record),
        Err(H264Error::UnsupportedConfigVersion(2))
    );
}

#[test]
fn a_keyframe_is_found_past_a_leading_sei() {
    let sei = nal(&[0x06, 0x05, 0x01, 0x80]);
    assert!(is_keyframe(&[sei.clone(), idr()]));
    assert!(!is_keyframe(&[sei, nal(&[0x41, 0x9a])]));
}
