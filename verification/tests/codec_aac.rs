use bytes::{BufMut, Bytes, BytesMut};
use relaybay::codec::aac::{AacError, Parameters};

/// Packs `(value, width)` fields into a record, so that a test says what
/// it is building rather than what the bytes came out as.
fn record(fields: &[(u32, usize)]) -> Bytes {
    let mut bits = Vec::new();
    for (value, width) in fields {
        for shift in (0..*width).rev() {
            bits.push(((value >> shift) & 1) as u8);
        }
    }
    let mut out = BytesMut::new();
    for byte in bits.chunks(8) {
        out.put_u8(byte.iter().fold(0, |packed, bit| (packed << 1) | bit) << (8 - byte.len()));
    }
    out.freeze()
}

#[test]
fn the_record_every_encoder_sends_reads_as_what_it_is() {
    // Two bytes an OBS or FFmpeg stream opens with, verbatim: AAC-LC,
    // 44.1 kHz, stereo.
    let parameters = Parameters::parse(Bytes::from_static(&[0x12, 0x10])).unwrap();
    assert_eq!(parameters.object_type(), 2);
    assert_eq!(parameters.sample_rate(), 44100);
    assert_eq!(parameters.channels(), 2);

    // And the one for 48 kHz.
    let parameters = Parameters::parse(Bytes::from_static(&[0x11, 0x90])).unwrap();
    assert_eq!(parameters.sample_rate(), 48000);
    assert_eq!(parameters.channels(), 2);
}

#[test]
fn the_record_is_handed_back_exactly_as_it_arrived() {
    // Trailing bytes this does not read have to survive: they are what
    // an SBR extension is written in, and a reader downstream needs them
    // even though nothing here understands them.
    let config = Bytes::from_static(&[0x12, 0x10, 0x56, 0xe5, 0x00]);
    let parameters = Parameters::parse(config.clone()).unwrap();
    assert_eq!(parameters.config(), &config);
    assert_eq!(parameters.object_type(), 2);
}

#[test]
fn every_sampling_frequency_index_reads_as_its_rate() {
    let rates = [
        96000, 88200, 64000, 48000, 44100, 32000, 24000, 22050, 16000, 12000, 11025, 8000, 7350,
    ];
    for (index, rate) in rates.iter().enumerate() {
        let config = record(&[(2, 5), (index as u32, 4), (2, 4)]);
        let parameters = Parameters::parse(config).expect("a defined index");
        assert_eq!(parameters.sample_rate(), *rate, "{index}");
    }
}

#[test]
fn a_rate_outside_the_table_is_written_out_in_full() {
    let config = record(&[(2, 5), (15, 4), (44100, 24), (2, 4)]);
    let parameters = Parameters::parse(config).unwrap();
    assert_eq!(parameters.sample_rate(), 44100);
    assert_eq!(parameters.channels(), 2);
}

#[test]
fn an_object_type_past_the_five_bits_uses_the_escape() {
    let config = record(&[(31, 5), (0, 6), (4, 4), (2, 4)]);
    let parameters = Parameters::parse(config).unwrap();
    assert_eq!(parameters.object_type(), 32);
    assert_eq!(parameters.sample_rate(), 44100);
}

#[test]
fn every_channel_configuration_reads_as_its_count() {
    let channels = [0, 1, 2, 3, 4, 5, 6, 8];
    for (configuration, count) in channels.iter().enumerate().skip(1) {
        let config = record(&[(2, 5), (4, 4), (configuration as u32, 4)]);
        let parameters = Parameters::parse(config).expect("a stated layout");
        assert_eq!(parameters.channels(), *count, "{configuration}");
    }
}

#[test]
fn a_reserved_sampling_frequency_index_is_refused() {
    for index in [13, 14] {
        let config = record(&[(2, 5), (index, 4), (2, 4)]);
        assert_eq!(
            Parameters::parse(config),
            Err(AacError::ReservedSampleRate(index as u8))
        );
    }
}

#[test]
fn a_record_that_does_not_state_its_channels_is_refused() {
    let config = record(&[(2, 5), (4, 4), (0, 4)]);
    assert_eq!(Parameters::parse(config), Err(AacError::ChannelsNotStated));
}

#[test]
fn the_null_object_type_is_refused() {
    let config = record(&[(0, 5), (4, 4), (2, 4)]);
    assert_eq!(Parameters::parse(config), Err(AacError::NoObjectType));
}

#[test]
fn a_record_that_ends_mid_field_is_refused() {
    // One byte holds the five bits of object type and three of the four
    // the sampling frequency index needs.
    assert_eq!(
        Parameters::parse(Bytes::from_static(&[0x12])),
        Err(AacError::Truncated {
            offset: 5,
            needed: 1
        })
    );
    assert_eq!(
        Parameters::parse(Bytes::new()),
        Err(AacError::Truncated {
            offset: 0,
            needed: 5
        })
    );
}
