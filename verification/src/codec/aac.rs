//! AAC: what a decoder has to be told before the frames mean anything.
//!
//! # The one record, under four names
//!
//! H.264 keeps its parameter sets in the stream and every protocol wraps
//! them differently. AAC does the opposite: there is one record, the
//! `AudioSpecificConfig`, and each protocol carries the same bytes somewhere
//! of its own: RTMP as the AAC sequence header, MP4 inside an `esds` box, SDP
//! as the hex `config` parameter. So there is nothing here that corresponds to
//! [`crate::codec::h264::AvcConfig`]: the neutral form and the wire form are
//! the same bytes.
//!
//! Which is why [`Parameters`] keeps them verbatim and hands them back
//! unchanged. Only the first three fields are read, for the callers that
//! need the numbers, and everything after them is carried without being
//! understood. Re-encoding a record we only partly read would drop whatever we
//! had not learned to write.
//!
//! # What the frames are
//!
//! Raw access units, with no ADTS header. An ADTS header is a framing, the
//! way a start code is for H.264, and it belongs to the protocols that ask
//! for one rather than to the stream.

use crate::buffer::{octets, Contents};
use crate::text::same_bytes;
use bytes::Bytes;
use vstd::arithmetic::power2::{lemma2_to64, lemma_pow2_strictly_increases, lemma_pow2_unfold, pow2};
use vstd::prelude::*;

verus! {

/// What can be wrong with an `AudioSpecificConfig`.
#[derive(Debug, PartialEq, Eq)]
pub enum AacError {
    /// The record ended in the middle of a field.
    Truncated { offset: usize, needed: usize },
    /// Object type 0 is the null codec, which decodes to silence and is not
    /// something a stream is published in.
    NoObjectType,
    /// A sampling frequency index that is reserved.
    ReservedSampleRate(u8),
    /// A channel configuration of 0 says the layout is in a program config
    /// element further into the record, which this does not read. Refused
    /// rather than guessed at: every protocol downstream has to state a
    /// channel count, and a wrong one is not a thing a listener can correct
    /// for.
    ChannelsNotStated,
}

/// A bit of a run of bytes, counting from the highest bit of the first.
pub open spec fn bit_at(s: Seq<u8>, at: int) -> u8 {
    (s[at / 8] >> ((7 - at % 8) as u8)) & 1
}

/// The number that `count` bits from `offset` write, the highest first.
pub open spec fn bits_at(s: Seq<u8>, offset: int, count: nat) -> nat
    decreases count,
{
    if count == 0 {
        0
    } else {
        2 * bits_at(s, offset, (count - 1) as nat) + bit_at(s, offset + count - 1) as nat
    }
}

/// The field of `count` bits at `offset`, or by how many bits it is short.
pub open spec fn field_at(s: Seq<u8>, offset: int, count: nat) -> Result<nat, AacError> {
    if offset + count > s.len() * 8 {
        Err(
            AacError::Truncated {
                offset: offset as usize,
                needed: (offset + count - s.len() * 8) as usize,
            },
        )
    } else {
        Ok(bits_at(s, offset, count))
    }
}

/// The sampling frequency an index stands for. 13 and 14 are reserved.
pub open spec fn rate_of(index: nat) -> Option<u32> {
    if index == 0 {
        Some(96000)
    } else if index == 1 {
        Some(88200)
    } else if index == 2 {
        Some(64000)
    } else if index == 3 {
        Some(48000)
    } else if index == 4 {
        Some(44100)
    } else if index == 5 {
        Some(32000)
    } else if index == 6 {
        Some(24000)
    } else if index == 7 {
        Some(22050)
    } else if index == 8 {
        Some(16000)
    } else if index == 9 {
        Some(12000)
    } else if index == 10 {
        Some(11025)
    } else if index == 11 {
        Some(8000)
    } else if index == 12 {
        Some(7350)
    } else {
        None
    }
}

/// How many channels a configuration stands for. 0 means the layout is
/// described further in, in a part of the record this does not read.
pub open spec fn channels_of(configuration: nat) -> Option<u8> {
    if 1 <= configuration <= 6 {
        Some(configuration as u8)
    } else if configuration == 7 {
        Some(8)
    } else {
        None
    }
}

/// The object type of a record, and where the field after it starts.
///
/// Five bits, unless they are all ones, in which case six more follow and
/// count from 32.
pub open spec fn object_type_of(s: Seq<u8>) -> Result<(nat, int), AacError> {
    match field_at(s, 0, 5) {
        Err(error) => Err(error),
        Ok(short) => {
            let field = if short == 31 {
                match field_at(s, 5, 6) {
                    Err(error) => Err(error),
                    Ok(more) => Ok((more + 32, 11int)),
                }
            } else {
                Ok((short, 5int))
            };
            match field {
                Err(error) => Err(error),
                Ok((object_type, next)) => if object_type == 0 {
                    Err(AacError::NoObjectType)
                } else {
                    Ok((object_type, next))
                },
            }
        },
    }
}

/// The sample rate of a record, and where the field after it starts: an index
/// into the table of rates anything actually uses, or the escape that says the
/// rate is spelled out.
pub open spec fn sample_rate_of(s: Seq<u8>, at: int) -> Result<(nat, int), AacError> {
    match field_at(s, at, 4) {
        Err(error) => Err(error),
        Ok(index) => if index == 15 {
            match field_at(s, at + 4, 24) {
                Err(error) => Err(error),
                Ok(rate) => Ok((rate, at + 28)),
            }
        } else {
            match rate_of(index) {
                Some(rate) => Ok((rate as nat, at + 4)),
                None => Err(AacError::ReservedSampleRate(index as u8)),
            }
        },
    }
}

/// What the first three fields of a record say.
pub struct Fields {
    pub object_type: nat,
    pub sample_rate: nat,
    pub channels: nat,
}

/// What a record says, or what is wrong with it.
pub open spec fn fields_of(s: Seq<u8>) -> Result<Fields, AacError> {
    match object_type_of(s) {
        Err(error) => Err(error),
        Ok((object_type, at)) => match sample_rate_of(s, at) {
            Err(error) => Err(error),
            Ok((sample_rate, at)) => match field_at(s, at, 4) {
                Err(error) => Err(error),
                Ok(configuration) => match channels_of(configuration) {
                    None => Err(AacError::ChannelsNotStated),
                    Some(channels) => Ok(
                        Fields { object_type, sample_rate, channels: channels as nat },
                    ),
                },
            },
        },
    }
}

/// What a decoder has to be given before any of the stream means anything.
///
/// The fields are private so that the numbers and the bytes can never
/// disagree: the numbers are read out of the record when it is parsed, and
/// the record cannot then be replaced under them.
#[derive(Debug, PartialEq, Eq)]
pub struct Parameters {
    config: Bytes,
    object_type: u8,
    sample_rate: u32,
    channels: u8,
}

/// What a [`Parameters`] is: the bytes of its record.
impl View for Parameters {
    type V = Seq<u8>;

    closed spec fn view(&self) -> Seq<u8> {
        self.config@
    }
}

impl Clone for Parameters {
    fn clone(&self) -> (copy: Self)
        ensures
            copy@ == self@,
    {
        proof {
            use_type_invariant(self);
        }
        Self {
            config: self.config.clone(),
            object_type: self.object_type,
            sample_rate: self.sample_rate,
            channels: self.channels,
        }
    }
}

impl Parameters {
    #[verifier::type_invariant]
    spec fn fields_are_read_from_config(self) -> bool {
        fields_of(self.config@) == Ok::<_, AacError>(
            Fields {
                object_type: self.object_type as nat,
                sample_rate: self.sample_rate as nat,
                channels: self.channels as nat,
            },
        )
    }

    /// Reads an `AudioSpecificConfig` as RTMP's AAC sequence header, MP4's
    /// `esds` box and SDP's `config` parameter all carry it.
    ///
    /// Everything after the three fields is the object type's own
    /// configuration, and is carried without being read. See the module docs.
    pub fn parse(config: Bytes) -> (outcome: Result<Self, AacError>)
        ensures
            match outcome {
                Ok(parameters) => fields_of(config@) is Ok && parameters@ == config@,
                Err(error) => fields_of(config@) == Err::<Fields, _>(error),
            },
    {
        let data = octets(&config);
        let (object_type, at): (u32, usize) = match read_object_type(data) {
            Ok(read) => read,
            Err(error) => {
                return Err(error);
            },
        };
        let (sample_rate, at): (u32, usize) = match read_sample_rate(data, at) {
            Ok(read) => read,
            Err(error) => {
                return Err(error);
            },
        };
        let configuration: u32 = match read_bits(data, at, 4) {
            Ok(configuration) => configuration,
            Err(error) => {
                return Err(error);
            },
        };
        let channels: u8 = if 1 <= configuration && configuration <= 6 {
            configuration as u8
        } else if configuration == 7 {
            8
        } else {
            return Err(AacError::ChannelsNotStated);
        };
        Ok(Self { config, object_type: object_type as u8, sample_rate, channels })
    }

    /// The record, unchanged, for the protocol that has to state it.
    pub fn config(&self) -> (config: &Bytes)
        ensures
            config@ == self@,
    {
        &self.config
    }

    /// Which AAC this is: 2 for the low-complexity profile every encoder
    /// sends, and what an HLS playlist writes after `mp4a.40.`.
    pub fn object_type(&self) -> (object_type: u8)
        ensures
            fields_of(self@) matches Ok(fields) && object_type == fields.object_type,
    {
        proof {
            use_type_invariant(self);
        }
        self.object_type
    }

    /// Samples per second, which is also an RTP clock rate.
    ///
    /// For a stream using the SBR extension this is the rate of the base
    /// layer, which is the one RTP counts in and half of what comes out of a
    /// decoder. The extension is in the record and reaches every reader; it
    /// is only this number that describes the layer under it.
    pub fn sample_rate(&self) -> (sample_rate: u32)
        ensures
            fields_of(self@) matches Ok(fields) && sample_rate == fields.sample_rate,
    {
        proof {
            use_type_invariant(self);
        }
        self.sample_rate
    }

    /// How many channels, which every protocol downstream has to restate.
    pub fn channels(&self) -> (channels: u8)
        ensures
            fields_of(self@) matches Ok(fields) && channels == fields.channels,
    {
        proof {
            use_type_invariant(self);
        }
        self.channels
    }

    /// Whether two are the same record.
    pub fn same(&self, other: &Parameters) -> (same: bool)
        ensures
            same == (self@ == other@),
    {
        same_bytes(octets(&self.config), octets(&other.config))
    }
}

fn read_object_type(data: &[u8]) -> (outcome: Result<(u32, usize), AacError>)
    ensures
        match outcome {
            Ok((object_type, at)) => object_type_of(data@) == Ok::<_, AacError>(
                (object_type as nat, at as int),
            ) && object_type <= 95 && at <= 11,
            Err(error) => object_type_of(data@) == Err::<(nat, int), _>(error),
        },
{
    proof {
        lemma2_to64();
    }
    let short: u32 = match read_bits(data, 0, 5) {
        Ok(short) => short,
        Err(error) => {
            return Err(error);
        },
    };
    if short == 0 {
        return Err(AacError::NoObjectType);
    }
    if short != 31 {
        return Ok((short, 5));
    }
    match read_bits(data, 5, 6) {
        Ok(more) => Ok((more + 32, 11)),
        Err(error) => Err(error),
    }
}

fn read_sample_rate(data: &[u8], at: usize) -> (outcome: Result<(u32, usize), AacError>)
    requires
        at <= 11,
    ensures
        match outcome {
            Ok((rate, next)) => sample_rate_of(data@, at as int) == Ok::<_, AacError>(
                (rate as nat, next as int),
            ) && next <= 39,
            Err(error) => sample_rate_of(data@, at as int) == Err::<(nat, int), _>(error),
        },
{
    let index: u32 = match read_bits(data, at, 4) {
        Ok(index) => index,
        Err(error) => {
            return Err(error);
        },
    };
    let rate: u32 = match index {
        0 => 96000,
        1 => 88200,
        2 => 64000,
        3 => 48000,
        4 => 44100,
        5 => 32000,
        6 => 24000,
        7 => 22050,
        8 => 16000,
        9 => 12000,
        10 => 11025,
        11 => 8000,
        12 => 7350,
        15 => {
            return match read_bits(data, at + 4, 24) {
                Ok(rate) => Ok((rate, at + 28)),
                Err(error) => Err(error),
            };
        },
        _ => {
            return Err(AacError::ReservedSampleRate(index as u8));
        },
    };
    Ok((rate, at + 4))
}

proof fn lemma_bits_bound(s: Seq<u8>, offset: int, count: nat)
    ensures
        bits_at(s, offset, count) < pow2(count),
    decreases count,
{
    lemma2_to64();
    if count > 0 {
        lemma_bits_bound(s, offset, (count - 1) as nat);
        lemma_pow2_unfold(count);
        let (byte, shift) = (s[(offset + count - 1) / 8], (7 - (offset + count - 1) % 8) as u8);
        assert((byte >> shift) & 1 <= 1) by (bit_vector);
    }
}

/// Reads a field that does not fall on a byte boundary, which is most of what
/// an `AudioSpecificConfig` is made of.
fn read_bits(data: &[u8], offset: usize, count: usize) -> (outcome: Result<u32, AacError>)
    requires
        offset <= 64,
        count <= 24,
    ensures
        match outcome {
            Ok(value) => field_at(data@, offset as int, count as nat) == Ok::<_, AacError>(
                value as nat,
            ) && value < pow2(count as nat),
            Err(error) => field_at(data@, offset as int, count as nat) == Err::<nat, _>(error),
        },
{
    let end: usize = offset + count;
    if data.len() < (end + 7) / 8 {
        return Err(AacError::Truncated { offset, needed: end - data.len() * 8 });
    }
    let mut value: u32 = 0;
    let mut read: usize = 0;
    proof {
        lemma2_to64();
    }
    while read < count
        invariant
            read <= count <= 24,
            offset <= 64,
            offset + count <= data@.len() * 8,
            value == bits_at(data@, offset as int, read as nat),
        decreases count - read,
    {
        proof {
            lemma_bits_bound(data@, offset as int, read as nat);
            lemma2_to64();
            if read < 23 {
                lemma_pow2_strictly_increases(read as nat, 24);
            }
        }
        let at: usize = offset + read;
        let shift: u8 = (7 - at % 8) as u8;
        let bit: u8 = (data[at / 8] >> shift) & 1;
        assert(bit <= 1) by {
            let byte = data@[at as int / 8];
            assert((byte >> shift) & 1 <= 1) by (bit_vector);
        }
        value = value * 2 + bit as u32;
        read = read + 1;
    }
    proof {
        lemma_bits_bound(data@, offset as int, count as nat);
    }
    Ok(value)
}

/// A run of bits is the run before any place in it, followed by the rest.
proof fn lemma_bits_join(s: Seq<u8>, offset: int, first: nat, second: nat)
    ensures
        bits_at(s, offset, first + second) == bits_at(s, offset, first) * pow2(second) + bits_at(
            s,
            offset + first,
            second,
        ),
    decreases second,
{
    lemma2_to64();
    let high = bits_at(s, offset, first);
    if second == 0 {
        assert(high * pow2(0) == high) by (nonlinear_arith)
            requires
                pow2(0) == 1,
        ;
    } else {
        let fewer = (second - 1) as nat;
        lemma_bits_join(s, offset, first, fewer);
        lemma_pow2_unfold(second);
        let half = pow2(fewer);
        assert(high * (2 * half) == 2 * (high * half)) by (nonlinear_arith);
        assert((first + second - 1) as nat == first + fewer);
        let bit = bit_at(s, offset + first + second - 1) as nat;
        assert(bits_at(s, offset + first, second) == 2 * bits_at(s, offset + first, fewer) + bit);
        assert(bits_at(s, offset, first + second) == 2 * bits_at(s, offset, first + fewer) + bit);
    }
}

/// A run of bits inside one byte.
proof fn lemma_bits_within(s: Seq<u8>, byte: int, skipped: u16, count: u16)
    requires
        0 <= byte,
        skipped + count <= 8,
    ensures
        bits_at(s, 8 * byte + skipped, count as nat) == ((s[byte] as u16) >> ((8 - skipped
            - count) as u16)) & (((1u16 << count) - 1) as u16),
    decreases count,
{
    let b = s[byte];
    let x = b as u16;
    if count == 0 {
        let all = (8 - skipped) as u16;
        assert((x >> all) & (((1u16 << 0u16) - 1) as u16) == 0) by (bit_vector);
    } else {
        let fewer = (count - 1) as u16;
        lemma_bits_within(s, byte, skipped, fewer);
        let at = 8 * byte + skipped + count - 1;
        assert(at / 8 == byte && at % 8 == skipped + count - 1);
        let shift = (8 - skipped - count) as u16;
        let (wider, narrow) = ((8 - skipped - fewer) as u16, shift as u8);
        assert(2 * ((x >> wider) & (((1u16 << fewer) - 1) as u16)) + ((b >> narrow) & 1) == (x
            >> shift) & (((1u16 << count) - 1) as u16)) by (bit_vector)
            requires
                x == b as u16,
                shift <= 7,
                1 <= count <= 8,
                fewer == count - 1,
                wider == shift + 1,
                narrow == shift as u8,
        ;
    }
}

/// The runs of bits that the fields of a record are made of, byte by byte.
proof fn lemma_runs(s: Seq<u8>, byte: int)
    requires
        0 <= byte,
    ensures
        bits_at(s, 8 * byte, 8) == s[byte],
        bits_at(s, 8 * byte, 7) == s[byte] / 2,
        bits_at(s, 8 * byte, 5) == s[byte] / 8,
        bits_at(s, 8 * byte, 3) == s[byte] / 32,
        bits_at(s, 8 * byte, 1) == s[byte] / 128,
        bits_at(s, 8 * byte + 1, 4) == s[byte] / 8 % 16,
        bits_at(s, 8 * byte + 1, 7) == s[byte] % 128,
        bits_at(s, 8 * byte + 3, 4) == s[byte] % 32 / 2,
        bits_at(s, 8 * byte + 5, 3) == s[byte] % 8,
        bits_at(s, 8 * byte + 7, 1) == s[byte] % 2,
{
    lemma_bits_within(s, byte, 0, 8);
    lemma_bits_within(s, byte, 0, 7);
    lemma_bits_within(s, byte, 0, 5);
    lemma_bits_within(s, byte, 0, 3);
    lemma_bits_within(s, byte, 0, 1);
    lemma_bits_within(s, byte, 1, 4);
    lemma_bits_within(s, byte, 1, 7);
    lemma_bits_within(s, byte, 3, 4);
    lemma_bits_within(s, byte, 5, 3);
    lemma_bits_within(s, byte, 7, 1);
    let x = s[byte] as u16;
    assert({
        &&& (x >> 0u16) & (((1u16 << 8u16) - 1) as u16) == x
        &&& (x >> 1u16) & (((1u16 << 7u16) - 1) as u16) == x / 2
        &&& (x >> 3u16) & (((1u16 << 5u16) - 1) as u16) == x / 8
        &&& (x >> 5u16) & (((1u16 << 3u16) - 1) as u16) == x / 32
        &&& (x >> 7u16) & (((1u16 << 1u16) - 1) as u16) == x / 128
        &&& (x >> 3u16) & (((1u16 << 4u16) - 1) as u16) == x / 8 % 16
        &&& (x >> 0u16) & (((1u16 << 7u16) - 1) as u16) == x % 128
        &&& (x >> 1u16) & (((1u16 << 4u16) - 1) as u16) == x % 32 / 2
        &&& (x >> 0u16) & (((1u16 << 3u16) - 1) as u16) == x % 8
        &&& (x >> 0u16) & (((1u16 << 1u16) - 1) as u16) == x % 2
    }) by (bit_vector)
        requires
            x < 256,
    ;
}

/// What an index and a configuration stand for: the thirteen rates in order, and
/// as many channels as the configuration says but for the last, which is eight.
pub proof fn law_indices_stand_for_rates(index: nat, configuration: nat)
    ensures
        index < 13 ==> rate_of(index) == Some(
            seq![
                96000u32, 88200, 64000, 48000, 44100, 32000, 24000, 22050, 16000, 12000, 11025,
                8000, 7350,
            ][index as int],
        ),
        index >= 13 ==> rate_of(index) is None,
        1 <= configuration < 7 ==> channels_of(configuration) == Some(configuration as u8),
        configuration == 7 ==> channels_of(configuration) == Some(8u8),
        configuration == 0 || configuration > 7 ==> channels_of(configuration) is None,
{
}

/// What a record says of its stream: an object type, and a rate and a channel
/// configuration that both stand for something.
pub open spec fn says(
    s: Seq<u8>,
    object_type: int,
    rate: Option<u32>,
    index: int,
    configuration: int,
) -> bool {
    match (rate, channels_of(configuration as nat)) {
        (None, _) => fields_of(s) == Err::<Fields, _>(AacError::ReservedSampleRate(index as u8)),
        (Some(_), None) => fields_of(s) == Err::<Fields, _>(AacError::ChannelsNotStated),
        (Some(rate), Some(channels)) => fields_of(s) == Ok::<_, AacError>(
            Fields {
                object_type: object_type as nat,
                sample_rate: rate as nat,
                channels: channels as nat,
            },
        ),
    }
}

/// Where the three fields stand, in each of the shapes that a record has: the
/// object type in five bits or, where those are all ones, in the six after them
/// counting from 32; then the rate as an index of four bits or, where those are
/// all ones, in the 24 after them; and then four bits of channels.
pub proof fn law_fields_stand_in_their_bits(s: Seq<u8>)
    requires
        s.len() >= 6,
    ensures
        ({
            let index = s[0] % 8 * 2 + s[1] / 128;
            let late = s[1] as int % 32 / 2;
            let long = 32 + s[0] % 8 * 8 + s[1] / 32;
            &&& s[0] / 8 == 0 ==> fields_of(s) == Err::<Fields, _>(AacError::NoObjectType)
            &&& 0 < s[0] / 8 < 31 && index != 15 ==> says(
                s,
                s[0] as int / 8,
                rate_of(index as nat),
                index,
                s[1] as int / 8 % 16,
            )
            &&& 0 < s[0] / 8 < 31 && index == 15 ==> says(
                s,
                s[0] as int / 8,
                Some((s[1] % 128 * 0x2_0000 + s[2] * 0x200 + s[3] * 2 + s[4] / 128) as u32),
                index,
                s[4] as int / 8 % 16,
            )
            &&& s[0] / 8 == 31 && late != 15 ==> says(
                s,
                long,
                rate_of(late as nat),
                late,
                s[1] % 2 * 8 + s[2] / 32,
            )
            &&& s[0] / 8 == 31 && late == 15 ==> says(
                s,
                long,
                Some((s[1] % 2 * 0x80_0000 + s[2] * 0x8000 + s[3] * 0x80 + s[4] / 2) as u32),
                late,
                s[4] % 2 * 8 + s[5] / 32,
            )
        }),
{
    lemma2_to64();
    lemma_runs(s, 0);
    lemma_runs(s, 1);
    lemma_runs(s, 2);
    lemma_runs(s, 3);
    lemma_runs(s, 4);
    lemma_runs(s, 5);
    // The index and the channels of a short object type.
    lemma_bits_join(s, 5, 3, 1);
    // A rate that is spelled out after one.
    lemma_bits_join(s, 9, 7, 17);
    lemma_bits_join(s, 16, 8, 9);
    lemma_bits_join(s, 24, 8, 1);
    // A long object type.
    lemma_bits_join(s, 5, 3, 3);
    // The channels after it, and a rate that is spelled out.
    lemma_bits_join(s, 15, 1, 3);
    lemma_bits_join(s, 15, 1, 23);
    lemma_bits_join(s, 16, 8, 15);
    lemma_bits_join(s, 24, 8, 7);
    lemma_bits_join(s, 39, 1, 3);
}

proof fn lemma_bits_stay(s: Seq<u8>, more: Seq<u8>, offset: int, count: nat)
    requires
        0 <= offset,
        offset + count <= s.len() * 8,
    ensures
        bits_at(s + more, offset, count) == bits_at(s, offset, count),
    decreases count,
{
    if count > 0 {
        lemma_bits_stay(s, more, offset, (count - 1) as nat);
        assert((s + more)[(offset + count - 1) / 8] == s[(offset + count - 1) / 8]);
    }
}

/// What follows the three fields changes nothing: a record that is read, or is
/// refused for what it says, goes on to be so whatever follows it, and only one
/// that was cut short can become another.
pub proof fn law_bytes_after_the_fields_change_nothing(record: Seq<u8>, more: Seq<u8>)
    ensures
        fields_of(record + more) == fields_of(record) || ends_early(record),
{
    let s = record;
    if s.len() * 8 >= 5 {
        lemma_bits_stay(s, more, 0, 5);
    }
    if s.len() * 8 >= 11 {
        lemma_bits_stay(s, more, 5, 6);
    }
    if let Ok((_, at)) = object_type_of(s) {
        if s.len() * 8 >= at + 4 {
            lemma_bits_stay(s, more, at, 4);
        }
        if s.len() * 8 >= at + 28 {
            lemma_bits_stay(s, more, at + 4, 24);
        }
        if let Ok((_, at)) = sample_rate_of(s, at) {
            if s.len() * 8 >= at + 4 {
                lemma_bits_stay(s, more, at, 4);
            }
        }
    }
}

/// Whether a record ends in the middle of a field.
pub open spec fn ends_early(s: Seq<u8>) -> bool {
    match fields_of(s) {
        Ok(_) => false,
        Err(error) => error is Truncated,
    }
}

/// A record is read from as few bytes as its fields take: two in the usual form,
/// five where the rate is spelled out, and one byte of any record is too few.
pub proof fn law_records_take_as_many_bytes_as_their_fields(s: Seq<u8>)
    ensures
        s.len() == 0 ==> ends_early(s),
        s.len() == 1 ==> (ends_early(s) <==> s[0] / 8 != 0),
        s.len() >= 2 && 0 < s[0] / 8 < 31 ==> (ends_early(s) <==> s.len() < 5 && s[0] % 8 * 2
            + s[1] / 128 == 15),
{
    lemma2_to64();
    lemma_runs(s, 0);
    lemma_runs(s, 1);
    lemma_bits_join(s, 5, 3, 1);
}

/// The numbers of a record stay within what the format can say.
pub proof fn law_fields_are_bounded(s: Seq<u8>)
    ensures
        fields_of(s) matches Ok(fields) ==> 0 < fields.object_type < 96 && fields.sample_rate
            < 0x100_0000 && 0 < fields.channels <= 8,
{
    lemma2_to64();
    lemma_bits_bound(s, 0, 5);
    lemma_bits_bound(s, 5, 6);
    if let Ok((_, at)) = object_type_of(s) {
        lemma_bits_bound(s, at + 4, 24);
    }
}

} // verus!
