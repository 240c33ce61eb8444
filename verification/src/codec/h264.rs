//! H.264: the two framings a NAL unit stream arrives in, and the parameter
//! sets that have to reach a decoder before any of it means anything.
//!
//! # The two framings
//!
//! A NAL unit stream is a list of units; a *framing* is how that list is
//! written as one run of bytes. There are two in use, and which one a
//! payload carries is decided by whoever handed it over, never by the codec:
//!
//! - **Annex-B** separates units with a start code (`00 00 01`, usually
//!   written with a leading zero as `00 00 00 01`). A reader scans for the
//!   pattern, so it can join a stream anywhere.
//! - **Length-prefixed** puts each unit's byte count in front of it. A
//!   reader seeks instead of scanning, at the cost of having to start from
//!   the beginning. MP4 and RTMP use it, and both describe the stream with
//!   an [`AvcConfig`] record that says how wide the prefix is.
//!
//! Neither is more correct, and the NAL units are byte-identical under both.
//!
//! # Where the parameter sets are
//!
//! An SPS and a PPS say what resolution, profile and coding tools a stream
//! uses. Without them a decoder cannot start, and every protocol solves that
//! differently. So what a relay has to hold is the sets themselves,
//! [`Parameters`], and be able to write them in whichever shape the next
//! protocol wants.

use crate::buffer::{get_u16, num16, octets, put_slice, put_u8, slice, Contents};
use crate::text::same_bytes;
use bytes::{Bytes, BytesMut};
use vstd::arithmetic::power::pow;
use vstd::prelude::*;
use vstd::slice::slice_subrange;

verus! {

/// The four-byte start code. The three-byte form is equally valid and is
/// recognized on input, but nothing here has a reason to emit it.
pub const START_CODE: [u8; 4] = [0, 0, 0, 1];

/// What a NAL unit is, from the `nal_unit_type` in its header byte.
///
/// These numbers mean this only in H.264. The same five bits in HEVC are six
/// bits at a different offset naming different things, which is why this enum
/// belongs to this module rather than to the units a relay passes around.
#[derive(Clone, Copy, Debug, PartialEq, Eq, Hash, Structural)]
pub enum NalType {
    /// A slice of a picture that is not an IDR.
    Slice,
    /// A slice of an IDR picture, which is where a reader can be started.
    ///
    /// Not merely a picture coded without reference to any other, but one that
    /// no later picture may reference across, so everything after it decodes
    /// with nothing before it.
    Idr,
    /// Supplemental enhancement information.
    Sei,
    /// A sequence parameter set.
    Sps,
    /// A picture parameter set.
    Pps,
    /// An access unit delimiter.
    Aud,
    /// Anything else, kept verbatim: a relay forwards what it does not
    /// recognize rather than dropping it.
    Other(u8),
}

/// What a unit is whose header byte is given: its low five bits say.
pub open spec fn nal_type(header: u8) -> NalType {
    let number = header % 32;
    if number == 1 {
        NalType::Slice
    } else if number == 5 {
        NalType::Idr
    } else if number == 6 {
        NalType::Sei
    } else if number == 7 {
        NalType::Sps
    } else if number == 8 {
        NalType::Pps
    } else if number == 9 {
        NalType::Aud
    } else {
        NalType::Other(number)
    }
}

impl NalType {
    /// The `nal_unit_type` this stands for.
    pub open spec fn spec_value(self) -> u8 {
        match self {
            Self::Slice => 1,
            Self::Idr => 5,
            Self::Sei => 6,
            Self::Sps => 7,
            Self::Pps => 8,
            Self::Aud => 9,
            Self::Other(value) => value,
        }
    }

    /// Reads the type out of a unit's header byte. The three bits above it
    /// are the forbidden-zero bit and `nal_ref_idc`, neither of which
    /// identifies a unit.
    pub fn from_header(byte: u8) -> (kind: Self)
        ensures
            kind == nal_type(byte),
            kind.spec_value() == byte % 32,
    {
        match byte % 32 {
            1 => Self::Slice,
            5 => Self::Idr,
            6 => Self::Sei,
            7 => Self::Sps,
            8 => Self::Pps,
            9 => Self::Aud,
            other => Self::Other(other),
        }
    }

    /// The `nal_unit_type` this stands for.
    pub fn value(self) -> (value: u8)
        ensures
            value == self.spec_value(),
    {
        match self {
            Self::Slice => 1,
            Self::Idr => 5,
            Self::Sei => 6,
            Self::Sps => 7,
            Self::Pps => 8,
            Self::Aud => 9,
            Self::Other(value) => value,
        }
    }
}

/// The type a header byte names stands for the byte's low five bits.
pub proof fn law_types_round_trip(header: u8)
    ensures
        nal_type(header).spec_value() == header % 32,
        nal_type(nal_type(header).spec_value()) == nal_type(header),
{
}

/// One NAL unit, unframed: neither a start code nor a length prefix, just
/// the unit's own bytes beginning at its header byte.
///
/// The fields are private so that the two can never disagree: the kind is
/// read out of the data when the unit is made, and the data cannot then be
/// replaced under it.
#[derive(Debug, PartialEq, Eq)]
pub struct Nal {
    kind: NalType,
    data: Bytes,
}

impl View for Nal {
    type V = Seq<u8>;

    closed spec fn view(&self) -> Seq<u8> {
        self.data@
    }
}

impl Clone for Nal {
    fn clone(&self) -> (copy: Self)
        ensures
            copy@ == self@,
    {
        proof {
            use_type_invariant(self);
        }
        Self { kind: self.kind, data: self.data.clone() }
    }
}

impl Nal {
    #[verifier::type_invariant]
    spec fn kind_is_read_from_data(self) -> bool {
        self.data@.len() > 0 && self.kind == nal_type(self.data@[0])
    }

    /// Takes `data` as one unframed NAL unit, or `None` for an empty one:
    /// every unit has at least the header byte its type is read from.
    pub fn new(data: Bytes) -> (nal: Option<Self>)
        ensures
            nal is Some <==> data@.len() > 0,
            nal matches Some(nal) ==> nal@ == data@,
    {
        let bytes = octets(&data);
        if bytes.len() == 0 {
            return None;
        }
        let kind = NalType::from_header(bytes[0]);
        Some(Self { kind, data })
    }

    /// What this unit is.
    pub fn kind(&self) -> (kind: NalType)
        ensures
            self@.len() > 0,
            kind == nal_type(self@[0]),
    {
        proof {
            use_type_invariant(self);
        }
        self.kind
    }

    /// The unit's bytes, header byte first.
    pub fn data(&self) -> (data: &Bytes)
        ensures
            data@ == self@,
            self@.len() > 0,
    {
        proof {
            use_type_invariant(self);
        }
        &self.data
    }

    /// The unit's bytes, for a caller assembling a payload out of them.
    pub fn into_data(self) -> (data: Bytes)
        ensures
            data@ == self@,
    {
        self.data
    }
}

/// The bytes of each unit of a list.
pub open spec fn units(nalus: Seq<Nal>) -> Seq<Seq<u8>> {
    nalus.map_values(|nal: Nal| nal@)
}

/// What can be wrong with a payload that claims to be H.264.
#[derive(Debug, PartialEq, Eq)]
pub enum H264Error {
    /// A length prefix or record field ran past the end of its buffer.
    Truncated { offset: usize, needed: usize },
    /// A NAL unit declared a length of zero, which no unit can have: it would
    /// carry not even a header byte.
    EmptyNalUnit { offset: usize },
    /// A NAL unit too long for the length prefix that has to describe it.
    NalUnitTooLong { length: usize, size: usize },
    /// The first byte of an `AVCDecoderConfigurationRecord` is a version
    /// number, and 1 is the only one defined.
    UnsupportedConfigVersion(u8),
    /// A record whose length prefixes are of a width that no payload uses:
    /// three, of the four that its two bits can say.
    UnsupportedLengthSize(usize),
    /// A record with no SPS or no PPS configures nothing.
    MissingParameterSet(&'static str),
}

/// Whether a list of units has one of a type.
pub open spec fn has(units: Seq<Seq<u8>>, kind: NalType) -> bool {
    exists|i: int| 0 <= i < units.len() && nal_type(#[trigger] units[i][0]) == kind
}

fn any(nalus: &[Nal], kind: NalType) -> (found: bool)
    ensures
        found == has(units(nalus@), kind),
{
    let mut i: usize = 0;
    while i < nalus.len()
        invariant
            i <= nalus@.len(),
            forall|j: int| 0 <= j < i ==> nal_type(#[trigger] units(nalus@)[j][0]) != kind,
        decreases nalus@.len() - i,
    {
        assert(units(nalus@)[i as int] == nalus@[i as int]@);
        if nalus[i].kind() == kind {
            return true;
        }
        i = i + 1;
    }
    false
}

/// Whether an access unit can be decoded with nothing before it.
///
/// Reads every unit rather than the first: an access unit routinely opens
/// with an SEI or an access unit delimiter, and stopping at that one would
/// call a keyframe an ordinary picture.
pub fn is_keyframe(nalus: &[Nal]) -> (keyframe: bool)
    ensures
        keyframe == has(units(nalus@), NalType::Idr),
{
    any(nalus, NalType::Idr)
}

/// Whether an access unit carries the parameter sets a decoder needs: an SPS
/// and a PPS.
pub fn carries_parameter_sets(nalus: &[Nal]) -> (carries: bool)
    ensures
        carries == (has(units(nalus@), NalType::Sps) && has(units(nalus@), NalType::Pps)),
{
    any(nalus, NalType::Sps) && any(nalus, NalType::Pps)
}

/// The width of the start code at `at`: four, three, or zero for none.
pub open spec fn code_width(s: Seq<u8>, at: int) -> int {
    if at + 4 <= s.len() && s[at] == 0 && s[at + 1] == 0 && s[at + 2] == 0 && s[at + 3] == 1 {
        4
    } else if at + 3 <= s.len() && s[at] == 0 && s[at + 1] == 0 && s[at + 2] == 1 {
        3
    } else {
        0
    }
}

fn start_code(data: &[u8], at: usize) -> (width: usize)
    requires
        at <= data@.len(),
    ensures
        width == code_width(data@, at as int),
        at + width <= data@.len(),
{
    let left: usize = data.len() - at;
    if left >= 4 && data[at] == 0 && data[at + 1] == 0 && data[at + 2] == 0 && data[at + 3] == 1 {
        4
    } else if left >= 3 && data[at] == 0 && data[at + 1] == 0 && data[at + 2] == 1 {
        3
    } else {
        0
    }
}

/// Whether `data` opens with a start code, which is how a payload's framing
/// is told from the one its source declared.
///
/// It tells them apart but for a few lengths. With a four-byte prefix, a first
/// unit of one byte, or of 256 to 511, has a length that reads as a start code;
/// no other does.
pub fn starts_with_start_code(data: &[u8]) -> (starts: bool)
    ensures
        starts == (code_width(data@, 0) > 0),
{
    start_code(data, 0) > 0
}

/// The first start code at or after `from`, and its width.
pub open spec fn next_code(s: Seq<u8>, from: int) -> Option<(int, int)>
    decreases s.len() - from,
{
    if from + 3 > s.len() {
        None
    } else if code_width(s, from) > 0 {
        Some((from, code_width(s, from)))
    } else {
        next_code(s, from + 1)
    }
}

/// The units of an Annex-B stream from `from` on: each starts after a start
/// code and ends where the next one begins, and an empty one is none.
pub open spec fn annex_b_units(s: Seq<u8>, from: int) -> Seq<Seq<u8>>
    decreases s.len() - from,
{
    match next_code(s, from) {
        Some((start, width)) if from < start + width <= s.len() => {
            let unit = start + width;
            let end = match next_code(s, unit) {
                Some((next, _)) => next,
                None => s.len() as int,
            };
            if unit < end {
                seq![s.subrange(unit, end)] + annex_b_units(s, unit)
            } else {
                annex_b_units(s, unit)
            }
        },
        _ => Seq::empty(),
    }
}

proof fn lemma_next_code(s: Seq<u8>, from: int)
    requires
        0 <= from <= s.len(),
    ensures
        next_code(s, from) matches Some((start, width)) ==> from <= start && 3 <= width <= 4
            && start + width <= s.len(),
    decreases s.len() - from,
{
    if from + 3 <= s.len() && code_width(s, from) == 0 {
        lemma_next_code(s, from + 1);
    }
}

fn find_code(data: &[u8], from: usize) -> (found: Option<(usize, usize)>)
    requires
        from <= data@.len(),
    ensures
        match found {
            Some((start, width)) => next_code(data@, from as int) == Some(
                (start as int, width as int),
            ) && from <= start && 3 <= width <= 4 && start + width <= data@.len(),
            None => next_code(data@, from as int) is None,
        },
{
    let mut at: usize = from;
    while data.len() - at >= 3
        invariant
            from <= at <= data@.len(),
            next_code(data@, from as int) == next_code(data@, at as int),
        decreases data@.len() - at,
    {
        let width: usize = start_code(data, at);
        if width > 0 {
            return Some((at, width));
        }
        at = at + 1;
    }
    None
}

/// Splits an Annex-B byte stream into its NAL units, discarding the start
/// codes.
///
/// Never fails. A start code can be preceded by anything and a run of them
/// can be empty; both are skipped rather than refused, because a scan that
/// gave up on the first oddity would be useless for the job Annex-B exists
/// for: joining a stream part-way through.
pub fn split_annex_b(data: &Bytes) -> (nalus: Vec<Nal>)
    ensures
        units(nalus@) == annex_b_units(data@, 0),
{
    let bytes = octets(data);
    let length: usize = bytes.len();
    let mut nalus: Vec<Nal> = Vec::new();
    let mut code: Option<(usize, usize)> = find_code(bytes, 0);
    let ghost mut from: int = 0;
    assert(units(nalus@) =~= Seq::empty());
    while code.is_some()
        invariant
            bytes@ == data@,
            length == data@.len(),
            0 <= from <= data@.len(),
            match code {
                Some((start, width)) => next_code(data@, from) == Some((start as int, width as int))
                    && from <= start && 3 <= width <= 4 && start + width <= data@.len(),
                None => next_code(data@, from) is None,
            },
            units(nalus@) + annex_b_units(data@, from) == annex_b_units(data@, 0),
        decreases data@.len() - from,
    {
        let (start, width) = code.unwrap();
        let unit: usize = start + width;
        let next = find_code(bytes, unit);
        let end: usize = match next {
            Some((next, _)) => next,
            None => length,
        };
        let ghost before = nalus@;
        let ghost rest = annex_b_units(data@, unit as int);
        if unit < end {
            match Nal::new(slice(data, unit, end)) {
                Some(nal) => {
                    nalus.push(nal);
                    assert(units(nalus@) =~= units(before).push(nal@));
                    assert(units(nalus@) + rest =~= units(before) + (seq![nal@] + rest));
                },
                None => {},
            }
        }
        code = next;
        proof {
            from = unit as int;
        }
    }
    assert(units(nalus@) + Seq::empty() =~= units(nalus@));
    nalus
}

/// The number a run of bytes writes, the highest first, in as many of its low
/// bits as a `usize` has.
pub open spec fn number(s: Seq<u8>) -> usize
    decreases s.len(),
{
    if s.len() == 0 {
        0
    } else {
        (number(s.drop_last()) << 8usize) | (s.last() as usize)
    }
}

/// The units of a length-prefixed payload from `at` on, whose prefixes are
/// `size` bytes wide, or what is wrong with it.
pub open spec fn prefixed_units(s: Seq<u8>, at: int, size: nat) -> Result<Seq<Seq<u8>>, H264Error>
    decreases s.len() - at,
{
    if at >= s.len() {
        Ok(Seq::empty())
    } else if s.len() - at < size {
        Err(H264Error::Truncated { offset: at as usize, needed: (size - (s.len() - at)) as usize })
    } else {
        let start = at + size;
        let length = number(s.subrange(at, start));
        if length == 0 {
            Err(H264Error::EmptyNalUnit { offset: start as usize })
        } else if s.len() - start < length {
            Err(
                H264Error::Truncated {
                    offset: start as usize,
                    needed: (length - (s.len() - start)) as usize,
                },
            )
        } else {
            match prefixed_units(s, start + length, size) {
                Ok(others) => Ok(seq![s.subrange(start, start + length)] + others),
                Err(error) => Err(error),
            }
        }
    }
}

fn read_number(data: &[u8]) -> (value: usize)
    ensures
        value == number(data@),
{
    let mut value: usize = 0;
    let mut i: usize = 0;
    assert(data@.take(0) =~= Seq::empty());
    while i < data.len()
        invariant
            i <= data@.len(),
            value == number(data@.take(i as int)),
        decreases data@.len() - i,
    {
        assert(data@.take(i + 1).drop_last() =~= data@.take(i as int));
        value = (value << 8usize) | (data[i] as usize);
        i = i + 1;
    }
    assert(data@.take(i as int) =~= data@);
    value
}

/// Splits a length-prefixed payload into its NAL units.
///
/// Fails rather than returning what it managed to read: a prefix size that
/// does not match the one the stream declared reads lengths out of picture
/// data, and the units that come back are neither an error nor a stream: they
/// look well formed and decode to nothing.
pub fn split_length_prefixed(data: &Bytes, nal_length_size: usize) -> (outcome: Result<
    Vec<Nal>,
    H264Error,
>)
    ensures
        match outcome {
            Ok(nalus) => prefixed_units(data@, 0, nal_length_size as nat) == Ok::<_, H264Error>(
                units(nalus@),
            ),
            Err(error) => prefixed_units(data@, 0, nal_length_size as nat) == Err::<
                Seq<Seq<u8>>,
                _,
            >(error),
        },
{
    let bytes = octets(data);
    let ghost size = nal_length_size as nat;
    let mut nalus: Vec<Nal> = Vec::new();
    let mut offset: usize = 0;
    assert(units(nalus@) =~= Seq::empty());
    while offset < bytes.len()
        invariant
            bytes@ == data@,
            size == nal_length_size,
            offset <= data@.len(),
            match prefixed_units(data@, offset as int, size) {
                Ok(others) => prefixed_units(data@, 0, size) == Ok::<_, H264Error>(
                    units(nalus@) + others,
                ),
                Err(error) => prefixed_units(data@, 0, size) == Err::<Seq<Seq<u8>>, _>(error),
            },
        decreases data@.len() - offset,
    {
        let left: usize = bytes.len() - offset;
        if left < nal_length_size {
            return Err(H264Error::Truncated { offset, needed: nal_length_size - left });
        }
        let start: usize = offset + nal_length_size;
        let length: usize = read_number(slice_subrange(bytes, offset, start));
        if length == 0 {
            return Err(H264Error::EmptyNalUnit { offset: start });
        }
        let left: usize = bytes.len() - start;
        if left < length {
            return Err(H264Error::Truncated { offset: start, needed: length - left });
        }
        let ghost before = nalus@;
        match Nal::new(slice(data, start, start + length)) {
            Some(nal) => {
                nalus.push(nal);
                proof {
                    assert(units(nalus@) =~= units(before).push(nal@));
                    if let Ok(others) = prefixed_units(data@, start + length, size) {
                        assert(units(nalus@) + others =~= units(before) + (seq![nal@] + others));
                    }
                }
            },
            None => {},
        }
        offset = start + length;
    }
    assert(units(nalus@) + Seq::empty() =~= units(nalus@));
    Ok(nalus)
}

/// Units as an Annex-B byte stream: a four-byte start code before each.
pub open spec fn annex_b(units: Seq<Seq<u8>>) -> Seq<u8>
    decreases units.len(),
{
    if units.len() == 0 {
        Seq::empty()
    } else {
        annex_b(units.drop_last()) + START_CODE@ + units.last()
    }
}

/// Writes NAL units as an Annex-B byte stream.
///
/// The three-byte start code is equally valid and is recognized on input, but
/// nothing here has a reason to emit it.
pub fn to_annex_b(nalus: &[Nal]) -> (data: Bytes)
    ensures
        data@ == annex_b(units(nalus@)),
{
    let mut out = BytesMut::new();
    let mut i: usize = 0;
    assert(units(nalus@).take(0) =~= Seq::empty());
    while i < nalus.len()
        invariant
            i <= nalus@.len(),
            out@ == annex_b(units(nalus@).take(i as int)),
        decreases nalus@.len() - i,
    {
        assert(units(nalus@).take(i + 1).drop_last() =~= units(nalus@).take(i as int));
        let ghost before = out@;
        put_slice(&mut out, START_CODE.as_slice());
        assert(out@ =~= before + START_CODE@);
        put_slice(&mut out, octets(nalus[i].data()));
        i = i + 1;
    }
    assert(units(nalus@).take(i as int) =~= units(nalus@));
    out.freeze()
}

/// A number in `size` bytes, the highest first.
pub open spec fn prefix(n: nat, size: nat) -> Seq<u8>
    decreases size,
{
    if size == 0 {
        Seq::empty()
    } else {
        prefix(n / 256, (size - 1) as nat).push((n % 256) as u8)
    }
}

/// Whether a length fits a prefix of `size` bytes.
pub open spec fn prefix_fits(length: nat, size: nat) -> bool {
    length < pow(256, size)
}

/// What is written of units with a length prefix each: a unit too long for its
/// prefix ends it.
pub open spec fn length_prefixed(units: Seq<Seq<u8>>, size: nat) -> Result<Seq<u8>, H264Error>
    decreases units.len(),
{
    if units.len() == 0 {
        Ok(Seq::empty())
    } else {
        match length_prefixed(units.drop_last(), size) {
            Err(error) => Err(error),
            Ok(before) => if prefix_fits(units.last().len(), size) {
                Ok(before + prefix(units.last().len(), size) + units.last())
            } else {
                Err(
                    H264Error::NalUnitTooLong {
                        length: units.last().len() as usize,
                        size: size as usize,
                    },
                )
            },
        }
    }
}

/// Writes NAL units with a length prefix each.
///
/// A unit too long for the prefix is refused rather than truncated: a
/// wrapped length points its reader into the middle of a picture, which is
/// the one failure that produces a stream nothing can detect.
pub fn to_length_prefixed(nalus: &[Nal], nal_length_size: usize) -> (outcome: Result<
    Bytes,
    H264Error,
>)
    requires
        nalus@.len() > 0 ==> nal_length_size <= usize::BITS / 8,
    ensures
        match outcome {
            Ok(data) => length_prefixed(units(nalus@), nal_length_size as nat) == Ok::<
                _,
                H264Error,
            >(data@),
            Err(error) => length_prefixed(units(nalus@), nal_length_size as nat) == Err::<
                Seq<u8>,
                _,
            >(error),
        },
{
    let mut out = BytesMut::new();
    match put_sets(&mut out, nalus, nal_length_size) {
        Ok(()) => {
            let data = out.freeze();
            assert(Seq::<u8>::empty() + data@ =~= data@);
            Ok(data)
        },
        Err(error) => Err(error),
    }
}

proof fn lemma_refused_stays(units: Seq<Seq<u8>>, count: int, size: nat)
    requires
        0 <= count <= units.len(),
        length_prefixed(units.take(count), size) is Err,
    ensures
        length_prefixed(units, size) == length_prefixed(units.take(count), size),
    decreases units.len() - count,
{
    if count < units.len() {
        assert(units.take(count + 1).drop_last() =~= units.take(count));
        lemma_refused_stays(units, count + 1, size);
    } else {
        assert(units.take(count) =~= units);
    }
}

/// Appends units with a length prefix each.
fn put_sets(out: &mut BytesMut, nalus: &[Nal], nal_length_size: usize) -> (outcome: Result<
    (),
    H264Error,
>)
    requires
        nalus@.len() > 0 ==> nal_length_size <= usize::BITS / 8,
    ensures
        match outcome {
            Ok(()) => length_prefixed(units(nalus@), nal_length_size as nat) matches Ok(written)
                && final(out)@ == old(out)@ + written,
            Err(error) => length_prefixed(units(nalus@), nal_length_size as nat) == Err::<
                Seq<u8>,
                _,
            >(error),
        },
{
    let ghost size = nal_length_size as nat;
    let ghost all = units(nalus@);
    let mut i: usize = 0;
    assert(all.take(0) =~= Seq::empty());
    assert(out@ + Seq::empty() =~= out@);
    while i < nalus.len()
        invariant
            size == nal_length_size,
            nalus@.len() > 0 ==> nal_length_size <= usize::BITS / 8,
            all == units(nalus@),
            i <= nalus@.len(),
            length_prefixed(all.take(i as int), size) matches Ok(written) && out@ == old(out)@
                + written,
        decreases nalus@.len() - i,
    {
        assert(all.take(i + 1).drop_last() =~= all.take(i as int));
        assert(all.take(i + 1).last() == nalus@[i as int]@);
        let ghost before = out@;
        let ghost written = length_prefixed(all.take(i as int), size)->Ok_0;
        match put_length_prefixed(out, nalus[i].data(), nal_length_size) {
            Ok(()) => {},
            Err(error) => {
                proof {
                    lemma_refused_stays(all, i + 1, size);
                }
                return Err(error);
            },
        }
        proof {
            let unit = nalus@[i as int]@;
            assert(out@ =~= old(out)@ + (written + prefix(unit.len(), size) + unit));
        }
        i = i + 1;
    }
    assert(all.take(i as int) =~= all);
    Ok(())
}

fn put_length_prefixed(out: &mut BytesMut, data: &Bytes, nal_length_size: usize) -> (outcome:
    Result<(), H264Error>)
    requires
        nal_length_size <= usize::BITS / 8,
    ensures
        outcome is Ok <==> prefix_fits(data@.len(), nal_length_size as nat),
        outcome is Ok ==> final(out)@ == old(out)@ + prefix(data@.len(), nal_length_size as nat)
            + data@,
        outcome matches Err(error) ==> error == (H264Error::NalUnitTooLong {
            length: data@.len() as usize,
            size: nal_length_size,
        }),
{
    let bytes = octets(data);
    if !fits_prefix(bytes.len(), nal_length_size) {
        return Err(H264Error::NalUnitTooLong { length: bytes.len(), size: nal_length_size });
    }
    put_prefix(out, bytes.len(), nal_length_size);
    put_slice(out, bytes);
    Ok(())
}

fn fits_prefix(length: usize, size: usize) -> (fits: bool)
    ensures
        fits == prefix_fits(length as nat, size as nat),
    decreases size,
{
    proof {
        reveal(pow);
    }
    if size == 0 {
        length == 0
    } else {
        fits_prefix(length / 256, size - 1)
    }
}

fn put_prefix(out: &mut BytesMut, n: usize, size: usize)
    ensures
        final(out)@ == old(out)@ + prefix(n as nat, size as nat),
    decreases size,
{
    if size > 0 {
        put_prefix(out, n / 256, size - 1);
        put_u8(out, (n % 256) as u8);
        assert(out@ =~= old(out)@ + prefix(n as nat, size as nat));
    } else {
        assert(out@ =~= old(out)@ + prefix(n as nat, size as nat));
    }
}

/// What a decoder has to be given before any of the stream means anything.
///
/// This is the whole of what a protocol has to state about an H.264 track,
/// and it says nothing about how that protocol writes it down. RTSP puts it
/// in SDP, RTMP and MP4 wrap it in an [`AvcConfig`].
#[derive(Debug, PartialEq, Eq)]
pub struct Parameters {
    /// Sequence parameter sets. At least one to be usable; the first is the
    /// one whose profile and level describe the stream.
    pub sps: Vec<Nal>,
    /// Picture parameter sets. At least one to be usable.
    pub pps: Vec<Nal>,
}

/// What a [`Parameters`] holds: the bytes of each set.
pub struct ParametersView {
    pub sps: Seq<Seq<u8>>,
    pub pps: Seq<Seq<u8>>,
}

impl View for Parameters {
    type V = ParametersView;

    open spec fn view(&self) -> ParametersView {
        ParametersView { sps: units(self.sps@), pps: units(self.pps@) }
    }
}

/// A copy of a list of units.
pub(crate) fn clone_units(nalus: &Vec<Nal>) -> (copy: Vec<Nal>)
    ensures
        units(copy@) == units(nalus@),
{
    let mut copy: Vec<Nal> = Vec::new();
    let mut i: usize = 0;
    while i < nalus.len()
        invariant
            i <= nalus@.len(),
            copy@.len() == i,
            forall|j: int| 0 <= j < i ==> (#[trigger] copy@[j])@ == nalus@[j]@,
        decreases nalus@.len() - i,
    {
        copy.push(nalus[i].clone());
        i = i + 1;
    }
    assert(units(copy@) =~= units(nalus@));
    copy
}

/// Whether two lists hold the same units.
fn same_units(a: &Vec<Nal>, b: &Vec<Nal>) -> (same: bool)
    ensures
        same == (units(a@) == units(b@)),
{
    if a.len() != b.len() {
        assert(units(a@).len() != units(b@).len());
        return false;
    }
    let mut i: usize = 0;
    while i < a.len()
        invariant
            i <= a@.len(),
            a@.len() == b@.len(),
            forall|j: int| 0 <= j < i ==> (#[trigger] units(a@)[j]) == units(b@)[j],
        decreases a@.len() - i,
    {
        assert(units(a@)[i as int] == a@[i as int]@ && units(b@)[i as int] == b@[i as int]@);
        if !same_bytes(octets(a[i].data()), octets(b[i].data())) {
            return false;
        }
        i = i + 1;
    }
    assert(units(a@) =~= units(b@));
    true
}

impl Clone for Parameters {
    fn clone(&self) -> (copy: Self)
        ensures
            copy@ == self@,
    {
        Self { sps: clone_units(&self.sps), pps: clone_units(&self.pps) }
    }
}

/// The profile, constraint and level bytes of the first SPS, or what stops
/// them being read.
pub open spec fn profile_level_of(sps: Seq<Seq<u8>>) -> Result<Seq<u8>, H264Error> {
    if sps.len() == 0 {
        Err(H264Error::MissingParameterSet("SPS"))
    } else if sps[0].len() < 4 {
        Err(H264Error::Truncated { offset: 1, needed: (4 - sps[0].len()) as usize })
    } else {
        Ok(sps[0].subrange(1, 4))
    }
}

impl Parameters {
    /// The profile, constraint and level bytes, which name what a decoder
    /// must be able to do. Read from the first SPS, which is where a decoder
    /// reads them in any case.
    pub fn profile_level(&self) -> (outcome: Result<&[u8], H264Error>)
        ensures
            match outcome {
                Ok(bytes) => profile_level_of(self@.sps) == Ok::<_, H264Error>(bytes@),
                Err(error) => profile_level_of(self@.sps) == Err::<Seq<u8>, _>(error),
            },
    {
        if self.sps.len() == 0 {
            return Err(H264Error::MissingParameterSet("SPS"));
        }
        let first = octets(self.sps[0].data());
        assert(self@.sps[0] == first@);
        if first.len() < 4 {
            return Err(H264Error::Truncated { offset: 1, needed: 4 - first.len() });
        }
        Ok(slice_subrange(first, 1, 4))
    }

    /// Whether two are the same sets, in the same order.
    pub fn same(&self, other: &Parameters) -> (same: bool)
        ensures
            same == (self@ == other@),
    {
        same_units(&self.sps, &other.sps) && same_units(&self.pps, &other.pps)
    }
}

/// An `AVCDecoderConfigurationRecord`: how RTMP and MP4 write [`Parameters`]
/// down, and the width of the length prefix their payloads use.
///
/// The two arrive together because both are read from this one record, but
/// they are separate facts and only one of them is about the stream. The
/// prefix width belongs to whoever is doing the framing, and stops there.
#[derive(Debug, PartialEq, Eq)]
pub struct AvcConfig {
    /// What the record says a decoder needs.
    pub parameters: Parameters,
    /// How many bytes each NAL unit's length prefix occupies: 1, 2 or 4.
    pub nal_length_size: usize,
}

/// What an [`AvcConfig`] says.
pub struct AvcConfigView {
    pub parameters: ParametersView,
    pub nal_length_size: nat,
}

impl View for AvcConfig {
    type V = AvcConfigView;

    open spec fn view(&self) -> AvcConfigView {
        AvcConfigView {
            parameters: self.parameters@,
            nal_length_size: self.nal_length_size as nat,
        }
    }
}

impl Clone for AvcConfig {
    fn clone(&self) -> (copy: Self)
        ensures
            copy@ == self@,
    {
        Self { parameters: self.parameters.clone(), nal_length_size: self.nal_length_size }
    }
}

/// What is wrong where `count` bytes are not all there at `at`.
pub open spec fn cut_short(s: Seq<u8>, at: int, count: int) -> H264Error {
    H264Error::Truncated { offset: at as usize, needed: (count - (s.len() - at)) as usize }
}

/// The `count` parameter sets at `at`, each behind a two-byte length, and
/// where they end.
pub open spec fn sets_at(s: Seq<u8>, at: int, count: nat) -> Result<
    (Seq<Seq<u8>>, int),
    H264Error,
>
    decreases count,
{
    if count == 0 {
        Ok((Seq::empty(), at))
    } else {
        match sets_at(s, at, (count - 1) as nat) {
            Err(error) => Err(error),
            Ok((before, next)) => if s.len() - next < 2 {
                Err(cut_short(s, next, 2))
            } else {
                let length = num16(s, next);
                if length == 0 {
                    Err(H264Error::EmptyNalUnit { offset: (next + 2) as usize })
                } else if s.len() - (next + 2) < length {
                    Err(cut_short(s, next + 2, length))
                } else {
                    Ok(
                        (
                            before.push(s.subrange(next + 2, next + 2 + length)),
                            next + 2 + length,
                        ),
                    )
                }
            },
        }
    }
}

/// The parameter sets at `at` with their count before them, which is the byte
/// there modulo `modulus`, and where they end.
pub open spec fn counted_sets_at(s: Seq<u8>, at: int, modulus: int) -> Result<
    (Seq<Seq<u8>>, int),
    H264Error,
> {
    if s.len() - at < 1 {
        Err(cut_short(s, at, 1))
    } else {
        sets_at(s, at + 1, (s[at] as int % modulus) as nat)
    }
}

/// Whether a length prefix may be so many bytes wide.
pub open spec fn prefix_width(size: nat) -> bool {
    size == 1 || size == 2 || size == 4
}

/// What a configuration record says, or what is wrong with it.
///
/// Three bytes repeat the first SPS's profile, constraint and level and are
/// passed over. The SPS count is five bits under three reserved ones; the PPS
/// count that follows the sets is a whole byte.
pub open spec fn config_of(s: Seq<u8>) -> Result<AvcConfigView, H264Error> {
    if s.len() < 1 {
        Err(cut_short(s, 0, 1))
    } else if s[0] != 1 {
        Err(H264Error::UnsupportedConfigVersion(s[0]))
    } else if s.len() - 1 < 3 {
        Err(cut_short(s, 1, 3))
    } else if s.len() - 4 < 1 {
        Err(cut_short(s, 4, 1))
    } else if !prefix_width((s[4] % 4 + 1) as nat) {
        Err(H264Error::UnsupportedLengthSize((s[4] % 4 + 1) as usize))
    } else {
        match counted_sets_at(s, 5, 32) {
            Err(error) => Err(error),
            Ok((sps, next)) => match counted_sets_at(s, next, 256) {
                Err(error) => Err(error),
                Ok((pps, _)) => if sps.len() == 0 {
                    Err(H264Error::MissingParameterSet("SPS"))
                } else if pps.len() == 0 {
                    Err(H264Error::MissingParameterSet("PPS"))
                } else {
                    Ok(
                        AvcConfigView {
                            parameters: ParametersView { sps, pps },
                            nal_length_size: (s[4] % 4 + 1) as nat,
                        },
                    )
                },
            },
        }
    }
}

/// The record that says what a configuration is, or what stops it being
/// written.
///
/// The profile and level bytes come from the first SPS: a record whose header
/// disagreed with the parameter set it carries would be describing two
/// streams. The reserved bits of both counts are ones.
pub open spec fn record_of(config: AvcConfigView) -> Result<Seq<u8>, H264Error> {
    match profile_level_of(config.parameters.sps) {
        Err(error) => Err(error),
        Ok(profile_level) => match length_prefixed(config.parameters.sps, 2) {
            Err(error) => Err(error),
            Ok(sps) => match length_prefixed(config.parameters.pps, 2) {
                Err(error) => Err(error),
                Ok(pps) => Ok(
                    seq![1u8] + profile_level + seq![
                        0xfcu8 | ((config.nal_length_size % 256 - 1) as u8),
                        (0xe0 + config.parameters.sps.len() % 32) as u8,
                    ] + sps + seq![(config.parameters.pps.len() % 256) as u8] + pps,
                ),
            },
        },
    }
}

impl AvcConfig {
    /// Whether two say the same.
    pub fn same(&self, other: &AvcConfig) -> (same: bool)
        ensures
            same == (self@ == other@),
    {
        self.nal_length_size == other.nal_length_size && self.parameters.same(&other.parameters)
    }

    /// Reads a record as RTMP's AVC sequence header and MP4's `avcC` box
    /// both carry it.
    pub fn parse(data: &Bytes) -> (outcome: Result<Self, H264Error>)
        ensures
            match outcome {
                Ok(config) => config_of(data@) == Ok::<_, H264Error>(config@),
                Err(error) => config_of(data@) == Err::<AvcConfigView, _>(error),
            },
            outcome matches Ok(config) ==> {
                &&& prefix_width(config.nal_length_size as nat)
                &&& config@.parameters.sps.len() > 0
                &&& config@.parameters.pps.len() > 0
            },
    {
        let bytes = octets(data);
        match need(bytes, 0, 1) {
            Ok(()) => {},
            Err(error) => {
                return Err(error);
            },
        }
        if bytes[0] != 1 {
            return Err(H264Error::UnsupportedConfigVersion(bytes[0]));
        }
        match need(bytes, 1, 3) {
            Ok(()) => {},
            Err(error) => {
                return Err(error);
            },
        }
        match need(bytes, 4, 1) {
            Ok(()) => {},
            Err(error) => {
                return Err(error);
            },
        }
        let nal_length_size: usize = (bytes[4] % 4) as usize + 1;
        if nal_length_size == 3 {
            return Err(H264Error::UnsupportedLengthSize(nal_length_size));
        }
        let (sps, next) = match parameter_sets(data, 5, 32) {
            Ok(sets) => sets,
            Err(error) => {
                return Err(error);
            },
        };
        let (pps, _) = match parameter_sets(data, next, 256) {
            Ok(sets) => sets,
            Err(error) => {
                return Err(error);
            },
        };
        if sps.len() == 0 {
            return Err(H264Error::MissingParameterSet("SPS"));
        }
        if pps.len() == 0 {
            return Err(H264Error::MissingParameterSet("PPS"));
        }
        Ok(Self { parameters: Parameters { sps, pps }, nal_length_size })
    }

    /// Writes the record back out.
    pub fn to_bytes(&self) -> (outcome: Result<Bytes, H264Error>)
        requires
            self.nal_length_size % 256 != 0,
        ensures
            match outcome {
                Ok(record) => record_of(self@) == Ok::<_, H264Error>(record@),
                Err(error) => record_of(self@) == Err::<Seq<u8>, _>(error),
            },
    {
        let sps = self.parameters.sps.as_slice();
        let pps = self.parameters.pps.as_slice();
        let profile_level = match self.parameters.profile_level() {
            Ok(bytes) => bytes,
            Err(error) => {
                return Err(error);
            },
        };
        let mut out = BytesMut::new();
        put_u8(&mut out, 1);
        put_slice(&mut out, profile_level);
        put_u8(&mut out, 0xfc | ((self.nal_length_size % 256) as u8 - 1));
        put_u8(&mut out, 0xe0 + (sps.len() % 32) as u8);
        let ghost head = out@;
        assert(head =~= seq![1u8] + profile_level@ + seq![
            0xfcu8 | ((self@.nal_length_size % 256 - 1) as u8),
            (0xe0 + self@.parameters.sps.len() % 32) as u8,
        ]);
        match put_sets(&mut out, sps, 2) {
            Ok(()) => {},
            Err(error) => {
                return Err(error);
            },
        }
        put_u8(&mut out, (pps.len() % 256) as u8);
        let ghost middle = out@;
        match put_sets(&mut out, pps, 2) {
            Ok(()) => {},
            Err(error) => {
                return Err(error);
            },
        }
        proof {
            let written = length_prefixed(self@.parameters.sps, 2)->Ok_0;
            assert(middle =~= head + written + seq![(self@.parameters.pps.len() % 256) as u8]);
        }
        Ok(out.freeze())
    }
}

/// Whether `count` bytes are there at `at`; if not, by how many they are short.
fn need(data: &[u8], at: usize, count: usize) -> (outcome: Result<(), H264Error>)
    requires
        at <= data@.len(),
    ensures
        outcome is Ok <==> data@.len() - at >= count,
        outcome is Ok ==> at + count <= data@.len() <= usize::MAX,
        outcome matches Err(error) ==> error == cut_short(data@, at as int, count as int),
{
    let have: usize = data.len() - at;
    if have < count {
        Err(H264Error::Truncated { offset: at, needed: count - have })
    } else {
        Ok(())
    }
}

proof fn lemma_refused_sets_stay(s: Seq<u8>, at: int, fewer: nat, count: nat)
    requires
        fewer <= count,
        sets_at(s, at, fewer) is Err,
    ensures
        sets_at(s, at, count) == sets_at(s, at, fewer),
    decreases count,
{
    if fewer < count {
        lemma_refused_sets_stay(s, at, fewer, (count - 1) as nat);
    }
}

/// Reads the parameter sets at `at` with their count before them, and says
/// where they end.
fn parameter_sets(data: &Bytes, at: usize, modulus: u16) -> (outcome: Result<
    (Vec<Nal>, usize),
    H264Error,
>)
    requires
        at <= data@.len(),
        modulus > 0,
    ensures
        match outcome {
            Ok((sets, end)) => counted_sets_at(data@, at as int, modulus as int) == Ok::<
                _,
                H264Error,
            >((units(sets@), end as int)) && end <= data@.len(),
            Err(error) => counted_sets_at(data@, at as int, modulus as int) == Err::<
                (Seq<Seq<u8>>, int),
                _,
            >(error),
        },
{
    let bytes = octets(data);
    match need(bytes, at, 1) {
        Ok(()) => {},
        Err(error) => {
            return Err(error);
        },
    }
    let start: usize = at + 1;
    let count: u16 = bytes[at] as u16 % modulus;
    let mut sets: Vec<Nal> = Vec::new();
    let mut pos: usize = start;
    let mut read: u16 = 0;
    assert(units(sets@) =~= Seq::empty());
    while read < count
        invariant
            bytes@ == data@,
            start <= pos <= data@.len(),
            read <= count,
            at < data@.len(),
            start == at + 1,
            modulus > 0,
            count == data@[at as int] as int % modulus as int,
            sets_at(data@, start as int, read as nat) == Ok::<_, H264Error>(
                (units(sets@), pos as int),
            ),
        decreases count - read,
    {
        proof {
            if sets_at(data@, start as int, (read + 1) as nat) is Err {
                lemma_refused_sets_stay(
                    data@,
                    start as int,
                    (read + 1) as nat,
                    count as nat,
                );
            }
        }
        match need(bytes, pos, 2) {
            Ok(()) => {},
            Err(error) => {
                return Err(error);
            },
        }
        let length: usize = get_u16(bytes, pos) as usize;
        if length == 0 {
            return Err(H264Error::EmptyNalUnit { offset: pos + 2 });
        }
        match need(bytes, pos + 2, length) {
            Ok(()) => {},
            Err(error) => {
                return Err(error);
            },
        }
        let end: usize = pos + 2 + length;
        match Nal::new(slice(data, pos + 2, end)) {
            Some(set) => {
                let ghost before = sets@;
                sets.push(set);
                assert(units(sets@) =~= units(before).push(set@));
            },
            None => {},
        }
        pos = end;
        read = read + 1;
    }
    Ok((sets, pos))
}

/// Whether a start code stands anywhere inside a unit.
pub open spec fn holds_a_code(unit: Seq<u8>) -> bool {
    exists|i: int|
        0 <= i && i + 3 <= unit.len() && #[trigger] unit[i] == 0 && unit[i + 1] == 0 && unit[i + 2]
            == 1
}

/// The first start code from a place inside a unit is the one after it.
proof fn lemma_code_after(before: Seq<u8>, unit: Seq<u8>, rest: Seq<u8>, from: int)
    requires
        !holds_a_code(unit),
        before.len() <= from <= before.len() + unit.len(),
    ensures
        next_code(before + unit + seq![0u8, 0, 0, 1] + rest, from) == Some(
            ((before + unit).len() as int, 4int),
        ),
    decreases before.len() + unit.len() - from,
{
    let code = seq![0u8, 0, 0, 1];
    let s = before + unit + code + rest;
    let end = (before + unit).len() as int;
    assert(s[end] == code[0] && s[end + 1] == code[1] && s[end + 2] == code[2] && s[end + 3]
        == code[3]);
    if from < end {
        let i = from - before.len();
        assert(s[from] == unit[i]);
        if from + 1 < end {
            assert(s[from + 1] == unit[i + 1]);
        }
        if from + 2 < end {
            assert(s[from + 2] == unit[i + 2]);
        }
        assert(code_width(s, from) == 0);
        lemma_code_after(before, unit, rest, from + 1);
    }
}

/// There is no start code from a place inside a unit that nothing follows.
proof fn lemma_no_code_after(before: Seq<u8>, unit: Seq<u8>, from: int)
    requires
        !holds_a_code(unit),
        before.len() <= from <= before.len() + unit.len(),
    ensures
        next_code(before + unit, from) is None,
    decreases before.len() + unit.len() - from,
{
    let s = before + unit;
    if from + 3 <= s.len() {
        let i = from - before.len();
        assert(s[from] == unit[i] && s[from + 1] == unit[i + 1] && s[from + 2] == unit[i + 2]);
        if from + 4 <= s.len() {
            assert(s[from + 1] == unit[i + 1] && s[from + 2] == unit[i + 2] && s[from + 3] == unit[i
                + 3]);
            assert(unit[i + 1] == 0 && unit[i + 2] == 0 && unit[i + 3] == 1 ==> holds_a_code(unit));
        }
        assert(code_width(s, from) == 0);
        lemma_no_code_after(before, unit, from + 1);
    }
}

/// Units one after another with a start code before each, from the first on.
spec fn annex_b_from(units: Seq<Seq<u8>>) -> Seq<u8>
    decreases units.len(),
{
    if units.len() == 0 {
        Seq::empty()
    } else {
        seq![0u8, 0, 0, 1] + units.first() + annex_b_from(units.drop_first())
    }
}

proof fn lemma_annex_b_from(units: Seq<Seq<u8>>)
    ensures
        annex_b(units) == annex_b_from(units),
    decreases units.len(),
{
    if units.len() == 1 {
        assert(annex_b(units.drop_last()) =~= Seq::<u8>::empty());
        assert(annex_b_from(units.drop_first()) =~= Seq::<u8>::empty());
        assert(annex_b(units) =~= annex_b_from(units));
    } else if units.len() > 1 {
        let code = seq![0u8, 0, 0, 1];
        let inner = units.drop_last().drop_first();
        lemma_annex_b_from(units.drop_last());
        lemma_annex_b_from(units.drop_first());
        lemma_annex_b_from(inner);
        assert(units.drop_first().drop_last() =~= inner);
        assert(units.drop_last().first() == units.first());
        assert(units.drop_first().last() == units.last());
        assert(annex_b(units) =~= code + units.first() + (annex_b(inner) + code + units.last()));
    }
}

proof fn lemma_annex_b_splits(before: Seq<u8>, units: Seq<Seq<u8>>)
    requires
        forall|i: int| 0 <= i < units.len() ==> (#[trigger] units[i]).len() > 0,
        forall|i: int| 0 <= i < units.len() ==> !holds_a_code(#[trigger] units[i]),
    ensures
        annex_b_units(before + annex_b_from(units), before.len() as int) == units,
    decreases units.len(),
{
    let s = before + annex_b_from(units);
    let at = before.len() as int;
    if units.len() == 0 {
        assert(next_code(s, at) is None);
        assert(units =~= Seq::empty());
    } else {
        let code = seq![0u8, 0, 0, 1];
        let first = units.first();
        let others = units.drop_first();
        let head = before + code;
        let start = head.len() as int;
        assert(s =~= before + code + first + annex_b_from(others));
        assert(s =~= head + first + annex_b_from(others));
        assert(s[at] == code[0] && s[at + 1] == code[1] && s[at + 2] == code[2] && s[at + 3]
            == code[3]);
        assert(next_code(s, at) == Some((at, 4int)));
        lemma_annex_b_splits(head + first, others);
        assert(s.subrange(start, start + first.len()) =~= first);
        let end = start + first.len();
        if others.len() == 0 {
            assert(s =~= head + first);
            lemma_no_code_after(head, first, start);
            lemma_no_code_after(head, first, end);
            assert(others =~= Seq::empty());
        } else {
            let rest = others.first() + annex_b_from(others.drop_first());
            assert(s =~= head + first + code + rest);
            lemma_code_after(head, first, rest, start);
            lemma_code_after(head, first, rest, end);
        }
        // The next code is the same from the start of the unit as from its end.
        assert(next_code(s, start) == next_code(s, end));
        assert(annex_b_units(s, start) == annex_b_units(s, end));
        assert(units =~= seq![first] + others);
    }
}

/// Units written as an Annex-B stream split back into the same units, so long
/// as no unit is empty and none holds a start code. Trailing zeros stay with
/// the unit they end.
pub proof fn law_annex_b_round_trips(units: Seq<Seq<u8>>)
    requires
        forall|i: int| 0 <= i < units.len() ==> (#[trigger] units[i]).len() > 0,
        forall|i: int| 0 <= i < units.len() ==> !holds_a_code(#[trigger] units[i]),
    ensures
        annex_b_units(annex_b(units), 0) == units,
{
    lemma_annex_b_from(units);
    lemma_annex_b_splits(Seq::empty(), units);
    assert(Seq::<u8>::empty() + annex_b_from(units) =~= annex_b_from(units));
}

/// A number written in bytes reads back.
proof fn lemma_prefix_reads(n: nat, size: nat)
    requires
        n <= usize::MAX,
        prefix_fits(n, size),
    ensures
        number(prefix(n, size)) == n,
        prefix(n, size).len() == size,
    decreases size,
{
    reveal(pow);
    if size > 0 {
        let upper = n / 256;
        lemma_prefix_reads(upper, (size - 1) as nat);
        let bytes = prefix(n, size);
        assert(bytes.drop_last() =~= prefix(upper, (size - 1) as nat));
        let (whole, high, low) = (n as usize, upper as usize, (n % 256) as usize);
        assert((high << 8usize) | low == whole) by (bit_vector)
            requires
                high * 256 + low == whole,
                low < 256,
        ;
    }
}

#[verifier::spinoff_prover]
proof fn lemma_prefixed_splits(before: Seq<u8>, units: Seq<Seq<u8>>, count: int, size: nat)
    requires
        0 <= count <= units.len(),
        size > 0,
        forall|i: int| 0 <= i < units.len() ==> 0 < (#[trigger] units[i]).len() <= usize::MAX,
        length_prefixed(units, size) is Ok,
        length_prefixed(units.take(count), size) == Ok::<_, H264Error>(before),
    ensures
        prefixed_units(length_prefixed(units, size)->Ok_0, before.len() as int, size) == Ok::<
            _,
            H264Error,
        >(units.skip(count)),
        before.len() <= length_prefixed(units, size)->Ok_0.len(),
        length_prefixed(units, size)->Ok_0.take(before.len() as int) == before,
    decreases units.len() - count,
{
    let s = length_prefixed(units, size)->Ok_0;
    if count == units.len() {
        assert(units.take(count) =~= units);
        assert(s.take(s.len() as int) =~= s);
        assert(units.skip(count) =~= Seq::empty());
    } else {
        let unit = units[count];
        let longer = units.take(count + 1);
        assert(longer.drop_last() =~= units.take(count));
        assert(longer.last() == unit);
        if length_prefixed(longer, size) is Err {
            lemma_refused_stays(units, count + 1, size);
        }
        let head = prefix(unit.len(), size);
        let next = before + head + unit;
        lemma_prefixed_splits(next, units, count + 1, size);
        lemma_prefix_reads(unit.len(), size);
        let at = before.len() as int;
        let start = at + size;
        assert(forall|i: int| 0 <= i < next.len() ==> s[i] == s.take(next.len() as int)[i]);
        assert(s.take(at) =~= before);
        assert(s.subrange(at, start) =~= head);
        assert(s.subrange(start, start + unit.len()) =~= unit);
        assert(units.skip(count) =~= seq![unit] + units.skip(count + 1));
    }
}

/// Units written with a length prefix each split back into the same units.
pub proof fn law_length_prefixed_round_trips(units: Seq<Seq<u8>>, size: nat)
    requires
        size > 0,
        forall|i: int| 0 <= i < units.len() ==> 0 < (#[trigger] units[i]).len() <= usize::MAX,
        length_prefixed(units, size) is Ok,
    ensures
        prefixed_units(length_prefixed(units, size)->Ok_0, 0, size) == Ok::<_, H264Error>(units),
{
    assert(units.take(0) =~= Seq::empty());
    lemma_prefixed_splits(Seq::empty(), units, 0, size);
    assert(units.skip(0) =~= units);
}

/// Bytes that write a number are what the number is written in.
proof fn lemma_number_writes(bytes: Seq<u8>)
    requires
        bytes.len() <= 4,
    ensures
        prefix_fits(number(bytes) as nat, bytes.len()),
        prefix(number(bytes) as nat, bytes.len()) == bytes,
    decreases bytes.len(),
{
    reveal_with_fuel(pow, 5);
    if bytes.len() > 0 {
        let upper = bytes.drop_last();
        lemma_number_writes(upper);
        let (high, low) = (number(upper), bytes.last() as usize);
        assert(high < 0x100_0000);
        assert((high << 8usize) | low == high * 256 + low) by (bit_vector)
            requires
                high < 0x100_0000,
                low < 256,
        ;
        assert(number(bytes) / 256 == high && number(bytes) % 256 == low);
        assert(prefix(number(bytes) as nat, bytes.len()) =~= upper.push(bytes.last()));
        assert(upper.push(bytes.last()) =~= bytes);
    } else {
        assert(prefix(number(bytes) as nat, 0) =~= bytes);
    }
}

/// The units at `at`, written after those before them, give the payload back.
proof fn lemma_split_writes(s: Seq<u8>, at: int, before: Seq<Seq<u8>>, size: nat)
    requires
        0 <= at <= s.len(),
        1 <= size <= 4,
        length_prefixed(before, size) == Ok::<_, H264Error>(s.take(at)),
        prefixed_units(s, at, size) is Ok,
    ensures
        length_prefixed(before + prefixed_units(s, at, size)->Ok_0, size) == Ok::<_, H264Error>(s),
    decreases s.len() - at,
{
    let units = prefixed_units(s, at, size)->Ok_0;
    if at == s.len() {
        assert(before + units =~= before);
        assert(s.take(at) =~= s);
    } else {
        let start = at + size;
        let head = s.subrange(at, start);
        let length = number(head);
        let end = start + length;
        let unit = s.subrange(start, end);
        let with = before.push(unit);
        lemma_number_writes(head);
        assert(with.drop_last() =~= before);
        assert(s.take(at) + head + unit =~= s.take(end));
        lemma_split_writes(s, end, with, size);
        assert(with + prefixed_units(s, end, size)->Ok_0 =~= before + units);
    }
}

/// A payload that splits is written back as it was, so nothing splits but whole
/// units, each behind its length.
pub proof fn law_a_payload_that_splits_is_written_back(data: Seq<u8>, size: nat)
    requires
        1 <= size <= 4,
        prefixed_units(data, 0, size) is Ok,
    ensures
        length_prefixed(prefixed_units(data, 0, size)->Ok_0, size) == Ok::<_, H264Error>(data),
{
    let units = prefixed_units(data, 0, size)->Ok_0;
    assert(data.take(0) =~= Seq::empty());
    lemma_split_writes(data, 0, Seq::empty(), size);
    assert(Seq::empty() + units =~= units);
}

/// Parameter sets behind two-byte lengths read back, whatever stands before
/// and after them.
proof fn lemma_sets_read(before: Seq<u8>, sets: Seq<Seq<u8>>, after: Seq<u8>)
    requires
        forall|i: int| 0 <= i < sets.len() ==> (#[trigger] sets[i]).len() > 0,
        length_prefixed(sets, 2) is Ok,
    ensures
        ({
            let written = length_prefixed(sets, 2)->Ok_0;
            sets_at(before + written + after, before.len() as int, sets.len()) == Ok::<
                _,
                H264Error,
            >((sets, (before + written).len() as int))
        }),
    decreases sets.len(),
{
    let written = length_prefixed(sets, 2)->Ok_0;
    let s = before + written + after;
    if sets.len() == 0 {
        assert(sets =~= Seq::empty());
    } else {
        let fewer = sets.drop_last();
        let last = sets.last();
        let earlier = length_prefixed(fewer, 2)->Ok_0;
        let head = prefix(last.len(), 2);
        assert(head.len() == 2 && head[0] * 256 + head[1] == last.len()) by {
            reveal(pow);
            reveal_with_fuel(pow, 3);
            reveal_with_fuel(prefix, 3);
        }
        assert(s =~= before + earlier + (head + last + after));
        lemma_sets_read(before, fewer, head + last + after);
        let next = (before + earlier).len() as int;
        assert(s[next] == head[0] && s[next + 1] == head[1]);
        assert(s.subrange(next + 2, next + 2 + last.len()) =~= last);
        assert(sets =~= fewer.push(last));
    }
}

/// A configuration record reads back as the configuration it was written of,
/// where its counts can say how many sets there are and its prefix width is
/// one the record can say.
pub proof fn law_config_round_trips(config: AvcConfigView)
    requires
        1 <= config.parameters.sps.len() <= 31,
        1 <= config.parameters.pps.len() <= 255,
        prefix_width(config.nal_length_size),
        forall|i: int|
            0 <= i < config.parameters.sps.len() ==> (#[trigger] config.parameters.sps[i]).len()
                > 0,
        forall|i: int|
            0 <= i < config.parameters.pps.len() ==> (#[trigger] config.parameters.pps[i]).len()
                > 0,
        record_of(config) is Ok,
    ensures
        config_of(record_of(config)->Ok_0) == Ok::<_, H264Error>(config),
{
    let s = record_of(config)->Ok_0;
    let (sps, pps) = (config.parameters.sps, config.parameters.pps);
    let profile_level = profile_level_of(sps)->Ok_0;
    let (first, second) = (length_prefixed(sps, 2)->Ok_0, length_prefixed(pps, 2)->Ok_0);
    let width = ((config.nal_length_size - 1) as u8);
    assert((0xfcu8 | width) % 4 == width) by (bit_vector)
        requires
            width < 4,
    ;
    let head = seq![1u8] + profile_level + seq![0xfcu8 | width, (0xe0 + sps.len()) as u8];
    let count = seq![pps.len() as u8];
    assert(s =~= head + first + (count + second));
    lemma_sets_read(head, sps, count + second);
    let tail = head + first + count;
    assert(s =~= tail + second + Seq::empty());
    lemma_sets_read(tail, pps, Seq::empty());
    assert(s[0] == 1 && s[4] == (0xfcu8 | width) && s[5] == head[5]);
    assert(s[(head + first).len() as int] == count[0]);
}

/// Which unit is which: the low five bits of the header byte say, and the three
/// above them say nothing of it.
pub proof fn law_the_low_five_bits_name_a_unit(header: u8)
    ensures
        nal_type(header) is Slice <==> header % 32 == 1,
        nal_type(header) is Idr <==> header % 32 == 5,
        nal_type(header) is Sei <==> header % 32 == 6,
        nal_type(header) is Sps <==> header % 32 == 7,
        nal_type(header) is Pps <==> header % 32 == 8,
        nal_type(header) is Aud <==> header % 32 == 9,
        nal_type(header) matches NalType::Other(value) ==> value == header % 32,
{
}

/// A unit anywhere in a list counts, however the list goes on: an access unit is
/// a keyframe as soon as one of its units is a slice of an IDR, and a list of
/// none is nothing.
pub proof fn law_one_unit_is_enough(before: Seq<Seq<u8>>, unit: Seq<u8>, after: Seq<Seq<u8>>)
    requires
        unit.len() > 0,
    ensures
        has(Seq::empty(), NalType::Idr) == false,
        has(Seq::empty(), NalType::Sps) == false,
        has(Seq::empty(), NalType::Pps) == false,
        has(before + seq![unit] + after, NalType::Idr) == (has(before, NalType::Idr) || unit[0]
            % 32 == 5 || has(after, NalType::Idr)),
        has(before + seq![unit] + after, NalType::Sps) == (has(before, NalType::Sps) || unit[0]
            % 32 == 7 || has(after, NalType::Sps)),
        has(before + seq![unit] + after, NalType::Pps) == (has(before, NalType::Pps) || unit[0]
            % 32 == 8 || has(after, NalType::Pps)),
{
    lemma_one_unit_is_enough(before, unit, after, NalType::Idr);
    lemma_one_unit_is_enough(before, unit, after, NalType::Sps);
    lemma_one_unit_is_enough(before, unit, after, NalType::Pps);
}

proof fn lemma_one_unit_is_enough(
    before: Seq<Seq<u8>>,
    unit: Seq<u8>,
    after: Seq<Seq<u8>>,
    kind: NalType,
)
    ensures
        has(before + seq![unit] + after, kind) == (has(before, kind) || nal_type(unit[0]) == kind
            || has(after, kind)),
{
    let all = before + seq![unit] + after;
    let at = before.len() as int;
    assert(all[at] == unit);
    if has(before, kind) {
        let i = choose|i: int|
            0 <= i < before.len() && nal_type(#[trigger] before[i][0]) == kind;
        assert(all[i] == before[i]);
        assert(nal_type(all[i][0]) == kind);
    }
    if has(after, kind) {
        let i = choose|i: int| 0 <= i < after.len() && nal_type(#[trigger] after[i][0]) == kind;
        assert(all[at + 1 + i] == after[i]);
        assert(nal_type(all[at + 1 + i][0]) == kind);
    }
    if nal_type(unit[0]) == kind {
        assert(nal_type(all[at][0]) == kind);
    }
    if has(all, kind) {
        let i = choose|i: int| 0 <= i < all.len() && nal_type(#[trigger] all[i][0]) == kind;
        if i < at {
            assert(all[i] == before[i]);
            assert(nal_type(before[i][0]) == kind);
        } else if i > at {
            assert(all[i] == after[i - at - 1]);
            assert(nal_type(after[i - at - 1][0]) == kind);
        }
    }
}

/// Units with a start code before each, four bytes of it or three.
pub open spec fn coded(units: Seq<Seq<u8>>, wide: Seq<bool>) -> Seq<u8>
    decreases units.len(),
{
    if units.len() == 0 {
        Seq::empty()
    } else {
        (if wide.first() {
            seq![0u8, 0, 0, 1]
        } else {
            seq![0u8, 0, 1]
        }) + units.first() + coded(units.drop_first(), wide.drop_first())
    }
}

/// Either form of the start code separates units, and the two may be mixed; what
/// stands before the first is no unit. A unit that ends in a zero before the
/// short form loses it to the code, so none does here.
pub proof fn law_either_start_code_separates(
    lead: Seq<u8>,
    units: Seq<Seq<u8>>,
    wide: Seq<bool>,
)
    requires
        wide.len() == units.len(),
        !holds_a_code(lead),
        lead.len() > 0 ==> lead.last() != 0,
        forall|i: int| 0 <= i < units.len() ==> (#[trigger] units[i]).len() > 0,
        forall|i: int| 0 <= i < units.len() ==> (#[trigger] units[i]).last() != 0,
        forall|i: int| 0 <= i < units.len() ==> !holds_a_code(#[trigger] units[i]),
    ensures
        annex_b_units(lead + coded(units, wide), 0) == units,
{
    lemma_coded_splits(Seq::empty(), lead, units, wide);
    assert(Seq::<u8>::empty() + lead + coded(units, wide) =~= lead + coded(units, wide));
}

/// From a place inside a run that holds no start code, the next code is the one
/// after it, or there is none.
proof fn lemma_next_coded(
    before: Seq<u8>,
    run: Seq<u8>,
    units: Seq<Seq<u8>>,
    wide: Seq<bool>,
    from: int,
)
    requires
        wide.len() == units.len(),
        !holds_a_code(run),
        run.len() > 0 ==> run.last() != 0,
        before.len() <= from <= before.len() + run.len(),
    ensures
        next_code(before + run + coded(units, wide), from) == if units.len() == 0 {
            None
        } else {
            Some(
                (
                    (before + run).len() as int,
                    if wide.first() {
                        4int
                    } else {
                        3int
                    },
                ),
            )
        },
    decreases before.len() + run.len() - from,
{
    let s = before + run + coded(units, wide);
    let end = (before + run).len() as int;
    if units.len() == 0 {
        assert(s =~= before + run);
        lemma_no_code_after(before, run, from);
    } else {
        let code = if wide.first() {
            seq![0u8, 0, 0, 1]
        } else {
            seq![0u8, 0, 1]
        };
        let rest = units.first() + coded(units.drop_first(), wide.drop_first());
        assert(coded(units, wide) =~= code + rest);
        assert(s =~= before + run + code + rest);
        assert(forall|k: int| 0 <= k < code.len() ==> s[end + k] == #[trigger] code[k]);
        assert(code[0] == 0 && code[1] == 0);
        assert(s[end] == code[0] && s[end + 1] == code[1] && s[end + 2] == code[2]);
        if from == end {
            if wide.first() {
                assert(s[end + 3] == code[3]);
            }
        } else {
            let i = from - before.len();
            assert(s[from] == run[i]);
            if from + 1 < end {
                assert(s[from + 1] == run[i + 1]);
            }
            if from + 2 < end {
                assert(s[from + 2] == run[i + 2]);
                assert(!(run[i] == 0 && run[i + 1] == 0 && run[i + 2] == 1));
            }
            if from + 3 < end {
                assert(s[from + 3] == run[i + 3]);
                assert(!(run[i + 1] == 0 && run[i + 2] == 0 && run[i + 3] == 1));
            }
            assert(code_width(s, from) == 0);
            lemma_next_coded(before, run, units, wide, from + 1);
        }
    }
}

proof fn lemma_coded_splits(
    before: Seq<u8>,
    run: Seq<u8>,
    units: Seq<Seq<u8>>,
    wide: Seq<bool>,
)
    requires
        wide.len() == units.len(),
        !holds_a_code(run),
        run.len() > 0 ==> run.last() != 0,
        forall|i: int| 0 <= i < units.len() ==> (#[trigger] units[i]).len() > 0,
        forall|i: int| 0 <= i < units.len() ==> (#[trigger] units[i]).last() != 0,
        forall|i: int| 0 <= i < units.len() ==> !holds_a_code(#[trigger] units[i]),
    ensures
        annex_b_units(before + run + coded(units, wide), before.len() as int) == units,
    decreases units.len(),
{
    let s = before + run + coded(units, wide);
    let from = before.len() as int;
    lemma_next_coded(before, run, units, wide, from);
    if units.len() == 0 {
        assert(units =~= Seq::empty());
    } else {
        let code = if wide.first() {
            seq![0u8, 0, 0, 1]
        } else {
            seq![0u8, 0, 1]
        };
        let (first, others) = (units.first(), units.drop_first());
        let head = before + run + code;
        assert(s =~= head + first + coded(others, wide.drop_first()));
        lemma_coded_splits(head, first, others, wide.drop_first());
        lemma_next_coded(head, first, others, wide.drop_first(), head.len() as int);
        assert(s.subrange(head.len() as int, (head + first).len() as int) =~= first);
        assert(units =~= seq![first] + others);
        if others.len() == 0 {
            assert(s =~= head + first);
        }
    }
}

/// A stream starts with a start code where it starts with two zeros and a one, or
/// with three and a one.
pub proof fn law_start_codes(s: Seq<u8>)
    ensures
        code_width(s, 0) > 0 <==> {
            ||| s.len() >= 3 && s.take(3) == seq![0u8, 0, 1]
            ||| s.len() >= 4 && s.take(4) == seq![0u8, 0, 0, 1]
        },
{
    if s.len() >= 3 {
        if s[0] == 0 && s[1] == 0 && s[2] == 1 {
            assert(s.take(3) =~= seq![0u8, 0, 1]);
        }
        if s.take(3) == seq![0u8, 0, 1] {
            assert(s.take(3)[0] == 0 && s.take(3)[1] == 0 && s.take(3)[2] == 1);
        }
    }
    if s.len() >= 4 {
        if s[0] == 0 && s[1] == 0 && s[2] == 0 && s[3] == 1 {
            assert(s.take(4) =~= seq![0u8, 0, 0, 1]);
        }
        if s.take(4) == seq![0u8, 0, 0, 1] {
            assert(s.take(4)[0] == 0 && s.take(4)[1] == 0 && s.take(4)[2] == 0 && s.take(4)[3]
                == 1);
        }
    }
}

/// A length prefix has its highest byte first, in each of the widths there are,
/// and a length that it cannot say is refused.
pub proof fn law_prefixes_have_the_highest_byte_first(unit: Seq<u8>, size: nat)
    requires
        size == 1 || size == 2 || size == 4,
        unit.len() <= usize::MAX,
    ensures
        ({
            let limit: nat = if size == 1 {
                0x100
            } else if size == 2 {
                0x1_0000
            } else {
                0x1_0000_0000
            };
            match length_prefixed(seq![unit], size) {
                Ok(s) => {
                    &&& unit.len() < limit
                    &&& s.len() == size + unit.len()
                    &&& s.skip(size as int) == unit
                    &&& size == 1 ==> s[0] == unit.len()
                    &&& size == 2 ==> s[0] * 0x100 + s[1] == unit.len()
                    &&& size == 4 ==> s[0] * 0x100_0000 + s[1] * 0x1_0000 + s[2] * 0x100 + s[3]
                        == unit.len()
                },
                Err(error) => {
                    &&& unit.len() >= limit
                    &&& error == H264Error::NalUnitTooLong {
                        length: unit.len() as usize,
                        size: size as usize,
                    }
                },
            }
        }),
{
    reveal(pow);
    reveal_with_fuel(pow, 5);
    reveal_with_fuel(prefix, 5);
    let one = seq![unit];
    assert(one.drop_last() =~= Seq::empty());
    reveal_with_fuel(length_prefixed, 2);
    let n = unit.len();
    let (n1, n2, n3) = (n / 256, n / 256 / 256, n / 256 / 256 / 256);
    assert(n == n1 * 256 + n % 256 && n1 == n2 * 256 + n1 % 256 && n2 == n3 * 256 + n2 % 256);
    if prefix_fits(n, size) {
        let s = prefix(n, size) + unit;
        assert(prefix(n, size).len() == size);
        assert(Seq::<u8>::empty() + prefix(n, size) + unit =~= s);
        assert(s.skip(size as int) =~= unit);
        if size == 4 {
            assert(n3 < 256);
        }
    }
}

/// What a reader of a record is given: the version, the three bytes that repeat
/// the first SPS, the width and the two counted lists.
pub open spec fn record_with(
    repeated: (u8, u8, u8),
    width: u8,
    count: u8,
    sps: Seq<Seq<u8>>,
    pps: Seq<Seq<u8>>,
) -> Seq<u8> {
    seq![1u8, repeated.0, repeated.1, repeated.2, width, count] + listed(sps) + seq![
        pps.len() as u8,
    ] + listed(pps)
}

/// Parameter sets one after another, each behind its length in two bytes.
pub open spec fn listed(sets: Seq<Seq<u8>>) -> Seq<u8>
    decreases sets.len(),
{
    if sets.len() == 0 {
        Seq::empty()
    } else {
        listed(sets.drop_last()) + seq![
            (sets.last().len() / 256) as u8,
            (sets.last().len() % 256) as u8,
        ] + sets.last()
    }
}

/// Whether each set of a list can stand in a record: one byte or more, and no
/// more than two bytes of length can say.
pub open spec fn listable(sets: Seq<Seq<u8>>) -> bool {
    forall|i: int| 0 <= i < sets.len() ==> 0 < (#[trigger] sets[i]).len() <= 0xffff
}

proof fn lemma_listed_reads(before: Seq<u8>, sets: Seq<Seq<u8>>, after: Seq<u8>)
    requires
        listable(sets),
    ensures
        sets_at(before + listed(sets) + after, before.len() as int, sets.len()) == Ok::<
            _,
            H264Error,
        >((sets, (before + listed(sets)).len() as int)),
    decreases sets.len(),
{
    let s = before + listed(sets) + after;
    if sets.len() == 0 {
        assert(sets =~= Seq::empty());
    } else {
        let (fewer, last) = (sets.drop_last(), sets.last());
        let head = seq![(last.len() / 256) as u8, (last.len() % 256) as u8];
        assert(s =~= before + listed(fewer) + (head + last + after));
        lemma_listed_reads(before, fewer, head + last + after);
        let next = (before + listed(fewer)).len() as int;
        assert(s[next] == head[0] && s[next + 1] == head[1]);
        assert(num16(s, next) == last.len());
        assert(s.subrange(next + 2, next + 2 + last.len()) =~= last);
        assert(sets =~= fewer.push(last));
    }
}

/// A record is read for its sets and its width and for nothing else: whatever the
/// three repeated bytes are and the bits that are reserved, and whatever follows
/// the sets, it says the same.
pub proof fn law_records_are_read_for_their_sets(
    repeated: (u8, u8, u8),
    width: u8,
    count: u8,
    sps: Seq<Seq<u8>>,
    pps: Seq<Seq<u8>>,
    more: Seq<u8>,
)
    requires
        listable(sps) && listable(pps),
        1 <= sps.len() == count % 32,
        1 <= pps.len() <= 255,
        width % 4 != 2,
    ensures
        config_of(record_with(repeated, width, count, sps, pps) + more) == Ok::<_, H264Error>(
            AvcConfigView {
                parameters: ParametersView { sps, pps },
                nal_length_size: (width % 4 + 1) as nat,
            },
        ),
{
    let head = seq![1u8, repeated.0, repeated.1, repeated.2, width, count];
    let number = seq![pps.len() as u8];
    let s = record_with(repeated, width, count, sps, pps) + more;
    assert(s =~= head + listed(sps) + (number + listed(pps) + more));
    lemma_listed_reads(head, sps, number + listed(pps) + more);
    let tail = head + listed(sps) + number;
    assert(s =~= tail + listed(pps) + more);
    lemma_listed_reads(tail, pps, more);
    assert(s[0] == head[0] && s[4] == head[4] && s[5] == head[5]);
    assert(s[(head + listed(sps)).len() as int] == number[0]);
}

/// More bytes after a run of sets that could be read change nothing, and fewer
/// cut it short.
proof fn lemma_sets_stay(s: Seq<u8>, more: Seq<u8>, at: int, count: nat)
    requires
        0 <= at,
    ensures
        sets_at(s, at, count) is Ok ==> sets_at(s + more, at, count) == sets_at(s, at, count),
        sets_at(s, at, count) matches Ok((_, next)) ==> at <= next && (count > 0 ==> next
            <= s.len()),
        sets_at(s + more, at, count) is Ok ==> sets_at(s, at, count) is Ok || sets_at(
            s,
            at,
            count,
        )->Err_0 is Truncated,
    decreases count,
{
    if count > 0 {
        lemma_sets_stay(s, more, at, (count - 1) as nat);
        if let Ok((_, next)) = sets_at(s, at, (count - 1) as nat) {
            if s.len() - next >= 2 {
                assert((s + more)[next] == s[next] && (s + more)[next + 1] == s[next + 1]);
                let length = num16(s, next);
                assert(num16(s + more, next) == length);
                if s.len() - (next + 2) >= length {
                    assert((s + more).subrange(next + 2, next + 2 + length) =~= s.subrange(
                        next + 2,
                        next + 2 + length,
                    ));
                }
            }
        }
    }
}

/// Bytes after the parameter sets change nothing: a record that is read goes on
/// being read as the same configuration whatever follows it.
pub proof fn law_bytes_after_the_sets_change_nothing(record: Seq<u8>, more: Seq<u8>)
    requires
        config_of(record) is Ok,
    ensures
        config_of(record + more) == config_of(record),
{
    let s = record + more;
    assert(s[0] == record[0] && s[4] == record[4] && s[5] == record[5]);
    let (first, second) = ((record[5] as int % 32) as nat, 6int);
    lemma_sets_stay(record, more, second, first);
    if let Ok((_, next)) = sets_at(record, second, first) {
        assert(s[next] == record[next]);
        lemma_sets_stay(record, more, next + 1, (record[next] as int % 256) as nat);
    }
}

/// A record that ends before its sets do is refused as cut short, wherever it
/// ends: there is no configuration to be had from part of one.
#[verifier::spinoff_prover]
#[verifier::rlimit(30)]
pub proof fn law_records_cut_short_are_refused(
    repeated: (u8, u8, u8),
    width: u8,
    count: u8,
    sps: Seq<Seq<u8>>,
    pps: Seq<Seq<u8>>,
    length: int,
)
    requires
        listable(sps) && listable(pps),
        1 <= sps.len() == count % 32,
        1 <= pps.len() <= 255,
        width % 4 != 2,
        0 <= length < record_with(repeated, width, count, sps, pps).len(),
    ensures
        config_of(record_with(repeated, width, count, sps, pps).take(length)) matches Err(
            error,
        ) && error is Truncated,
{
    let whole = record_with(repeated, width, count, sps, pps);
    let (s, more) = (whole.take(length), whole.skip(length));
    assert(s + more =~= whole);
    let head = seq![1u8, repeated.0, repeated.1, repeated.2, width, count];
    let number = seq![pps.len() as u8];
    assert(whole =~= head + listed(sps) + (number + listed(pps)));
    lemma_listed_reads(head, sps, number + listed(pps));
    let tail = head + listed(sps) + number;
    assert(whole =~= tail + listed(pps) + Seq::empty());
    lemma_listed_reads(tail, pps, Seq::empty());
    assert(whole[0] == head[0] && whole[4] == head[4] && whole[5] == head[5]);
    if length >= 6 {
        assert(s[0] == whole[0] && s[4] == whole[4] && s[5] == whole[5]);
        lemma_sets_stay(s, more, 6, sps.len());
        if let Ok((_, next)) = sets_at(s, 6, sps.len()) {
            if next < s.len() {
                assert(s[next] == whole[next]);
                assert(whole[(head + listed(sps)).len() as int] == number[0]);
                lemma_sets_stay(s, more, next + 1, pps.len());
            }
        }
    } else if length >= 1 {
        assert(s[0] == whole[0]);
        if length >= 5 {
            assert(s[4] == whole[4]);
        }
    }
}

/// What no configuration is read from: a version other than one, a width of
/// three, and lists of no sets.
pub proof fn law_records_that_configure_nothing_are_refused(
    record: Seq<u8>,
    repeated: (u8, u8, u8),
    width: u8,
    count: u8,
    sps: Seq<Seq<u8>>,
    pps: Seq<Seq<u8>>,
    more: Seq<u8>,
)
    requires
        listable(sps) && listable(pps),
        sps.len() == count % 32,
        pps.len() <= 255,
    ensures
        record.len() >= 1 && record[0] != 1 ==> config_of(record) == Err::<AvcConfigView, _>(
            H264Error::UnsupportedConfigVersion(record[0]),
        ),
        record.len() >= 5 && record[0] == 1 && record[4] % 4 == 2 ==> config_of(record) == Err::<
            AvcConfigView,
            _,
        >(H264Error::UnsupportedLengthSize(3)),
        width % 4 != 2 && sps.len() == 0 ==> config_of(
            record_with(repeated, width, count, sps, pps) + more,
        ) == Err::<AvcConfigView, _>(H264Error::MissingParameterSet("SPS")),
        width % 4 != 2 && sps.len() > 0 && pps.len() == 0 ==> config_of(
            record_with(repeated, width, count, sps, pps) + more,
        ) == Err::<AvcConfigView, _>(H264Error::MissingParameterSet("PPS")),
{
    let head = seq![1u8, repeated.0, repeated.1, repeated.2, width, count];
    let number = seq![pps.len() as u8];
    let s = record_with(repeated, width, count, sps, pps) + more;
    assert(s =~= head + listed(sps) + (number + listed(pps) + more));
    lemma_listed_reads(head, sps, number + listed(pps) + more);
    let tail = head + listed(sps) + number;
    assert(s =~= tail + listed(pps) + more);
    lemma_listed_reads(tail, pps, more);
    assert(s[0] == head[0] && s[4] == head[4] && s[5] == head[5]);
    assert(s[(head + listed(sps)).len() as int] == number[0]);
}

/// The record that is written is the one that is read: the three bytes after the
/// version are those after the header of the first SPS, and the reserved bits are
/// ones. It is written of every configuration whose sets fit, and of no other.
pub proof fn law_records_are_written_with_their_sets(config: AvcConfigView)
    requires
        1 <= config.parameters.sps.len() <= 31,
        1 <= config.parameters.pps.len() <= 255,
        config.nal_length_size == 1 || config.nal_length_size == 2 || config.nal_length_size == 4,
        listable(config.parameters.sps) && listable(config.parameters.pps),
        config.parameters.sps[0].len() >= 4,
    ensures
        ({
            let (sps, pps) = (config.parameters.sps, config.parameters.pps);
            record_of(config) == Ok::<_, H264Error>(
                record_with(
                    (sps[0][1], sps[0][2], sps[0][3]),
                    (0xfc + config.nal_length_size - 1) as u8,
                    (0xe0 + sps.len()) as u8,
                    sps,
                    pps,
                ),
            )
        }),
{
    let (sps, pps) = (config.parameters.sps, config.parameters.pps);
    lemma_listed(sps);
    lemma_listed(pps);
    let width = (config.nal_length_size - 1) as u8;
    assert(0xfcu8 | width == 0xfc + width) by (bit_vector)
        requires
            width < 4,
    ;
    let level = profile_level_of(sps)->Ok_0;
    assert(record_of(config)->Ok_0 =~= record_with(
        (sps[0][1], sps[0][2], sps[0][3]),
        (0xfc + config.nal_length_size - 1) as u8,
        (0xe0 + sps.len()) as u8,
        sps,
        pps,
    ));
}

proof fn lemma_listed(sets: Seq<Seq<u8>>)
    requires
        listable(sets),
    ensures
        length_prefixed(sets, 2) == Ok::<_, H264Error>(listed(sets)),
    decreases sets.len(),
{
    if sets.len() > 0 {
        lemma_listed(sets.drop_last());
        let n = sets.last().len();
        assert(n == sets[sets.len() - 1].len());
        assert(prefix_fits(n, 2) && prefix(n, 2) =~= seq![(n / 256) as u8, (n % 256) as u8]) by {
            reveal(pow);
            reveal_with_fuel(pow, 3);
            reveal_with_fuel(prefix, 3);
        }
    }
}

/// What is wrong with a length-prefixed payload, where it is the first unit of it: a
/// prefix that is not all there, a unit of no bytes, and a unit that is not all there.
pub proof fn law_payloads_that_do_not_split(data: Seq<u8>, length: nat, size: nat)
    requires
        size == 1 || size == 2 || size == 4,
        data.len() > 0,
        length <= 0xff,
        data.len() >= size ==> data[size - 1] == length && forall|i: int|
            0 <= i < size - 1 ==> data[i] == 0,
    ensures
        data.len() < size ==> prefixed_units(data, 0, size) == Err::<Seq<Seq<u8>>, _>(
            H264Error::Truncated { offset: 0, needed: (size - data.len()) as usize },
        ),
        data.len() >= size && length == 0 ==> prefixed_units(data, 0, size) == Err::<
            Seq<Seq<u8>>,
            _,
        >(H264Error::EmptyNalUnit { offset: size as usize }),
        size <= data.len() < size + length ==> prefixed_units(data, 0, size) == Err::<
            Seq<Seq<u8>>,
            _,
        >(
            H264Error::Truncated {
                offset: size as usize,
                needed: (size + length - data.len()) as usize,
            },
        ),
{
    if data.len() >= size {
        let head = data.subrange(0, size as int);
        reveal(pow);
        reveal_with_fuel(pow, 5);
        reveal_with_fuel(prefix, 5);
        assert(length / 256 == 0);
        assert(prefix(length, size).len() == size);
        assert(prefix_fits(length, size));
        assert(head =~= prefix(length, size));
        lemma_prefix_reads(length, size);
    }
}

} // verus!
