//! What every protocol in this crate agrees on.
//!
//! A [`Unit`] is one access unit, a coded picture or a frame of sound, with
//! the track it belongs to and when it belongs there. That is all a relay
//! needs: an ingest makes them, a path fans them out, and each egress packages
//! them for its own protocol. What a track *is* lives beside them, in a
//! [`crate::track::Description`].
//!
//! # Why the two kinds are separate types
//!
//! A picture may be decoded out of order, so it has both a presentation and
//! a decode time, and it may or may not be a place a reader can start.
//! Sound is neither: AAC is never reordered and every frame stands alone.
//! So each holds what it has, and [`Unit`] puts them in one queue. What a
//! path needs of a unit without caring which it is, which track, when, and
//! whether a reader may join at it, is on [`Unit`] itself.

use crate::buffer::{octets, Contents};
use crate::codec::h264;
use crate::codec::h264::{has, units, NalType};
use crate::time::MediaTime;
use crate::track::TrackId;
use bytes::Bytes;
use vstd::prelude::*;
use vstd::std_specs::convert::FromSpecImpl;

verus! {

/// One coded picture, under the codec that says how to read it.
///
/// The codec belongs here rather than on each NAL unit because it is a
/// property of the stream: every unit of one picture is the same codec, and
/// tagging them individually would let a picture be assembled out of two.
///
/// It is an enum rather than a byte payload plus a codec name so that
/// nothing can read HEVC unit types as H.264 ones.
#[derive(Debug, PartialEq, Eq)]
pub enum VideoPayload {
    /// H.264, as a list of unframed NAL units in bitstream order.
    H264(Vec<h264::Nal>),
}

/// What a [`VideoPayload`] is: the bytes of each unit, in order.
impl View for VideoPayload {
    type V = Seq<Seq<u8>>;

    open spec fn view(&self) -> Seq<Seq<u8>> {
        match *self {
            VideoPayload::H264(nalus) => units(nalus@),
        }
    }
}

impl Clone for VideoPayload {
    fn clone(&self) -> (copy: Self)
        ensures
            copy@ == self@,
    {
        match self {
            Self::H264(nalus) => Self::H264(h264::clone_units(nalus)),
        }
    }
}

/// How many bytes a list of units has in all.
pub open spec fn total_length(units: Seq<Seq<u8>>) -> nat
    decreases units.len(),
{
    if units.len() == 0 {
        0
    } else {
        total_length(units.drop_last()) + units.last().len()
    }
}

proof fn lemma_total_grows(units: Seq<Seq<u8>>, count: int)
    requires
        0 <= count <= units.len(),
    ensures
        total_length(units.take(count)) <= total_length(units),
    decreases units.len() - count,
{
    if count < units.len() {
        lemma_total_grows(units, count + 1);
        assert(units.take(count + 1).drop_last() =~= units.take(count));
    } else {
        assert(units.take(count) =~= units);
    }
}

impl VideoPayload {
    /// Whether this picture can be decoded with nothing before it, which is
    /// what makes it a place a new reader can be started from.
    pub fn is_keyframe(&self) -> (keyframe: bool)
        ensures
            keyframe == has(self@, NalType::Idr),
    {
        match self {
            Self::H264(nalus) => h264::is_keyframe(nalus.as_slice()),
        }
    }

    /// Whether the picture carries the parameter sets a decoder needs, so
    /// that an egress which cannot state them separately has nothing to put
    /// in front of it.
    pub fn carries_parameter_sets(&self) -> (carries: bool)
        ensures
            carries == (has(self@, NalType::Sps) && has(self@, NalType::Pps)),
    {
        match self {
            Self::H264(nalus) => h264::carries_parameter_sets(nalus.as_slice()),
        }
    }

    /// How many coded bytes this is, not counting whatever framing an egress
    /// will add. What a queue holding units has to measure itself in: their
    /// number says nothing, since one picture can outweigh a thousand frames
    /// of sound.
    pub fn len(&self) -> (length: usize)
        requires
            total_length(self@) <= usize::MAX,
        ensures
            length == total_length(self@),
    {
        match self {
            Self::H264(nalus) => {
                let ghost all = self@;
                let mut length: usize = 0;
                let mut i: usize = 0;
                assert(all.take(0) =~= Seq::empty());
                while i < nalus.len()
                    invariant
                        i <= nalus@.len(),
                        all == units(nalus@),
                        total_length(all) <= usize::MAX,
                        length == total_length(all.take(i as int)),
                    decreases nalus@.len() - i,
                {
                    proof {
                        assert(all.take(i + 1).drop_last() =~= all.take(i as int));
                        lemma_total_grows(all, i + 1);
                    }
                    length = length + octets(nalus[i].data()).len();
                    i = i + 1;
                }
                assert(all.take(i as int) =~= all);
                length
            },
        }
    }

    /// Whether it carries nothing, which a well-formed picture never does.
    pub fn is_empty(&self) -> (empty: bool)
        requires
            total_length(self@) <= usize::MAX,
        ensures
            empty == (total_length(self@) == 0),
    {
        self.len() == 0
    }
}

/// One frame of sound, under the codec that says how to read it.
///
/// There is no `is_keyframe` here to match [`VideoPayload`]'s: every frame
/// of every codec this carries stands alone, so the question has one answer
/// and asking it would suggest otherwise.
#[derive(Debug, PartialEq, Eq)]
pub enum AudioPayload {
    /// AAC, as one raw access unit: no ADTS header, which is a framing that
    /// belongs to the protocols asking for one.
    Aac(Bytes),
}

/// What an [`AudioPayload`] is: the bytes of its frame.
impl View for AudioPayload {
    type V = Seq<u8>;

    open spec fn view(&self) -> Seq<u8> {
        match *self {
            AudioPayload::Aac(frame) => frame@,
        }
    }
}

impl Clone for AudioPayload {
    fn clone(&self) -> (copy: Self)
        ensures
            copy@ == self@,
    {
        match self {
            Self::Aac(frame) => Self::Aac(frame.clone()),
        }
    }
}

impl AudioPayload {
    /// How many coded bytes this is. See [`VideoPayload::len`].
    pub fn len(&self) -> (length: usize)
        ensures
            length == self@.len(),
    {
        match self {
            Self::Aac(frame) => octets(frame).len(),
        }
    }

    /// Whether it carries nothing.
    pub fn is_empty(&self) -> (empty: bool)
        ensures
            empty == (self@.len() == 0),
    {
        self.len() == 0
    }
}

/// One coded picture, and where it belongs.
#[derive(Debug, PartialEq, Eq)]
pub struct VideoUnit {
    /// Which of the stream's tracks this is part of.
    pub track: TrackId,
    /// The coded picture.
    pub payload: VideoPayload,
    /// Presentation time, from the start of the stream.
    ///
    /// Relative rather than absolute because a reader that joins late still
    /// needs a timeline that starts at zero, and because the protocols
    /// disagree about the epoch.
    pub pts: MediaTime,
    /// Decode time, which is `pts` for a stream without B-frames and earlier
    /// than it for one with them.
    pub dts: MediaTime,
    /// Whether this unit can be decoded with nothing before it.
    ///
    /// Cached rather than read from `payload` each time: every egress asks,
    /// and the answer cannot change once the unit is made.
    pub keyframe: bool,
}

impl Clone for VideoUnit {
    fn clone(&self) -> (copy: Self)
        ensures
            Unit::Video(copy)@ == Unit::Video(*self)@,
    {
        Self {
            track: self.track,
            payload: self.payload.clone(),
            pts: self.pts,
            dts: self.dts,
            keyframe: self.keyframe,
        }
    }
}

impl VideoUnit {
    /// Builds a unit, reading from the payload whether it is a keyframe.
    pub fn new(track: TrackId, payload: VideoPayload, pts: MediaTime, dts: MediaTime) -> (unit:
        Self)
        ensures
            unit == (VideoUnit {
                track,
                payload,
                pts,
                dts,
                keyframe: has(payload@, NalType::Idr),
            }),
    {
        let keyframe = payload.is_keyframe();
        Self { track, payload, pts, dts, keyframe }
    }
}

/// One frame of sound, and where it belongs.
///
/// Shorter than [`VideoUnit`] by exactly what sound does not have: no decode
/// time, because nothing reorders it, and no keyframe flag, because every
/// frame is one.
#[derive(Debug, PartialEq, Eq)]
pub struct AudioUnit {
    /// Which of the stream's tracks this is part of.
    pub track: TrackId,
    /// The coded frame.
    pub payload: AudioPayload,
    /// Presentation time, from the start of the stream. See
    /// [`VideoUnit::pts`].
    pub pts: MediaTime,
}

impl Clone for AudioUnit {
    fn clone(&self) -> (copy: Self)
        ensures
            Unit::Audio(copy)@ == Unit::Audio(*self)@,
    {
        Self { track: self.track, payload: self.payload.clone(), pts: self.pts }
    }
}

/// One access unit of either kind.
///
/// What a path holds and fans out. One queue rather than two, so that
/// pictures and sound keep the order they arrived in: an egress sends them
/// in that order, and a queue trimmed back to the last keyframe drops the
/// sound between there and here along with it.
///
/// Cloning is cheap and is how a path serves more than one reader:
/// `bytes::Bytes` shares its buffer, so fan-out copies the list and not the
/// media.
#[derive(Debug, PartialEq, Eq)]
pub enum Unit {
    Video(VideoUnit),
    Audio(AudioUnit),
}

/// What a [`Unit`] is. Times are in nanoseconds.
pub enum UnitView {
    Video { track: nat, nalus: Seq<Seq<u8>>, pts: nat, dts: nat, keyframe: bool },
    Audio { track: nat, frame: Seq<u8>, pts: nat },
}

impl View for Unit {
    type V = UnitView;

    open spec fn view(&self) -> UnitView {
        match *self {
            Unit::Video(unit) => UnitView::Video {
                track: unit.track.spec_index(),
                nalus: unit.payload@,
                pts: unit.pts@,
                dts: unit.dts@,
                keyframe: unit.keyframe,
            },
            Unit::Audio(unit) => UnitView::Audio {
                track: unit.track.spec_index(),
                frame: unit.payload@,
                pts: unit.pts@,
            },
        }
    }
}

impl UnitView {
    /// Which of the stream's tracks this belongs to.
    pub open spec fn track(self) -> nat {
        match self {
            UnitView::Video { track, .. } => track,
            UnitView::Audio { track, .. } => track,
        }
    }

    /// When it belongs.
    pub open spec fn pts(self) -> nat {
        match self {
            UnitView::Video { pts, .. } => pts,
            UnitView::Audio { pts, .. } => pts,
        }
    }

    /// Whether a reader given nothing before this could decode it.
    pub open spec fn is_keyframe(self) -> bool {
        self matches UnitView::Video { keyframe, .. } ==> keyframe
    }

    /// Whether this is a picture a reader can be started at.
    pub open spec fn opens_a_stream(self) -> bool {
        self matches UnitView::Video { keyframe, .. } && keyframe
    }

    /// How many coded bytes this carries.
    pub open spec fn length(self) -> nat {
        match self {
            UnitView::Video { nalus, .. } => total_length(nalus),
            UnitView::Audio { frame, .. } => frame.len(),
        }
    }
}

impl Clone for Unit {
    fn clone(&self) -> (copy: Self)
        ensures
            copy@ == self@,
    {
        match self {
            Self::Video(unit) => Self::Video(unit.clone()),
            Self::Audio(unit) => Self::Audio(unit.clone()),
        }
    }
}

impl Unit {
    /// Which of the stream's tracks this belongs to.
    pub fn track(&self) -> (track: TrackId)
        ensures
            track.spec_index() == self@.track(),
    {
        match self {
            Self::Video(unit) => unit.track,
            Self::Audio(unit) => unit.track,
        }
    }

    /// When it belongs.
    pub fn pts(&self) -> (pts: MediaTime)
        ensures
            pts@ == self@.pts(),
    {
        match self {
            Self::Video(unit) => unit.pts,
            Self::Audio(unit) => unit.pts,
        }
    }

    /// Whether a reader given nothing before this could decode it, which is
    /// what a path asks when it is deciding where a new one may join and
    /// what a full queue may drop.
    ///
    /// Always true for sound. That is not a stand-in for an answer this
    /// cannot give: an AAC frame really can be decoded on its own, and a
    /// reader that started at one would hear it.
    pub fn is_keyframe(&self) -> (keyframe: bool)
        ensures
            keyframe == self@.is_keyframe(),
    {
        match self {
            Self::Video(unit) => unit.keyframe,
            Self::Audio(_) => true,
        }
    }

    /// Whether this is a picture a reader can be started at, which is not
    /// the same question as [`Unit::is_keyframe`].
    ///
    /// A queue holding a stream back to the last place a reader could join
    /// has to cut at a picture. Cutting at sound would leave the pictures
    /// before it, which nothing can decode.
    pub fn opens_a_stream(&self) -> (opens: bool)
        ensures
            opens == self@.opens_a_stream(),
    {
        match self {
            Self::Video(unit) => unit.keyframe,
            Self::Audio(_) => false,
        }
    }

    /// How many coded bytes this carries.
    pub fn len(&self) -> (length: usize)
        requires
            self@.length() <= usize::MAX,
        ensures
            length == self@.length(),
    {
        match self {
            Self::Video(unit) => unit.payload.len(),
            Self::Audio(unit) => unit.payload.len(),
        }
    }

    /// Whether it carries nothing.
    pub fn is_empty(&self) -> (empty: bool)
        requires
            self@.length() <= usize::MAX,
        ensures
            empty == (self@.length() == 0),
    {
        self.len() == 0
    }
}

impl From<VideoUnit> for Unit {
    fn from(unit: VideoUnit) -> (wrapped: Self) {
        Self::Video(unit)
    }
}

impl FromSpecImpl<VideoUnit> for Unit {
    open spec fn obeys_from_spec() -> bool {
        true
    }

    open spec fn from_spec(unit: VideoUnit) -> Self {
        Unit::Video(unit)
    }
}

impl From<AudioUnit> for Unit {
    fn from(unit: AudioUnit) -> (wrapped: Self) {
        Self::Audio(unit)
    }
}

impl FromSpecImpl<AudioUnit> for Unit {
    open spec fn obeys_from_spec() -> bool {
        true
    }

    open spec fn from_spec(unit: AudioUnit) -> Self {
        Unit::Audio(unit)
    }
}

/// A picture that opens a stream is a keyframe; sound is one and opens none.
pub proof fn law_only_pictures_open_a_stream(unit: UnitView)
    ensures
        unit.opens_a_stream() ==> unit.is_keyframe() && unit is Video,
        unit is Audio ==> unit.is_keyframe() && !unit.opens_a_stream(),
        unit is Video ==> unit.is_keyframe() == unit.opens_a_stream(),
{
}

/// What a unit says of itself is what it was made with: its track and its time,
/// and whether a stream can be joined at it, which at sound it never can be.
pub proof fn law_units_say_what_they_are(
    track: nat,
    nalus: Seq<Seq<u8>>,
    frame: Seq<u8>,
    pts: nat,
    dts: nat,
    keyframe: bool,
)
    ensures
        ({
            let picture = UnitView::Video { track, nalus, pts, dts, keyframe };
            let sound = UnitView::Audio { track, frame, pts };
            &&& picture.track() == track && sound.track() == track
            &&& picture.pts() == pts && sound.pts() == pts
            &&& picture.is_keyframe() == keyframe && sound.is_keyframe()
            &&& picture.opens_a_stream() == keyframe && sound.opens_a_stream() == false
            &&& sound.length() == frame.len()
        }),
{
}

/// The length of a picture is that of all its units together: one more adds its
/// own, wherever it stands.
pub proof fn law_lengths_add_up(first: Seq<Seq<u8>>, unit: Seq<u8>, then: Seq<Seq<u8>>)
    ensures
        total_length(Seq::empty()) == 0,
        total_length(first + seq![unit] + then) == total_length(first) + unit.len() + total_length(
            then,
        ),
    decreases then.len(),
{
    if then.len() == 0 {
        assert(first + seq![unit] + then =~= first.push(unit));
        assert(first.push(unit).drop_last() =~= first);
    } else {
        law_lengths_add_up(first, unit, then.drop_last());
        let all = first + seq![unit] + then;
        assert(all.drop_last() =~= first + seq![unit] + then.drop_last());
    }
}

} // verus!
