//! What a stream is made of, as opposed to what is going through it.
//!
//! A path carries two things: a description, which says what the tracks are
//! and what a decoder needs to start on each, and a run of units, which is the
//! coded media itself. The split is forced by the protocols: every one of them
//! states the first before it sends any of the second, because a reader that
//! joined without it would have bytes it could not decode.
//!
//! All of them state the same facts in different notations, so this holds the
//! facts and each egress writes its own notation. Nothing here knows what SDP
//! looks like.
//!
//! # A description does not change
//!
//! It is fixed for the life of a stream. A publisher that changes what it is
//! sending is starting a different stream, and its readers are torn down and
//! rebuilt against the new description rather than being handed one
//! mid-flight. That is what lets a [`TrackId`] be an index: nothing renumbers
//! underneath it.

use crate::codec::aac::fields_of;
use crate::codec::h264::ParametersView;
use crate::codec::{aac, h264};
use vstd::prelude::*;

verus! {

/// Which of a stream's tracks a unit belongs to.
///
/// An index into the description that produced it, and meaningless against
/// any other. There is no public way to make one, so a unit's track always
/// names a track that exists.
#[derive(Clone, Copy, Debug, PartialEq, Eq, Hash, PartialOrd, Ord)]
pub struct TrackId(u16);

impl TrackId {
    /// Where the track sits in its description.
    pub closed spec fn spec_index(self) -> nat {
        self.0 as nat
    }

    /// Where the track sits in its description.
    pub fn index(self) -> (index: usize)
        ensures
            index == self.spec_index(),
            index <= 0xffff,
    {
        self.0 as usize
    }

    /// The track that sits at a place.
    pub(crate) fn at(index: u16) -> (id: Self)
        ensures
            id.spec_index() == index,
    {
        Self(index)
    }

    /// Whether two are the same track.
    pub fn same(self, other: TrackId) -> (same: bool)
        ensures
            same == (self.spec_index() == other.spec_index()),
            same == (self == other),
    {
        self.0 == other.0
    }
}

/// Whether a track is pictures or sound.
///
/// Read from the codec rather than stated beside it: H.264 is video, and a
/// second copy of that fact could only ever disagree with the first.
#[derive(Clone, Copy, Debug, PartialEq, Eq, Hash, Structural)]
pub enum Kind {
    Video,
    Audio,
}

/// A track's codec, and what a decoder has to be given to start on it.
///
/// The two are one type because neither is any use without the other: a
/// track that said "H.264" without parameter sets would describe something
/// no reader could play.
#[derive(Debug, PartialEq, Eq)]
pub enum Codec {
    H264(h264::Parameters),
    Aac(aac::Parameters),
}

/// What a [`Codec`] is: the parameter sets, or the record.
pub enum CodecView {
    H264(ParametersView),
    Aac(Seq<u8>),
}

impl View for Codec {
    type V = CodecView;

    open spec fn view(&self) -> CodecView {
        match *self {
            Codec::H264(parameters) => CodecView::H264(parameters@),
            Codec::Aac(parameters) => CodecView::Aac(parameters@),
        }
    }
}

impl CodecView {
    /// Whether this is pictures or sound.
    pub open spec fn kind(self) -> Kind {
        match self {
            CodecView::H264(_) => Kind::Video,
            CodecView::Aac(_) => Kind::Audio,
        }
    }

    /// The rate a timestamp on this track is counted in.
    pub open spec fn clock_rate(self) -> nat {
        match self {
            CodecView::H264(_) => 90_000,
            CodecView::Aac(record) => fields_of(record)->Ok_0.sample_rate,
        }
    }

    /// The parameter set a decoder would miss, if any.
    pub open spec fn missing(self) -> Option<&'static str> {
        match self {
            CodecView::H264(parameters) => if parameters.sps.len() == 0 {
                Some("SPS")
            } else if parameters.pps.len() == 0 {
                Some("PPS")
            } else {
                None
            },
            CodecView::Aac(_) => None,
        }
    }
}

impl Clone for Codec {
    fn clone(&self) -> (copy: Self)
        ensures
            copy@ == self@,
    {
        match self {
            Self::H264(parameters) => Self::H264(parameters.clone()),
            Self::Aac(parameters) => Self::Aac(parameters.clone()),
        }
    }
}

impl Codec {
    /// Whether this is pictures or sound.
    pub fn kind(&self) -> (kind: Kind)
        ensures
            kind == self@.kind(),
    {
        match self {
            Self::H264(_) => Kind::Video,
            Self::Aac(_) => Kind::Audio,
        }
    }

    /// The rate a timestamp on this track is counted in, which RTP calls the
    /// clock rate.
    ///
    /// Fixed at 90 kHz for H.264 by the RFC that packetizes it, whatever the
    /// frame rate; for AAC it is the sample rate, because a timestamp counts
    /// samples.
    pub fn clock_rate(&self) -> (rate: u32)
        ensures
            rate == self@.clock_rate(),
    {
        match self {
            Self::H264(_) => 90_000,
            Self::Aac(parameters) => parameters.sample_rate(),
        }
    }
}

/// One track: which it is, and what it carries.
#[derive(Debug, PartialEq, Eq)]
pub struct Track {
    id: TrackId,
    codec: Codec,
}

/// Which track a [`Track`] is, and what it carries.
pub struct TrackView {
    pub index: nat,
    pub codec: CodecView,
}

impl View for Track {
    type V = TrackView;

    closed spec fn view(&self) -> TrackView {
        TrackView { index: self.id.spec_index(), codec: self.codec@ }
    }
}

impl Clone for Track {
    fn clone(&self) -> (copy: Self)
        ensures
            copy@ == self@,
    {
        Self { id: self.id, codec: self.codec.clone() }
    }
}

impl Track {
    /// Which track this is, as its units name it.
    pub fn id(&self) -> (id: TrackId)
        ensures
            id.spec_index() == self@.index,
    {
        self.id
    }

    /// What it carries.
    pub fn codec(&self) -> (codec: &Codec)
        ensures
            codec@ == self@.codec,
    {
        &self.codec
    }

    /// Whether it is pictures or sound.
    pub fn kind(&self) -> (kind: Kind)
        ensures
            kind == self@.codec.kind(),
    {
        self.codec.kind()
    }
}

/// Why a set of tracks does not describe a stream.
#[derive(Debug, PartialEq, Eq)]
pub enum DescriptionError {
    /// A stream with no tracks is not a stream.
    NoTracks,
    /// More tracks than a [`TrackId`] can name. Nothing sane comes near it;
    /// the check is here so that an index cannot be wrong.
    TooManyTracks { limit: usize },
    /// An H.264 track without the parameter sets a decoder starts from. It
    /// would be published, and every reader would get bytes it could not
    /// begin on.
    MissingParameterSet { index: usize, missing: &'static str },
}

/// How many tracks a [`TrackId`] can name.
pub const MAX_TRACKS: usize = 0xffff;

/// The first track from `from` on that a decoder could not start on.
pub open spec fn first_unplayable(codecs: Seq<CodecView>, from: int) -> Option<DescriptionError>
    decreases codecs.len() - from,
{
    if from >= codecs.len() {
        None
    } else {
        match codecs[from].missing() {
            Some(missing) => Some(
                DescriptionError::MissingParameterSet { index: from as usize, missing },
            ),
            None => first_unplayable(codecs, from + 1),
        }
    }
}

/// Why a list of codecs does not describe a stream, if it does not.
pub open spec fn undescribable(codecs: Seq<CodecView>) -> Option<DescriptionError> {
    if codecs.len() == 0 {
        Some(DescriptionError::NoTracks)
    } else if codecs.len() > MAX_TRACKS {
        Some(DescriptionError::TooManyTracks { limit: MAX_TRACKS })
    } else {
        first_unplayable(codecs, 0)
    }
}

/// The codecs of a list.
pub open spec fn codec_views(codecs: Seq<Codec>) -> Seq<CodecView> {
    codecs.map_values(|codec: Codec| codec@)
}

/// What a stream is: its tracks, in the order they were declared.
///
/// Built once, checked once, and then immutable: see the module docs on why
/// it has to be.
#[derive(Debug, PartialEq, Eq)]
pub struct Description {
    tracks: Vec<Track>,
}

/// What a [`Description`] is: the codec of each track, in order.
impl View for Description {
    type V = Seq<CodecView>;

    closed spec fn view(&self) -> Seq<CodecView> {
        self.tracks@.map_values(|track: Track| track@.codec)
    }
}

impl Clone for Description {
    fn clone(&self) -> (copy: Self)
        ensures
            copy@ == self@,
    {
        proof {
            use_type_invariant(self);
        }
        let mut tracks: Vec<Track> = Vec::new();
        let mut i: usize = 0;
        while i < self.tracks.len()
            invariant
                i <= self.tracks@.len(),
                tracks@.len() == i,
                forall|j: int| 0 <= j < i ==> (#[trigger] tracks@[j])@ == self.tracks@[j]@,
            decreases self.tracks@.len() - i,
        {
            tracks.push(self.tracks[i].clone());
            i = i + 1;
        }
        assert(tracks@.map_values(|track: Track| track@.codec) =~= self@);
        Self { tracks }
    }
}

impl Description {
    #[verifier::type_invariant]
    spec fn numbered_and_playable(self) -> bool {
        &&& undescribable(self@) is None
        &&& forall|i: int| 0 <= i < self.tracks@.len() ==> (#[trigger] self.tracks@[i])@.index == i
    }

    /// Numbers the codecs into tracks, refusing a set that could not be
    /// played.
    ///
    /// The checks are here rather than at each egress: a stream that cannot be
    /// described should fail where it is published, with the publisher still
    /// connected to be told, and not once per reader.
    pub fn new(codecs: Vec<Codec>) -> (outcome: Result<Self, DescriptionError>)
        ensures
            match outcome {
                Ok(description) => undescribable(codec_views(codecs@)) is None && description@
                    == codec_views(codecs@),
                Err(error) => undescribable(codec_views(codecs@)) == Some(error),
            },
    {
        let ghost views = codec_views(codecs@);
        if codecs.len() == 0 {
            return Err(DescriptionError::NoTracks);
        }
        if codecs.len() > MAX_TRACKS {
            return Err(DescriptionError::TooManyTracks { limit: MAX_TRACKS });
        }
        let mut i: usize = 0;
        while i < codecs.len()
            invariant
                i <= codecs@.len() <= MAX_TRACKS,
                views == codec_views(codecs@),
                first_unplayable(views, 0) == first_unplayable(views, i as int),
            decreases codecs@.len() - i,
        {
            assert(views[i as int] == codecs@[i as int]@);
            if let Codec::H264(parameters) = &codecs[i] {
                if parameters.sps.len() == 0 {
                    return Err(DescriptionError::MissingParameterSet { index: i, missing: "SPS" });
                }
                if parameters.pps.len() == 0 {
                    return Err(DescriptionError::MissingParameterSet { index: i, missing: "PPS" });
                }
            }
            i = i + 1;
        }
        let mut tracks: Vec<Track> = Vec::new();
        for codec in iter: codecs
            invariant
                iter.seq() == codecs@,
                codecs@.len() <= MAX_TRACKS,
                tracks@.len() == iter.index(),
                forall|j: int|
                    0 <= j < tracks@.len() ==> (#[trigger] tracks@[j])@ == (TrackView {
                        index: j as nat,
                        codec: codecs@[j]@,
                    }),
        {
            let id = TrackId::at(tracks.len() as u16);
            tracks.push(Track { id, codec });
        }
        assert(tracks@.map_values(|track: Track| track@.codec) =~= views);
        Ok(Self { tracks })
    }

    /// Every track, in order.
    pub fn tracks(&self) -> (tracks: &[Track])
        ensures
            undescribable(self@) is None,
            tracks@.len() == self@.len(),
            forall|i: int|
                0 <= i < tracks@.len() ==> (#[trigger] tracks@[i])@ == (TrackView {
                    index: i as nat,
                    codec: self@[i],
                }),
    {
        proof {
            use_type_invariant(self);
        }
        self.tracks.as_slice()
    }

    /// The track a unit belongs to.
    ///
    /// `None` only for an id from some other description, which is the one
    /// way a unit and a description can fail to match.
    pub fn track(&self, id: TrackId) -> (track: Option<&Track>)
        ensures
            track is Some <==> id.spec_index() < self@.len(),
            track matches Some(track) ==> track@ == (TrackView {
                index: id.spec_index(),
                codec: self@[id.spec_index() as int],
            }),
    {
        proof {
            use_type_invariant(self);
        }
        let index: usize = id.index();
        if index < self.tracks.len() {
            Some(&self.tracks[index])
        } else {
            None
        }
    }

    /// The tracks that are pictures, or the ones that are sound.
    ///
    /// An egress that can carry one video track and one audio track, which
    /// is most of them, takes the first of each and leaves the rest.
    pub fn of_kind(&self, kind: Kind) -> (tracks: Vec<&Track>)
        ensures
            tracks@.map_values(|track: &Track| track@) == numbered(self@).filter(
                |track: TrackView| track.codec.kind() == kind,
            ),
    {
        proof {
            use_type_invariant(self);
        }
        let ghost all = numbered(self@);
        let ghost wanted = |track: TrackView| track.codec.kind() == kind;
        let mut found: Vec<&Track> = Vec::new();
        let mut i: usize = 0;
        assert(all.take(0) =~= Seq::empty());
        assert(found@.map_values(|track: &Track| track@) =~= all.take(0).filter(wanted)) by {
            reveal(Seq::filter);
        }
        while i < self.tracks.len()
            invariant
                i <= self.tracks@.len(),
                self.tracks@.len() == all.len(),
                forall|j: int| 0 <= j < all.len() ==> (#[trigger] self.tracks@[j])@ == all[j],
                wanted == (|track: TrackView| track.codec.kind() == kind),
                found@.map_values(|track: &Track| track@) == all.take(i as int).filter(wanted),
            decreases self.tracks@.len() - i,
        {
            let ghost before = found@;
            assert(all.take(i + 1).drop_last() =~= all.take(i as int));
            proof {
                reveal(Seq::filter);
            }
            if self.tracks[i].kind() == kind {
                found.push(&self.tracks[i]);
                assert(found@.map_values(|track: &Track| track@) =~= before.map_values(
                    |track: &Track| track@,
                ).push(all[i as int]));
            }
            i = i + 1;
        }
        assert(all.take(i as int) =~= all);
        found
    }
}

/// Codecs with the numbers their tracks have: where each sits.
pub open spec fn numbered(codecs: Seq<CodecView>) -> Seq<TrackView> {
    codecs.map(|index: int, codec: CodecView| TrackView { index: index as nat, codec })
}

/// What a track's codec makes it: H.264 is video and counts in 90 kHz, and AAC is
/// audio and counts in the sample rate of its record.
pub proof fn law_codecs_have_their_clocks(codec: CodecView)
    ensures
        codec is H264 <==> codec.kind() == Kind::Video,
        codec is Aac <==> codec.kind() == Kind::Audio,
        codec is H264 ==> codec.clock_rate() == 90_000,
        codec matches CodecView::Aac(record) ==> (fields_of(record) matches Ok(fields)
            ==> codec.clock_rate() == fields.sample_rate),
{
}

/// Which tracks can be described: one or more of them, as many as 16 bits can
/// number, and of every H.264 track both kinds of parameter set.
pub proof fn law_what_can_be_described(codecs: Seq<CodecView>)
    ensures
        undescribable(codecs) is None <==> {
            &&& 1 <= codecs.len() <= 65535
            &&& forall|i: int|
                0 <= i < codecs.len() ==> (#[trigger] codecs[i] matches CodecView::H264(parameters)
                    ==> parameters.sps.len() > 0 && parameters.pps.len() > 0)
        },
        undescribable(codecs) == Some(DescriptionError::NoTracks) <==> codecs.len() == 0,
        undescribable(codecs) is Some && undescribable(codecs)->0 is TooManyTracks
            <==> codecs.len() > 65535,
{
    lemma_first_unplayable(codecs, 0);
}

/// The track that is named for what it misses is the first that misses anything.
pub proof fn law_the_first_that_misses_is_named(
    codecs: Seq<CodecView>,
    at: int,
    parameters: ParametersView,
)
    requires
        0 <= at < codecs.len() <= 65535,
        codecs[at] == CodecView::H264(parameters),
        parameters.sps.len() == 0 || parameters.pps.len() == 0,
        forall|i: int|
            0 <= i < at ==> (#[trigger] codecs[i] matches CodecView::H264(before)
                ==> before.sps.len() > 0 && before.pps.len() > 0),
    ensures
        undescribable(codecs) == Some(
            DescriptionError::MissingParameterSet {
                index: at as usize,
                missing: if parameters.sps.len() == 0 {
                    "SPS"
                } else {
                    "PPS"
                },
            },
        ),
{
    lemma_unplayable_at(codecs, 0, at);
}

proof fn lemma_unplayable_at(codecs: Seq<CodecView>, from: int, at: int)
    requires
        0 <= from <= at < codecs.len(),
        codecs[at].missing() is Some,
        forall|i: int| 0 <= i < at ==> (#[trigger] codecs[i]).missing() is None,
    ensures
        first_unplayable(codecs, from) == Some(
            DescriptionError::MissingParameterSet {
                index: at as usize,
                missing: codecs[at].missing()->0,
            },
        ),
    decreases at - from,
{
    if from < at {
        lemma_unplayable_at(codecs, from + 1, at);
    }
}

proof fn lemma_first_unplayable(codecs: Seq<CodecView>, from: int)
    requires
        0 <= from <= codecs.len(),
    ensures
        first_unplayable(codecs, from) is None <==> forall|i: int|
            from <= i < codecs.len() ==> (#[trigger] codecs[i]).missing() is None,
        first_unplayable(codecs, from) matches Some(error) ==> error is MissingParameterSet,
    decreases codecs.len() - from,
{
    if from < codecs.len() && codecs[from].missing() is None {
        lemma_first_unplayable(codecs, from + 1);
        if first_unplayable(codecs, from) is None {
            assert forall|i: int| from <= i < codecs.len() implies (
            #[trigger] codecs[i]).missing() is None by {
                if i > from {
                    assert(codecs[i].missing() is None);
                }
            }
        }
    }
}

/// Tracks are numbered by their place, from zero and without a gap, and keep their
/// codec.
pub proof fn law_tracks_are_numbered_in_order(codecs: Seq<CodecView>, index: int)
    requires
        0 <= index < codecs.len(),
    ensures
        numbered(codecs).len() == codecs.len(),
        numbered(codecs)[index].index == index,
        numbered(codecs)[index].codec == codecs[index],
{
}

} // verus!
