//! Where a stream is put, and where readers find it.
//!
//! A path is a name with one publisher and any number of readers. The
//! publisher hands it units; every reader gets each of them. Nothing here
//! knows a protocol, and nothing here waits: a [`Registry`] says who publishes
//! to what and what a reader that joins is given first, and a [`Reader`] says
//! what to make of what then arrives. Whoever owns the sockets owns the locks
//! and the queues between the two.
//!
//! # A publisher is never made to wait
//!
//! A live encoder has nowhere to put a picture it is not allowed to send, so
//! pushing back on it does not slow anything down: it breaks the broadcast.
//! Every queue is bounded and drops instead, and the reader that fell behind
//! is the one that loses something.
//!
//! # What a reader that fell behind loses
//!
//! Not the oldest units, but everything up to the next picture it can start
//! at. Dropping one picture out of the middle of a group leaves the ones
//! after it referring to something the reader never got: they decode into
//! smears rather than into nothing, which is worse, and they go on doing it
//! until the next keyframe anyway. So the skip is made deliberately and all
//! at once.
//!
//! # What a reader gets before anything live
//!
//! The units since the last picture a stream can be started at, so a reader
//! that joins between keyframes has something to decode immediately instead
//! of a black screen until the next one.
//!
//! One group of pictures, and never part of one. A group that grows past
//! [`CACHE_LIMIT`] is dropped whole and nothing is kept until the next
//! keyframe, because half a group would not start a reader anyway. A stream
//! with no pictures has nothing to cut a group at, so it drops its oldest
//! instead, which is right where every frame stands alone.

use crate::text::same_text;
use crate::track::{CodecView, Description};
use crate::unit::{total_length, Unit, UnitView};
use std::collections::VecDeque;
use vstd::prelude::*;

verus! {

/// How many units a reader may fall behind by before it is made to skip.
///
/// Counted in units rather than bytes because that is what the queue under
/// it counts. Several seconds of a stream at any ordinary frame rate, which
/// is far longer than a reader that is going to recover needs.
pub const BACKLOG: usize = 1024;

/// How much of a stream is held for readers that have not joined yet.
///
/// A cap rather than a target: what is kept is one group of pictures, and
/// this is only what happens when a publisher sends one longer than any
/// reader would want to be handed at once.
pub const CACHE_LIMIT: usize = 8 * 1024 * 1024;

/// The units of a list.
pub open spec fn unit_views(units: Seq<Unit>) -> Seq<UnitView> {
    units.map_values(|unit: Unit| unit@)
}

/// How many coded bytes a run of units carries.
pub open spec fn weight(units: Seq<UnitView>) -> nat
    decreases units.len(),
{
    if units.len() == 0 {
        0
    } else {
        weight(units.drop_last()) + units.last().length()
    }
}

/// What a reader that has just joined is given.
///
/// One group of pictures: everything since the last one a stream can be
/// started at.
pub struct Cache {
    units: VecDeque<Unit>,
    bytes: usize,
    /// Set when a group grew past what is worth keeping, and cleared at the
    /// next one. While it is set nothing is kept: half a group is not
    /// something a reader can start on, so there is no point holding it.
    overflowed: bool,
    /// Whether the stream has pictures. Without them there is nothing to cut
    /// a group at, and since every frame of sound stands alone the oldest
    /// can simply be dropped instead.
    pictures: bool,
}

/// What a [`Cache`] holds.
pub struct CacheView {
    pub units: Seq<UnitView>,
    pub overflowed: bool,
    pub pictures: bool,
}

impl View for Cache {
    type V = CacheView;

    closed spec fn view(&self) -> CacheView {
        CacheView {
            units: unit_views(self.units@),
            overflowed: self.overflowed,
            pictures: self.pictures,
        }
    }
}

impl CacheView {
    /// What holds of every cache: it is no heavier than the limit; once the
    /// stream has pictures it is one group or nothing, starting at the picture
    /// that opens it; and while a group is overflowing it is nothing.
    pub open spec fn wf(self) -> bool {
        &&& weight(self.units) <= CACHE_LIMIT
        &&& self.pictures && !self.overflowed ==> self.units.len() > 0
        &&& forall|i: int|
            0 <= i < self.units.len() ==> (#[trigger] self.units[i]).opens_a_stream() == (
            self.pictures && i == 0)
        &&& self.overflowed ==> self.units.len() == 0 && self.pictures
    }
}

/// A cache that holds nothing.
pub open spec fn empty_cache() -> CacheView {
    CacheView { units: Seq::empty(), overflowed: false, pictures: false }
}

/// A run of units without the oldest, down to what is worth keeping.
pub open spec fn trimmed(units: Seq<UnitView>) -> Seq<UnitView>
    decreases units.len(),
{
    if weight(units) <= CACHE_LIMIT || units.len() == 0 {
        units
    } else {
        trimmed(units.drop_first())
    }
}

/// A cache after a unit more.
pub open spec fn cached(cache: CacheView, unit: UnitView) -> CacheView {
    let group = if unit.opens_a_stream() {
        CacheView { units: Seq::empty(), overflowed: false, pictures: true }
    } else {
        cache
    };
    let units = group.units.push(unit);
    if group.overflowed {
        group
    } else if weight(units) <= CACHE_LIMIT {
        CacheView { units, ..group }
    } else if group.pictures {
        CacheView { units: Seq::empty(), overflowed: true, pictures: true }
    } else {
        CacheView { units: trimmed(units), ..group }
    }
}

proof fn lemma_weight_first(units: Seq<UnitView>)
    requires
        units.len() > 0,
    ensures
        weight(units) == units[0].length() + weight(units.drop_first()),
    decreases units.len(),
{
    if units.len() == 1 {
        assert(units.drop_first() =~= Seq::empty());
        assert(units.drop_last() =~= Seq::empty());
        assert(weight(units.drop_last()) == 0);
    } else {
        lemma_weight_first(units.drop_last());
        assert(units.drop_first().drop_last() =~= units.drop_last().drop_first());
    }
}

proof fn lemma_trimmed(units: Seq<UnitView>)
    ensures
        weight(trimmed(units)) <= CACHE_LIMIT,
        trimmed(units).len() <= units.len(),
        trimmed(units) == units.skip(units.len() - trimmed(units).len()),
        trimmed(units).len() < units.len() ==> weight(
            units.skip(units.len() - trimmed(units).len() - 1),
        ) > CACHE_LIMIT,
    decreases units.len(),
{
    if weight(units) <= CACHE_LIMIT || units.len() == 0 {
        assert(units.skip(0) =~= units);
    } else {
        let fewer = units.drop_first();
        lemma_trimmed(fewer);
        assert(trimmed(units) =~= units.skip(units.len() - trimmed(units).len()));
        if trimmed(units).len() < fewer.len() {
            assert(units.skip(units.len() - trimmed(units).len() - 1) =~= fewer.skip(
                fewer.len() - trimmed(units).len() - 1,
            ));
        } else {
            assert(units.skip(0) =~= units);
        }
    }
}

/// What is taken in keeps a cache as it has to be.
proof fn lemma_cached_is_well_formed(cache: CacheView, unit: UnitView)
    requires
        cache.wf(),
    ensures
        cached(cache, unit).wf(),
{
    assert(weight(Seq::<UnitView>::empty()) == 0);
    let group = if unit.opens_a_stream() {
        CacheView { units: Seq::empty(), overflowed: false, pictures: true }
    } else {
        cache
    };
    let units = group.units.push(unit);
    let after = cached(cache, unit);
    lemma_trimmed(units);
    assert forall|i: int| 0 <= i < after.units.len() implies (
    #[trigger] after.units[i]).opens_a_stream() == (after.pictures && i == 0) by {
        if !group.overflowed {
            assert(after.units[i] == units[units.len() - after.units.len() + i]);
        }
    }
}

impl Cache {
    /// What holds of every cache.
    pub closed spec fn wf(&self) -> bool {
        &&& self@.wf()
        &&& self.bytes == weight(self@.units)
    }

    /// A cache that holds nothing.
    pub fn new() -> (cache: Self)
        ensures
            cache@ == empty_cache(),
            cache.wf(),
            cache@.wf(),
    {
        let cache = Self {
            units: VecDeque::new(),
            bytes: 0,
            overflowed: false,
            pictures: false,
        };
        assert(cache@.units =~= Seq::empty());
        cache
    }

    /// Takes in a unit.
    pub fn push(&mut self, unit: &Unit)
        requires
            old(self).wf(),
            unit@.length() + CACHE_LIMIT <= usize::MAX,
        ensures
            final(self).wf(),
            final(self)@.wf(),
            final(self)@ == cached(old(self)@, unit@),
    {
        if unit.opens_a_stream() {
            self.units.clear();
            self.bytes = 0;
            self.overflowed = false;
            self.pictures = true;
            assert(self@.units =~= Seq::empty());
        }
        if self.overflowed {
            return;
        }
        let ghost group = self@;
        let ghost before = self@.units;
        assert(self.bytes == weight(before));
        self.units.push_back(unit.clone());
        assert(self@.units =~= before.push(unit@));
        assert(before.push(unit@).drop_last() =~= before);
        let length: usize = unit.len();
        self.bytes = self.bytes + length;
        assert(self.bytes == weight(self@.units));
        if self.bytes > CACHE_LIMIT && self.pictures {
            // A group too long to keep. Everything of it goes, because what is
            // left would not start a reader.
            self.units.clear();
            self.bytes = 0;
            self.overflowed = true;
            assert(self@.units =~= Seq::empty());
            assert(weight(self@.units) == 0);
            return;
        }
        let ghost whole = self@.units;
        proof {
            lemma_trimmed(whole);
        }
        while self.bytes > CACHE_LIMIT && self.units.len() > 0
            invariant
                self.bytes == weight(self@.units),
                !self.overflowed,
                self.bytes > CACHE_LIMIT ==> !self.pictures,
                self.pictures == group.pictures,
                self.pictures ==> self@.units == whole,
                trimmed(self@.units) == trimmed(whole),
            decreases self.units@.len(),
        {
            let ghost held = self@.units;
            proof {
                lemma_weight_first(held);
            }
            let oldest = self.units.pop_front();
            assert(self@.units =~= held.drop_first());
            match oldest {
                Some(oldest) => {
                    assert(oldest@ == held[0]);
                    self.bytes = self.bytes - oldest.len();
                },
                None => {},
            }
        }
        assert(self@.units.len() == 0 ==> weight(self@.units) == 0);
        assert(self@ == cached(old(self)@, unit@));
        proof {
            lemma_cached_is_well_formed(old(self)@, unit@);
        }
    }

    /// A copy of what is held, for a reader that joins.
    pub fn backlog(&self) -> (backlog: VecDeque<Unit>)
        ensures
            unit_views(backlog@) == self@.units,
    {
        let mut backlog: VecDeque<Unit> = VecDeque::new();
        let mut i: usize = 0;
        while i < self.units.len()
            invariant
                i <= self.units@.len(),
                backlog@.len() == i,
                forall|j: int| 0 <= j < i ==> (#[trigger] backlog@[j])@ == self.units@[j]@,
            decreases self.units@.len() - i,
        {
            backlog.push_back(self.units[i].clone());
            i = i + 1;
        }
        assert(unit_views(backlog@) =~= self@.units);
        backlog
    }
}

/// A cache after a run of units.
pub open spec fn cached_run(history: Seq<UnitView>) -> CacheView
    decreases history.len(),
{
    if history.len() == 0 {
        empty_cache()
    } else {
        cached(cached_run(history.drop_last()), history.last())
    }
}

/// What is kept for a reader that joins is everything since the last picture a
/// stream can be started at, or, where that is too much, nothing at all.
pub proof fn law_cache_is_the_last_group(history: Seq<UnitView>, opening: int)
    requires
        0 <= opening < history.len(),
        history[opening].opens_a_stream(),
        forall|i: int| opening < i < history.len() ==> !(#[trigger] history[i]).opens_a_stream(),
    ensures
        ({
            let group = history.skip(opening);
            &&& cached_run(history).pictures
            &&& weight(group) <= CACHE_LIMIT ==> cached_run(history).units == group
                && !cached_run(history).overflowed
            &&& weight(group) > CACHE_LIMIT ==> cached_run(history).units.len() == 0
                && cached_run(history).overflowed
        }),
    decreases history.len(),
{
    let group = history.skip(opening);
    let last = history.last();
    let earlier = history.drop_last();
    if opening == history.len() - 1 {
        assert(group =~= Seq::empty().push(last));
    } else {
        law_cache_is_the_last_group(earlier, opening);
        assert(earlier.skip(opening) =~= group.drop_last());
        assert(group =~= group.drop_last().push(last));
    }
}

/// A stream that has had no picture to be started at keeps its most recent
/// units, as many as the limit allows: with one more it would be over it.
pub proof fn law_cache_without_pictures_drops_the_oldest(history: Seq<UnitView>)
    requires
        forall|i: int| 0 <= i < history.len() ==> !(#[trigger] history[i]).opens_a_stream(),
    ensures
        ({
            let held = cached_run(history);
            &&& !held.pictures && !held.overflowed
            &&& weight(held.units) <= CACHE_LIMIT
            &&& held.units.len() <= history.len()
            &&& held.units == history.skip(history.len() - held.units.len())
            &&& held.units.len() < history.len() ==> weight(
                history.skip(history.len() - held.units.len() - 1),
            ) > CACHE_LIMIT
        }),
    decreases history.len(),
{
    if history.len() == 0 {
        assert(history.skip(0) =~= Seq::empty());
    } else {
        let earlier = history.drop_last();
        law_cache_without_pictures_drops_the_oldest(earlier);
        let before = cached_run(earlier);
        let longer = before.units.push(history.last());
        lemma_trimmed(longer);
        let held = cached_run(history);
        assert(held.units =~= longer.skip(longer.len() - held.units.len()));
        assert(held.units =~= history.skip(history.len() - held.units.len()));
        if held.units.len() < longer.len() {
            assert(longer.skip(longer.len() - held.units.len() - 1) =~= history.skip(
                history.len() - held.units.len() - 1,
            ));
        } else if held.units.len() < history.len() {
            let more = history.skip(history.len() - held.units.len() - 1);
            assert(more.drop_last() =~= earlier.skip(earlier.len() - before.units.len() - 1));
        }
    }
}

/// What has come of waiting for the next unit of a stream.
pub enum Feed {
    /// A unit.
    Unit(Unit),
    /// So many units were lost, because the reader fell too far behind.
    Lagged(u64),
    /// The publisher has gone.
    Closed,
}

/// What has come of waiting for the next unit of a stream.
pub enum FeedView {
    Unit(UnitView),
    Lagged(nat),
    Closed,
}

impl View for Feed {
    type V = FeedView;

    open spec fn view(&self) -> FeedView {
        match *self {
            Feed::Unit(unit) => FeedView::Unit(unit@),
            Feed::Lagged(units) => FeedView::Lagged(units as nat),
            Feed::Closed => FeedView::Closed,
        }
    }
}

/// What a reader is to do.
pub enum Next {
    /// Take this unit.
    Unit(Unit),
    /// Wait for more.
    Wait,
    /// Stop: nothing more is coming.
    Ended,
}

/// What a reader is to do.
pub enum NextView {
    Unit(UnitView),
    Wait,
    Ended,
}

impl View for Next {
    type V = NextView;

    open spec fn view(&self) -> NextView {
        match *self {
            Next::Unit(unit) => NextView::Unit(unit@),
            Next::Wait => NextView::Wait,
            Next::Ended => NextView::Ended,
        }
    }
}

/// One reader's view of a path: what it was given on joining, and whether it
/// is waiting for a place to start again.
///
/// The place to start again is remembered here rather than waited for in one
/// go, so a caller that stops waiting half-way loses nothing.
pub struct Reader {
    backlog: VecDeque<Unit>,
    skipped: u64,
    resyncing: bool,
}

/// What a [`Reader`] remembers.
pub struct ReaderView {
    /// What it was given on joining and has not taken yet.
    pub backlog: Seq<UnitView>,
    /// How many units it has been made to skip past for falling behind.
    pub skipped: nat,
    /// Whether it is waiting for a place to start again.
    pub resyncing: bool,
}

impl View for Reader {
    type V = ReaderView;

    closed spec fn view(&self) -> ReaderView {
        ReaderView {
            backlog: unit_views(self.backlog@),
            skipped: self.skipped as nat,
            resyncing: self.resyncing,
        }
    }
}

/// Whether a unit is one that a reader waiting for a place to start again passes
/// over.
pub open spec fn passed_over(reader: ReaderView, unit: UnitView) -> bool {
    reader.resyncing && !unit.opens_a_stream()
}

/// How many units more a reader is made to skip past by what has arrived.
pub open spec fn lost(reader: ReaderView, feed: FeedView) -> nat {
    match feed {
        FeedView::Unit(unit) if passed_over(reader, unit) => 1,
        FeedView::Lagged(units) => units,
        _ => 0,
    }
}

/// What a reader makes of what has arrived, and the reader after it.
pub open spec fn fed(reader: ReaderView, feed: FeedView) -> (NextView, ReaderView) {
    let skipped = reader.skipped + lost(reader, feed);
    match feed {
        FeedView::Unit(unit) => if passed_over(reader, unit) {
            (NextView::Wait, ReaderView { skipped, ..reader })
        } else {
            (NextView::Unit(unit), ReaderView { resyncing: false, ..reader })
        },
        FeedView::Lagged(_) => (NextView::Wait, ReaderView { skipped, resyncing: true, ..reader }),
        FeedView::Closed => (NextView::Ended, reader),
    }
}

impl Reader {
    /// A reader that has been given what a path holds for one that joins.
    pub fn new(backlog: VecDeque<Unit>) -> (reader: Self)
        ensures
            reader@ == (ReaderView {
                backlog: unit_views(backlog@),
                skipped: 0,
                resyncing: false,
            }),
    {
        Self { backlog, skipped: 0, resyncing: false }
    }

    /// How many units this reader has been made to skip past for falling
    /// behind. Worth saying out loud: it means the reader's own connection
    /// is not keeping up.
    pub fn skipped(&self) -> (skipped: u64)
        ensures
            skipped == self@.skipped,
    {
        self.skipped
    }

    /// The next unit of what the reader was given on joining, if any is left.
    pub fn take(&mut self) -> (unit: Option<Unit>)
        ensures
            match unit {
                Some(unit) => {
                    &&& old(self)@.backlog.len() > 0
                    &&& unit@ == old(self)@.backlog[0]
                    &&& final(self)@ == (ReaderView {
                        backlog: old(self)@.backlog.drop_first(),
                        ..old(self)@
                    })
                },
                None => old(self)@.backlog.len() == 0 && final(self)@ == old(self)@,
            },
    {
        let ghost before = self@.backlog;
        let unit = self.backlog.pop_front();
        proof {
            if unit is Some {
                assert(self@.backlog =~= before.drop_first());
            } else {
                assert(self@.backlog =~= before);
            }
        }
        unit
    }

    /// Takes in what has arrived, and says what to do.
    ///
    /// Everything between where the reader fell behind and the next picture
    /// the stream can be started at refers to units the reader no longer has,
    /// so it is passed over, and counted. See the module docs.
    pub fn receive(&mut self, feed: Feed) -> (next: Next)
        requires
            old(self)@.skipped + lost(old(self)@, feed@) <= u64::MAX,
        ensures
            (next@, final(self)@) == fed(old(self)@, feed@),
    {
        match feed {
            Feed::Unit(unit) => {
                if self.resyncing && !unit.opens_a_stream() {
                    self.skipped = self.skipped + 1;
                    return Next::Wait;
                }
                self.resyncing = false;
                Next::Unit(unit)
            },
            Feed::Lagged(units) => {
                self.skipped = self.skipped + units;
                self.resyncing = true;
                Next::Wait
            },
            Feed::Closed => Next::Ended,
        }
    }
}

/// A reader that fell behind is next handed a picture a stream can be started
/// at, whatever arrives first.
pub proof fn law_reader_resumes_at_a_keyframe(reader: ReaderView, units: nat, feed: FeedView)
    ensures
        ({
            let behind = fed(reader, FeedView::Lagged(units)).1;
            &&& behind.resyncing
            &&& fed(behind, feed).0 matches NextView::Unit(unit) ==> unit.opens_a_stream()
                && !fed(behind, feed).1.resyncing
            &&& fed(behind, feed).0 is Wait ==> fed(behind, feed).1.resyncing
        }),
{
}

/// A reader that fell behind counts everything it is made to skip past: the
/// units that were lost, and those it passes over on the way to the next picture
/// a stream can be started at, which it is then handed.
pub proof fn law_everything_skipped_is_counted(
    reader: ReaderView,
    units: nat,
    passed: Seq<UnitView>,
    keyframe: UnitView,
)
    requires
        forall|i: int| 0 <= i < passed.len() ==> !(#[trigger] passed[i]).opens_a_stream(),
        keyframe.opens_a_stream(),
    ensures
        ({
            let behind = fed(reader, FeedView::Lagged(units)).1;
            let (handed, after) = fed_run(behind, passed);
            &&& handed == Seq::<UnitView>::empty()
            &&& after == (ReaderView {
                skipped: reader.skipped + units + passed.len(),
                resyncing: true,
                ..reader
            })
            &&& fed(after, FeedView::Unit(keyframe)) == (
                NextView::Unit(keyframe),
                ReaderView { resyncing: false, ..after },
            )
        }),
    decreases passed.len(),
{
    if passed.len() > 0 {
        law_everything_skipped_is_counted(reader, units, passed.drop_last(), keyframe);
    }
}

/// A reader that has not fallen behind is handed every unit that arrives, in
/// order, and skips nothing.
pub proof fn law_reader_in_step_loses_nothing(reader: ReaderView, unit: UnitView)
    requires
        !reader.resyncing,
    ensures
        fed(reader, FeedView::Unit(unit)) == (NextView::Unit(unit), reader),
{
}

/// What is being published to a path right now.
struct Source {
    name: String,
    /// Which publisher this is, so that one that has been displaced can be
    /// told from the one that displaced it.
    token: u64,
    description: Description,
    cache: Cache,
}

/// What is being published to a path right now.
pub struct SourceView {
    pub token: nat,
    pub description: Seq<CodecView>,
    pub cache: CacheView,
}

impl Source {
    spec fn view(&self) -> SourceView {
        SourceView {
            token: self.token as nat,
            description: self.description@,
            cache: self.cache@,
        }
    }
}

/// Every path that something is being published to, by name.
pub struct Registry {
    sources: Vec<Source>,
    published: u64,
}

/// What a [`Registry`] holds.
pub struct RegistryView {
    pub sources: Map<Seq<char>, SourceView>,
    /// How many publishers there have been, which is the next one's token.
    pub published: nat,
}

/// Where the source of a name is in a list, if it is there.
spec fn place(sources: Seq<Source>, name: Seq<char>) -> Option<int>
    decreases sources.len(),
{
    if sources.len() == 0 {
        None
    } else if sources.last().name@ == name {
        Some(sources.len() - 1)
    } else {
        place(sources.drop_last(), name)
    }
}

/// Whether no name occurs twice in a list.
spec fn distinct(sources: Seq<Source>) -> bool {
    forall|i: int, j: int|
        0 <= i < j < sources.len() ==> (#[trigger] sources[i]).name@ != (
        #[trigger] sources[j]).name@
}

proof fn lemma_place(sources: Seq<Source>, name: Seq<char>)
    ensures
        match place(sources, name) {
            Some(i) => 0 <= i < sources.len() && sources[i].name@ == name,
            None => forall|i: int| 0 <= i < sources.len() ==> (#[trigger] sources[i]).name@ != name,
        },
    decreases sources.len(),
{
    if sources.len() > 0 && sources.last().name@ != name {
        lemma_place(sources.drop_last(), name);
        if place(sources.drop_last(), name) is None {
            assert forall|i: int| 0 <= i < sources.len() implies (#[trigger] sources[i]).name@
                != name by {
                if i < sources.len() - 1 {
                    assert(sources[i] == sources.drop_last()[i]);
                }
            }
        }
    }
}

/// The place of a name in a list where no name occurs twice is the only one.
proof fn lemma_only_place(sources: Seq<Source>, i: int)
    requires
        distinct(sources),
        0 <= i < sources.len(),
    ensures
        place(sources, sources[i].name@) == Some(i),
{
    lemma_place(sources, sources[i].name@);
}

spec fn by_name(sources: Seq<Source>) -> Map<Seq<char>, SourceView> {
    Map::new(
        |name: Seq<char>| place(sources, name) is Some,
        |name: Seq<char>| sources[place(sources, name)->0]@,
    )
}

impl View for Registry {
    type V = RegistryView;

    closed spec fn view(&self) -> RegistryView {
        RegistryView {
            sources: by_name(self.sources@),
            published: self.published as nat,
        }
    }
}

impl RegistryView {
    /// What holds of every registry: no two sources have one token, and none
    /// has one that is still to be given out.
    pub open spec fn wf(self) -> bool {
        &&& forall|name: Seq<char>| #[trigger]
            self.sources.contains_key(name) ==> self.sources[name].token < self.published
                && self.sources[name].cache.wf()
        &&& forall|a: Seq<char>, b: Seq<char>|
            #![trigger self.sources[a], self.sources[b]]
            self.sources.contains_key(a) && self.sources.contains_key(b) && a != b
                ==> self.sources[a].token != self.sources[b].token
    }
}

/// A registry with nothing published to it.
pub open spec fn unpublished() -> RegistryView {
    RegistryView { sources: Map::empty(), published: 0 }
}

/// A registry after a publisher more takes over a name.
pub open spec fn published(
    r: RegistryView,
    name: Seq<char>,
    description: Seq<CodecView>,
) -> RegistryView {
    RegistryView {
        sources: r.sources.insert(
            name,
            SourceView { token: r.published, description, cache: empty_cache() },
        ),
        published: r.published + 1,
    }
}

/// Whether a publisher is the one that a name has.
pub open spec fn publishes(r: RegistryView, name: Seq<char>, token: nat) -> bool {
    r.sources.contains_key(name) && r.sources[name].token == token
}

/// A registry after a publisher hands a unit over. One that has been displaced
/// changes nothing.
pub open spec fn pushed(
    r: RegistryView,
    name: Seq<char>,
    token: nat,
    unit: UnitView,
) -> RegistryView {
    if publishes(r, name, token) {
        let source = r.sources[name];
        RegistryView {
            sources: r.sources.insert(
                name,
                SourceView { cache: cached(source.cache, unit), ..source },
            ),
            ..r
        }
    } else {
        r
    }
}

/// A registry after a publisher leaves. One that has been displaced takes
/// nothing with it.
pub open spec fn departed(r: RegistryView, name: Seq<char>, token: nat) -> RegistryView {
    if publishes(r, name, token) {
        RegistryView { sources: r.sources.remove(name), ..r }
    } else {
        r
    }
}

impl Registry {
    /// What holds of every registry.
    pub closed spec fn wf(&self) -> bool {
        &&& distinct(self.sources@)
        &&& self@.wf()
        &&& forall|i: int|
            0 <= i < self.sources@.len() ==> (#[trigger] self.sources@[i]).cache.wf()
    }

    /// An empty registry.
    pub fn new() -> (registry: Self)
        ensures
            registry@ == unpublished(),
            registry.wf(),
    {
        let registry = Self { sources: Vec::new(), published: 0 };
        assert(registry@.sources =~= Map::empty());
        registry
    }

    fn find(&self, name: &str) -> (found: Option<usize>)
        requires
            self.wf(),
        ensures
            match found {
                Some(i) => {
                    &&& i < self.sources@.len()
                    &&& self.sources@[i as int].name@ == name@
                    &&& place(self.sources@, name@) == Some(i as int)
                    &&& self@.sources.contains_key(name@)
                    &&& self@.sources[name@] == self.sources@[i as int]@
                },
                None => place(self.sources@, name@) is None && !self@.sources.contains_key(name@),
            },
    {
        proof {
            lemma_place(self.sources@, name@);
        }
        let mut i: usize = 0;
        while i < self.sources.len()
            invariant
                self.wf(),
                i <= self.sources@.len(),
                forall|j: int| 0 <= j < i ==> (#[trigger] self.sources@[j]).name@ != name@,
            decreases self.sources@.len() - i,
        {
            if same_text(self.sources[i].name.as_str(), name) {
                proof {
                    lemma_only_place(self.sources@, i as int);
                }
                return Some(i);
            }
            i = i + 1;
        }
        None
    }

    /// Takes over `name`, and gives the token that the publisher is known by.
    ///
    /// Cannot fail. A second publisher on a name displaces the first: an
    /// encoder that lost its network and is reconnecting looks exactly like
    /// one that never left, and refusing the new one would leave the path
    /// stuck behind a connection that is not going to send anything again. The
    /// token of the one displaced comes back too, so that it can be told.
    ///
    /// Readers on the old stream are to be ended rather than moved across. The
    /// new publisher has its own description, and a reader handed units that
    /// do not match the one it was set up with would decode nonsense.
    pub fn publish(&mut self, name: &str, description: Description) -> (tokens: (u64, Option<u64>))
        requires
            old(self).wf(),
            old(self)@.published < u64::MAX,
        ensures
            final(self).wf(),
            final(self)@ == published(old(self)@, name@, description@),
            tokens.0 == old(self)@.published,
            match tokens.1 {
                Some(displaced) => publishes(old(self)@, name@, displaced as nat),
                None => !old(self)@.sources.contains_key(name@),
            },
    {
        let token: u64 = self.published;
        let ghost before = self.sources@;
        let source = Source {
            name: name.to_owned(),
            token,
            description,
            cache: Cache::new(),
        };
        let found = self.find(name);
        self.published = token + 1;
        let displaced: Option<u64> = match found {
            Some(i) => {
                let displaced: u64 = self.sources[i].token;
                self.sources.set(i, source);
                proof {
                    self.lemma_replaced(before, i as int, source);
                }
                Some(displaced)
            },
            None => {
                self.sources.push(source);
                proof {
                    self.lemma_added(before, source);
                }
                None
            },
        };
        assert(self@.sources =~= published(old(self)@, name@, description@).sources);
        (token, displaced)
    }

    proof fn lemma_replaced(&self, before: Seq<Source>, i: int, source: Source)
        requires
            0 <= i < before.len(),
            distinct(before),
            source.name@ == before[i].name@,
            self.sources@ == before.update(i, source),
        ensures
            distinct(self.sources@),
            self@.sources == by_name(before).insert(source.name@, source@),
    {
        let after = self.sources@;
        assert forall|j: int, k: int| 0 <= j < k < after.len() implies (
        #[trigger] after[j]).name@ != (#[trigger] after[k]).name@ by {
            assert(after[j].name@ == before[j].name@ && after[k].name@ == before[k].name@);
        }
        assert forall|name: Seq<char>| place(after, name) == place(before, name) by {
            lemma_place(before, name);
            lemma_place(after, name);
            if let Some(j) = place(before, name) {
                assert(after[j].name@ == name);
                lemma_only_place(after, j);
            } else if let Some(j) = place(after, name) {
                assert(before[j].name@ == name);
            }
        }
        lemma_only_place(before, i);
        assert forall|name: Seq<char>| place(before, name) == Some(i) implies name
            == source.name@ by {
            lemma_place(before, name);
        }
        assert forall|name: Seq<char>| #[trigger] place(before, name) is Some implies 0 <= place(
            before,
            name,
        )->0 < before.len() by {
            lemma_place(before, name);
        }
        assert(self@.sources =~= by_name(before).insert(source.name@, source@));
    }

    proof fn lemma_added(&self, before: Seq<Source>, source: Source)
        requires
            distinct(before),
            place(before, source.name@) is None,
            self.sources@ == before.push(source),
        ensures
            distinct(self.sources@),
            self@.sources == by_name(before).insert(source.name@, source@),
    {
        let after = self.sources@;
        lemma_place(before, source.name@);
        assert(after.drop_last() =~= before);
        assert forall|j: int, k: int| 0 <= j < k < after.len() implies (
        #[trigger] after[j]).name@ != (#[trigger] after[k]).name@ by {
            assert(after[j] == before[j]);
            if k < before.len() {
                assert(after[k] == before[k]);
            }
        }
        assert forall|name: Seq<char>| #[trigger] place(before, name) is Some implies 0 <= place(
            before,
            name,
        )->0 < before.len() by {
            lemma_place(before, name);
        }
        assert(self@.sources =~= by_name(before).insert(source.name@, source@));
    }

    proof fn lemma_removed(&self, before: Seq<Source>, i: int)
        requires
            distinct(before),
            0 <= i < before.len(),
            self.sources@ == before.remove(i),
        ensures
            distinct(self.sources@),
            self@.sources == by_name(before).remove(before[i].name@),
    {
        let after = self.sources@;
        let gone = before[i].name@;
        assert forall|j: int, k: int| 0 <= j < k < after.len() implies (
        #[trigger] after[j]).name@ != (#[trigger] after[k]).name@ by {
            let (p, q) = (
                if j < i {
                    j
                } else {
                    j + 1
                },
                if k < i {
                    k
                } else {
                    k + 1
                },
            );
            assert(after[j] == before[p] && after[k] == before[q]);
        }
        assert forall|name: Seq<char>| #[trigger]
            by_name(after).contains_key(name) == by_name(before).remove(gone).contains_key(name)
            && (by_name(after).contains_key(name) ==> by_name(after)[name] == by_name(
            before,
        )[name]) by {
            lemma_place(before, name);
            lemma_place(after, name);
            lemma_only_place(before, i);
            if let Some(j) = place(after, name) {
                let p = if j < i {
                    j
                } else {
                    j + 1
                };
                assert(after[j] == before[p]);
                lemma_only_place(before, p);
            } else if let Some(p) = place(before, name) {
                if p < i {
                    assert(after[p] == before[p]);
                } else if p > i {
                    assert(after[p - 1] == before[p]);
                }
            }
        }
        assert(self@.sources =~= by_name(before).remove(gone));
    }

    /// Takes in a unit from the publisher that a token stands for, and says
    /// whether it is to go to the path's readers.
    ///
    /// Never waits and never fails. A publisher that has been displaced can do
    /// nothing about it, so what it pushes goes nowhere.
    pub fn push(&mut self, name: &str, token: u64, unit: &Unit) -> (live: bool)
        requires
            old(self).wf(),
            unit@.length() + CACHE_LIMIT <= usize::MAX,
        ensures
            final(self).wf(),
            final(self)@ == pushed(old(self)@, name@, token as nat, unit@),
            live == publishes(old(self)@, name@, token as nat),
    {
        let ghost before = self.sources@;
        match self.find(name) {
            Some(i) => {
                if self.sources[i].token != token {
                    return false;
                }
                let mut source = self.sources.remove(i);
                source.cache.push(unit);
                self.sources.insert(i, source);
                proof {
                    assert(self.sources@ =~= before.update(i as int, source));
                    self.lemma_replaced(before, i as int, source);
                    assert(self@.sources =~= pushed(
                        old(self)@,
                        name@,
                        token as nat,
                        unit@,
                    ).sources);
                }
                true
            },
            None => false,
        }
    }

    /// Takes a publisher away, and says whether its path went with it.
    ///
    /// Only if it is still the publisher. One that was displaced must not take
    /// the replacement's stream down on its way out.
    pub fn leave(&mut self, name: &str, token: u64) -> (went: bool)
        requires
            old(self).wf(),
        ensures
            final(self).wf(),
            final(self)@ == departed(old(self)@, name@, token as nat),
            went == publishes(old(self)@, name@, token as nat),
    {
        let ghost before = self.sources@;
        match self.find(name) {
            Some(i) => {
                if self.sources[i].token != token {
                    return false;
                }
                self.sources.remove(i);
                proof {
                    self.lemma_removed(before, i as int);
                }
                true
            },
            None => false,
        }
    }

    /// What a reader that joins a path is given: the token of its publisher,
    /// what the stream is, and what it starts on. `None` where nothing is
    /// being published.
    pub fn read(&self, name: &str) -> (joined: Option<(u64, Description, Reader)>)
        requires
            self.wf(),
        ensures
            match joined {
                Some((token, description, reader)) => {
                    let source = self@.sources[name@];
                    &&& self@.sources.contains_key(name@)
                    &&& token == source.token
                    &&& description@ == source.description
                    &&& reader@ == (ReaderView {
                        backlog: source.cache.units,
                        skipped: 0,
                        resyncing: false,
                    })
                },
                None => !self@.sources.contains_key(name@),
            },
    {
        match self.find(name) {
            Some(i) => {
                let source: &Source = &self.sources[i];
                Some(
                    (
                        source.token,
                        source.description.clone(),
                        Reader::new(source.cache.backlog()),
                    ),
                )
            },
            None => None,
        }
    }

    /// What is being published to `name`, without joining it.
    ///
    /// Separate from [`Registry::read`] because joining copies the keyframe a
    /// reader would start on, and a question about what a stream is is not a
    /// reason to copy a megabyte.
    pub fn describe(&self, name: &str) -> (description: Option<&Description>)
        requires
            self.wf(),
        ensures
            match description {
                Some(description) => self@.sources.contains_key(name@) && description@
                    == self@.sources[name@].description,
                None => !self@.sources.contains_key(name@),
            },
    {
        match self.find(name) {
            Some(i) => Some(&self.sources[i].description),
            None => None,
        }
    }

    /// The names something is being published to, each once, in no particular
    /// order.
    pub fn names(&self) -> (names: Vec<String>)
        requires
            self.wf(),
        ensures
            forall|i: int, j: int|
                0 <= i < j < names@.len() ==> (#[trigger] names@[i])@ != (#[trigger] names@[j])@,
            forall|name: Seq<char>| #[trigger]
                self@.sources.contains_key(name) <==> exists|i: int|
                    0 <= i < names@.len() && (#[trigger] names@[i])@ == name,
    {
        let mut names: Vec<String> = Vec::new();
        let mut i: usize = 0;
        while i < self.sources.len()
            invariant
                self.wf(),
                i <= self.sources@.len(),
                names@.len() == i,
                forall|j: int|
                    0 <= j < i ==> (#[trigger] names@[j])@ == self.sources@[j].name@,
            decreases self.sources@.len() - i,
        {
            names.push(self.sources[i].name.clone());
            i = i + 1;
        }
        proof {
            assert forall|j: int, k: int| 0 <= j < k < names@.len() implies (
            #[trigger] names@[j])@ != (#[trigger] names@[k])@ by {
                assert(self.sources@[j].name@ != self.sources@[k].name@);
            }
            assert forall|name: Seq<char>| #[trigger]
                self@.sources.contains_key(name) <==> exists|j: int|
                    0 <= j < names@.len() && (#[trigger] names@[j])@ == name by {
                lemma_place(self.sources@, name);
                if let Some(j) = place(self.sources@, name) {
                    assert(names@[j]@ == name);
                } else if exists|j: int| 0 <= j < names@.len() && (#[trigger] names@[j])@ == name {
                    let j = choose|j: int|
                        0 <= j < names@.len() && (#[trigger] names@[j])@ == name;
                    assert(self.sources@[j].name@ == name);
                }
            }
        }
        names
    }
}

/// A second publisher takes a name over: the first no longer publishes there,
/// what it pushes goes nowhere, and leaving takes nothing with it.
pub proof fn law_displaced_publisher_changes_nothing(
    r: RegistryView,
    name: Seq<char>,
    first: Seq<CodecView>,
    second: Seq<CodecView>,
    unit: UnitView,
)
    ensures
        ({
            let token = r.published;
            let taken = published(published(r, name, first), name, second);
            &&& !publishes(taken, name, token)
            &&& pushed(taken, name, token, unit) == taken
            &&& departed(taken, name, token) == taken
            &&& taken.sources[name].description == second
        }),
{
}

/// A publisher that leaves its own path takes it, and no other.
pub proof fn law_publisher_takes_only_its_own_path(
    r: RegistryView,
    name: Seq<char>,
    description: Seq<CodecView>,
)
    ensures
        ({
            let after = departed(published(r, name, description), name, r.published);
            after.sources == r.sources.remove(name)
        }),
{
    let after = departed(published(r, name, description), name, r.published);
    assert(after.sources =~= r.sources.remove(name));
}

/// What every publisher does keeps every registry as it has to be.
pub proof fn law_registry_stays_well_formed(
    r: RegistryView,
    name: Seq<char>,
    description: Seq<CodecView>,
    token: nat,
    unit: UnitView,
)
    requires
        r.wf(),
    ensures
        published(r, name, description).wf(),
        pushed(r, name, token, unit).wf(),
        departed(r, name, token).wf(),
{
    assert(weight(Seq::<UnitView>::empty()) == 0);
    if publishes(r, name, token) {
        lemma_cached_is_well_formed(r.sources[name].cache, unit);
    }
}

/// A registry after a publisher hands a run of units over.
pub open spec fn pushed_run(
    r: RegistryView,
    name: Seq<char>,
    token: nat,
    history: Seq<UnitView>,
) -> RegistryView
    decreases history.len(),
{
    if history.len() == 0 {
        r
    } else {
        pushed(pushed_run(r, name, token, history.drop_last()), name, token, history.last())
    }
}

/// What a path holds for a reader that joins is what a cache holds of every
/// unit its publisher has handed over, under the description it was published
/// with; no other path is touched.
pub proof fn law_path_holds_what_its_publisher_sent(
    r: RegistryView,
    name: Seq<char>,
    description: Seq<CodecView>,
    history: Seq<UnitView>,
)
    ensures
        ({
            let after = pushed_run(
                published(r, name, description),
                name,
                r.published,
                history,
            );
            &&& publishes(after, name, r.published)
            &&& after.sources[name].description == description
            &&& after.sources[name].cache == cached_run(history)
            &&& after.sources.remove(name) == r.sources.remove(name)
        }),
    decreases history.len(),
{
    let begun = published(r, name, description);
    let after = pushed_run(begun, name, r.published, history);
    if history.len() > 0 {
        law_path_holds_what_its_publisher_sent(r, name, description, history.drop_last());
        let before = pushed_run(begun, name, r.published, history.drop_last());
        assert(after.sources.remove(name) =~= before.sources.remove(name));
    } else {
        assert(after.sources.remove(name) =~= r.sources.remove(name));
    }
}

/// What a reader is handed of a run of units that arrive, and the reader after
/// them.
pub open spec fn fed_run(reader: ReaderView, arrived: Seq<UnitView>) -> (
    Seq<UnitView>,
    ReaderView,
)
    decreases arrived.len(),
{
    if arrived.len() == 0 {
        (Seq::empty(), reader)
    } else {
        let (handed, before) = fed_run(reader, arrived.drop_last());
        let (next, after) = fed(before, FeedView::Unit(arrived.last()));
        match next {
            NextView::Unit(unit) => (handed.push(unit), after),
            _ => (handed, after),
        }
    }
}

/// A reader that joins and keeps up is handed what the path held and then every
/// unit that arrives after: none falls between the two, and none comes twice.
pub proof fn law_nothing_falls_between(
    r: RegistryView,
    name: Seq<char>,
    description: Seq<CodecView>,
    before: Seq<UnitView>,
    after: Seq<UnitView>,
)
    ensures
        ({
            let joined = pushed_run(published(r, name, description), name, r.published, before);
            let reader = ReaderView {
                backlog: joined.sources[name].cache.units,
                skipped: 0,
                resyncing: false,
            };
            &&& fed_run(reader, after) == (after, reader)
            &&& reader.backlog == cached_run(before).units
        }),
    decreases after.len(),
{
    law_path_holds_what_its_publisher_sent(r, name, description, before);
    if after.len() > 0 {
        law_nothing_falls_between(r, name, description, before, after.drop_last());
        assert(after.drop_last().push(after.last()) =~= after);
    } else {
        assert(after =~= Seq::empty());
    }
}

/// What is kept for whoever joins weighs no more than eight mebibytes, and weighs
/// what its units do: their bytes, all of them.
pub proof fn law_what_is_kept_is_bounded(history: Seq<UnitView>, units: Seq<UnitView>, more: UnitView)
    ensures
        weight(cached_run(history).units) <= 8_388_608,
        weight(Seq::empty()) == 0,
        weight(units.push(more)) == weight(units) + match more {
            UnitView::Video { nalus, .. } => total_length(nalus),
            UnitView::Audio { frame, .. } => frame.len(),
        },
    decreases history.len(),
{
    assert(units.push(more).drop_last() =~= units);
    if history.len() > 0 {
        law_what_is_kept_is_bounded(history.drop_last(), units, more);
        lemma_trimmed(cached_run(history.drop_last()).units.push(history.last()));
    }
}

/// What one publisher does on its path touches no other path: not its taking the
/// path, its units or its going.
pub proof fn law_paths_do_not_touch(
    r: RegistryView,
    name: Seq<char>,
    other: Seq<char>,
    description: Seq<CodecView>,
    token: nat,
    unit: UnitView,
)
    requires
        name != other,
    ensures
        ({
            let (taken, sent, gone) = (
                published(r, name, description),
                pushed(r, name, token, unit),
                departed(r, name, token),
            );
            &&& taken.sources.contains_key(other) == r.sources.contains_key(other)
            &&& sent.sources.contains_key(other) == r.sources.contains_key(other)
            &&& gone.sources.contains_key(other) == r.sources.contains_key(other)
            &&& r.sources.contains_key(other) ==> taken.sources[other] == r.sources[other]
                && sent.sources[other] == r.sources[other] && gone.sources[other]
                == r.sources[other]
        }),
{
}

/// A path is there from the moment that it is published until its publisher goes,
/// and a unit neither makes one nor ends one.
pub proof fn law_paths_last_as_long_as_their_publishers(
    r: RegistryView,
    name: Seq<char>,
    description: Seq<CodecView>,
    unit: UnitView,
)
    ensures
        ({
            let taken = published(r, name, description);
            let sent = pushed(taken, name, r.published, unit);
            let gone = departed(sent, name, r.published);
            &&& taken.sources.contains_key(name) && sent.sources.contains_key(name)
            &&& !gone.sources.contains_key(name)
            &&& taken.sources[name].cache.units.len() == 0
            &&& sent.sources[name].description == description
            &&& unit.length() <= CACHE_LIMIT ==> sent.sources[name].cache.units == seq![unit]
        }),
{
    let taken = published(r, name, description);
    let one = Seq::<UnitView>::empty().push(unit);
    assert(one.drop_last() =~= Seq::empty());
    assert(weight(one.drop_last()) == 0);
    assert(weight(one) == unit.length());
    assert(one =~= seq![unit]);
}

} // verus!
