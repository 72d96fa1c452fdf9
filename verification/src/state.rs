//! The record shared by all discovery loops of one download session.

use crate::error::IgLiveError;
use crate::media::{MediaMap, MediaType};
use std::collections::{HashMap, HashSet};
use vstd::prelude::*;

verus! {

/// Whether `delta` is `100 * x`, `100 * x + 33` or `100 * x + 67` for some
/// `x` from `first` to `last`.
pub open spec fn on_grid(delta: int, first: int, last: int) -> bool {
    &&& first * 100 <= delta <= last * 100 + 67
    &&& (delta % 100 == 0 || delta % 100 == 33 || delta % 100 == 67)
}

/// How often the cold-start prior claims to have seen `delta`; 0 where it
/// holds no entry.
pub open spec fn prior_count(delta: int) -> int {
    if delta == 2000 {
        100
    } else if delta == 100 {
        2
    } else if on_grid(delta, 16, 24) {
        if delta % 100 == 0 {
            10
        } else {
            2
        }
    } else if on_grid(delta, 10, 15) || on_grid(delta, 25, 30) || on_grid(delta, 70, 90) {
        1
    } else {
        0
    }
}

/// The histogram every media kind starts from.
pub open spec fn prior_deltas() -> Map<isize, i32> {
    Map::new(|d: isize| prior_count(d as int) > 0, |d: isize| prior_count(d as int) as i32)
}

/// `base` after the grid points from `first` to `last` were written over it:
/// the multiples of 100 with count `round`, the two offsets with `offset`.
pub open spec fn with_band(
    base: Map<isize, i32>,
    first: int,
    last: int,
    round: i32,
    offset: i32,
) -> Map<isize, i32> {
    Map::new(
        |d: isize| base.contains_key(d) || on_grid(d as int, first, last),
        |d: isize|
            if on_grid(d as int, first, last) {
                if d % 100 == 0 {
                    round
                } else {
                    offset
                }
            } else {
                base[d]
            },
    )
}

/// How far below the watermark the decoded timestamp of a segment may lie
/// for the segment to be kept.
pub const PTS_TOLERANCE: usize = 10_000;

/// A sequence that lists every entry of `histogram` exactly once.
pub open spec fn is_snapshot(list: Seq<(isize, i32)>, histogram: Map<isize, i32>) -> bool {
    &&& list.no_duplicates()
    &&& list.to_set() == histogram.kv_pairs()
}

fn seed_band(histogram: &mut HashMap<isize, i32>, first: isize, last: isize, round: i32, offset: i32)
    requires
        0 <= first <= last <= 1000,
    ensures
        final(histogram)@ == with_band(old(histogram)@, first as int, last as int, round, offset),
{
    let ghost base = histogram@;
    let mut x: isize = first;
    assert(histogram@ =~= with_band(base, first as int, x - 1, round, offset));
    while x <= last
        invariant
            0 <= first <= x <= last + 1,
            last <= 1000,
            histogram@ == with_band(base, first as int, x - 1, round, offset),
        decreases last + 1 - x,
    {
        let ghost before = histogram@;
        histogram.insert(x * 100, round);
        histogram.insert(x * 100 + 33, offset);
        histogram.insert(x * 100 + 67, offset);
        assert(histogram@ =~= with_band(base, first as int, x as int, round, offset)) by {
            assert forall|d: isize|
                on_grid(d as int, first as int, x as int) <==> (on_grid(
                    d as int,
                    first as int,
                    x - 1,
                ) || d == x * 100 || d == x * 100 + 33 || d == x * 100 + 67) by {}
        }
        x += 1;
    }
}

fn seed_prior() -> (histogram: HashMap<isize, i32>)
    ensures
        histogram@ == prior_deltas(),
{
    let mut histogram: HashMap<isize, i32> = HashMap::new();
    seed_band(&mut histogram, 16, 24, 10, 2);
    seed_band(&mut histogram, 10, 15, 1, 1);
    seed_band(&mut histogram, 25, 30, 1, 1);
    seed_band(&mut histogram, 70, 90, 1, 1);
    histogram.insert(2000, 100);
    histogram.insert(100, 2);
    assert(histogram@ =~= prior_deltas());
    histogram
}

/// What a download session knows, per media kind: the initialization data,
/// the timestamps of the segments it holds, how often each gap between
/// neighbouring segments was seen, and the lowest decoded timestamp accepted
/// so far.
pub struct State {
    downloaded_init: MediaMap<Vec<u8>>,
    downloaded_segs: MediaMap<HashSet<usize>>,
    deltas: MediaMap<HashMap<isize, i32>>,
    back_pts: MediaMap<usize>,
}

impl State {
    /// The initialization segment of each media kind that has one.
    pub closed spec fn downloaded_init(&self) -> Map<MediaType, Seq<u8>> {
        Map::new(
            |m: MediaType| self.downloaded_init.slot(m) is Some,
            |m: MediaType| self.downloaded_init.slot(m)->Some_0@,
        )
    }

    /// The timestamps of the segments held, per media kind.
    pub closed spec fn downloaded_segs(&self) -> Map<MediaType, Set<usize>> {
        Map::new(
            |m: MediaType| self.downloaded_segs.slot(m) is Some,
            |m: MediaType| self.downloaded_segs.slot(m)->Some_0@,
        )
    }

    /// The delta histogram of each media kind.
    pub closed spec fn deltas(&self) -> Map<MediaType, Map<isize, i32>> {
        Map::new(
            |m: MediaType| self.deltas.slot(m) is Some,
            |m: MediaType| self.deltas.slot(m)->Some_0@,
        )
    }

    /// The watermark of each media kind that has one.
    pub closed spec fn back_pts(&self) -> Map<MediaType, usize> {
        self.back_pts.entries()
    }

    /// How often `delta` was seen for `media_type`; 0 where nothing is recorded.
    pub open spec fn delta_count(&self, media_type: MediaType, delta: isize) -> int {
        if self.deltas().contains_key(media_type) && self.deltas()[media_type].contains_key(delta) {
            self.deltas()[media_type][delta] as int
        } else {
            0
        }
    }

    /// Every recorded segment timestamp is positive.
    pub open spec fn wf(&self) -> bool {
        forall|m: MediaType, t: usize|
            self.downloaded_segs().contains_key(m) && #[trigger] self.downloaded_segs()[m].contains(
                t,
            ) ==> t > 0
    }

    /// The segment timestamps held for `media_type`; none where the kind is
    /// unknown to the session.
    pub open spec fn segs_of(&self, media_type: MediaType) -> Set<usize> {
        if self.downloaded_segs().contains_key(media_type) {
            self.downloaded_segs()[media_type]
        } else {
            Set::empty()
        }
    }

    /// Whether a segment whose decoded timestamp is `pts` lies too far before
    /// the watermark of `media_type`: more than `tolerance` below it.
    pub open spec fn pts_too_early(&self, media_type: MediaType, pts: usize, tolerance: usize) -> bool {
        self.back_pts().contains_key(media_type) && pts + tolerance < self.back_pts()[media_type]
    }

    /// A fresh session: every media kind starts with the prior histogram,
    /// video and audio with no segments; nothing else is known.
    pub fn new() -> (state: Self)
        ensures
            state.wf(),
            state.downloaded_init() == Map::<MediaType, Seq<u8>>::empty(),
            state.downloaded_segs() == Map::<MediaType, Set<usize>>::empty().insert(
                MediaType::Video,
                Set::empty(),
            ).insert(MediaType::Audio, Set::empty()),
            state.deltas() == Map::<MediaType, Map<isize, i32>>::empty().insert(
                MediaType::Video,
                prior_deltas(),
            ).insert(MediaType::Audio, prior_deltas()).insert(MediaType::Unknown, prior_deltas()),
            forall|m: MediaType| #[trigger]
                state.deltas().contains_key(m) && state.deltas()[m] == prior_deltas(),
            state.back_pts() == Map::<MediaType, usize>::empty(),
    {
        let mut downloaded_segs: MediaMap<HashSet<usize>> = MediaMap::new();
        downloaded_segs.insert(MediaType::Video, HashSet::new());
        downloaded_segs.insert(MediaType::Audio, HashSet::new());

        let default_delta = seed_prior();
        let mut deltas: MediaMap<HashMap<isize, i32>> = MediaMap::new();
        deltas.insert(MediaType::Video, default_delta.clone());
        deltas.insert(MediaType::Audio, default_delta.clone());
        deltas.insert(MediaType::Unknown, default_delta);

        let state = State {
            downloaded_init: MediaMap::new(),
            downloaded_segs,
            deltas,
            back_pts: MediaMap::new(),
        };
        assert(state.downloaded_init() =~= Map::<MediaType, Seq<u8>>::empty());
        assert(state.downloaded_segs() =~= Map::<MediaType, Set<usize>>::empty().insert(
            MediaType::Video,
            Set::empty(),
        ).insert(MediaType::Audio, Set::empty()));
        assert(state.deltas() =~= Map::<MediaType, Map<isize, i32>>::empty().insert(
            MediaType::Video,
            prior_deltas(),
        ).insert(MediaType::Audio, prior_deltas()).insert(MediaType::Unknown, prior_deltas()));
        state
    }

    /// The earliest segment timestamp held for `media_type`, if any is held.
    pub fn min_downloaded(&self, media_type: MediaType) -> (earliest: Option<usize>)
        ensures
            match earliest {
                Some(t) => self.segs_of(media_type).contains(t) && forall|u: usize|
                    self.segs_of(media_type).contains(u) ==> t <= u,
                None => self.segs_of(media_type) == Set::<usize>::empty(),
            },
    {
        match self.downloaded_segs.get(media_type) {
            None => None,
            Some(segs) => {
                let mut best: Option<usize> = None;
                let ghost seen: Set<usize> = Set::empty();
                for t in it: segs.iter()
                    invariant
                        it.seq().unref().to_set() == segs@,
                        forall|i: int| 0 <= i < it.index() ==> seen.contains(*it.seq()[i]),
                        forall|u: usize| seen.contains(u) ==> segs@.contains(u),
                        best is None ==> seen == Set::<usize>::empty(),
                        best matches Some(b) ==> segs@.contains(b) && forall|u: usize|
                            seen.contains(u) ==> b <= u,
                {
                    proof {
                        assert(it.seq().unref()[it.index()] == *t);
                        assert(it.seq().unref().to_set().contains(*t));
                        seen = seen.insert(*t);
                    }
                    let smaller = match best {
                        Some(b) => *t < b,
                        None => true,
                    };
                    if smaller {
                        best = Some(*t);
                    }
                }
                proof {
                    assert forall|u: usize| segs@.contains(u) implies seen.contains(u) by {}
                    assert(seen =~= segs@);
                }
                best
            },
        }
    }

    /// Registers the segment at timestamp `t` as held for `media_type`.
    pub fn record_download(&mut self, media_type: MediaType, t: usize)
        requires
            old(self).wf(),
            t > 0,
        ensures
            final(self).wf(),
            final(self).downloaded_segs() == old(self).downloaded_segs().insert(
                media_type,
                old(self).segs_of(media_type).insert(t),
            ),
            final(self).downloaded_init() == old(self).downloaded_init(),
            final(self).deltas() == old(self).deltas(),
            final(self).back_pts() == old(self).back_pts(),
    {
        let mut segs = match self.downloaded_segs.remove(media_type) {
            Some(held) => held,
            None => HashSet::new(),
        };
        segs.insert(t);
        self.downloaded_segs.insert(media_type, segs);
        assert(self.downloaded_segs() =~= old(self).downloaded_segs().insert(
            media_type,
            old(self).segs_of(media_type).insert(t),
        ));
    }

    /// Counts one more observation of `delta` for `media_type`.
    pub fn record_delta(&mut self, media_type: MediaType, delta: isize)
        requires
            old(self).deltas().contains_key(media_type),
            old(self).delta_count(media_type, delta) < i32::MAX,
        ensures
            final(self).deltas() == old(self).deltas().insert(
                media_type,
                old(self).deltas()[media_type].insert(
                    delta,
                    (old(self).delta_count(media_type, delta) + 1) as i32,
                ),
            ),
            final(self).delta_count(media_type, delta) == old(self).delta_count(media_type, delta)
                + 1,
            final(self).downloaded_init() == old(self).downloaded_init(),
            final(self).downloaded_segs() == old(self).downloaded_segs(),
            final(self).back_pts() == old(self).back_pts(),
    {
        match self.deltas.remove(media_type) {
            Some(mut histogram) => {
                let count: i32 = match histogram.get(&delta) {
                    Some(seen) => *seen + 1,
                    None => 1,
                };
                histogram.insert(delta, count);
                self.deltas.insert(media_type, histogram);
            },
            None => {},
        }
        assert(self.deltas() =~= old(self).deltas().insert(
            media_type,
            old(self).deltas()[media_type].insert(
                delta,
                (old(self).delta_count(media_type, delta) + 1) as i32,
            ),
        ));
    }

    /// Whether a histogram is kept for `media_type`.
    pub fn has_deltas(&self, media_type: MediaType) -> (kept: bool)
        ensures
            kept == self.deltas().contains_key(media_type),
    {
        self.deltas.contains_key(media_type)
    }

    /// How often `delta` was seen for `media_type`.
    pub fn count_of(&self, media_type: MediaType, delta: isize) -> (count: i32)
        ensures
            count == self.delta_count(media_type, delta),
    {
        match self.deltas.get(media_type) {
            Some(histogram) => match histogram.get(&delta) {
                Some(seen) => *seen,
                None => 0,
            },
            None => 0,
        }
    }

    /// The histogram of `media_type` as a list of `(delta, count)` pairs, in
    /// no particular order.
    pub fn deltas_snapshot(&self, media_type: MediaType) -> (list: Vec<(isize, i32)>)
        requires
            self.deltas().contains_key(media_type),
        ensures
            is_snapshot(list@, self.deltas()[media_type]),
    {
        let mut list: Vec<(isize, i32)> = Vec::new();
        match self.deltas.get(media_type) {
            Some(histogram) => {
                for pair in it: histogram.iter()
                    invariant
                        list@ == it.seq().take(it.index()).unref(),
                        it.index() == it.seq().len() ==> list@ == it.seq().unref(),
                        it.seq().unref().to_set() == histogram@.kv_pairs(),
                        it.seq().no_duplicates(),
                {
                    let (delta, count) = pair;
                    list.push((*delta, *count));
                    assert(it.index() + 1 == it.seq().len() ==> it.seq().take(it.index() + 1)
                        =~= it.seq());
                }
            },
            None => {},
        }
        list
    }

    /// Sets the watermark of `media_type` to `pts`.
    pub fn set_back_pts(&mut self, media_type: MediaType, pts: usize)
        ensures
            final(self).back_pts() == old(self).back_pts().insert(media_type, pts),
            final(self).downloaded_init() == old(self).downloaded_init(),
            final(self).downloaded_segs() == old(self).downloaded_segs(),
            final(self).deltas() == old(self).deltas(),
    {
        self.back_pts.insert(media_type, pts);
    }

    /// The watermark of `media_type`, if one was set.
    pub fn get_back_pts(&self, media_type: MediaType) -> (pts: Option<usize>)
        ensures
            pts is Some == self.back_pts().contains_key(media_type),
            pts matches Some(p) ==> p == self.back_pts()[media_type],
    {
        match self.back_pts.get(media_type) {
            Some(p) => Some(*p),
            None => None,
        }
    }

    /// Keeps `data` as the initialization segment of `media_type` unless one
    /// is held already; tells whether it was kept.
    pub fn set_init(&mut self, media_type: MediaType, data: Vec<u8>) -> (kept: bool)
        ensures
            kept == !old(self).downloaded_init().contains_key(media_type),
            final(self).downloaded_init() == if kept {
                old(self).downloaded_init().insert(media_type, data@)
            } else {
                old(self).downloaded_init()
            },
            final(self).downloaded_segs() == old(self).downloaded_segs(),
            final(self).deltas() == old(self).deltas(),
            final(self).back_pts() == old(self).back_pts(),
    {
        if self.downloaded_init.contains_key(media_type) {
            false
        } else {
            self.downloaded_init.insert(media_type, data);
            assert(self.downloaded_init() =~= old(self).downloaded_init().insert(
                media_type,
                data@,
            ));
            true
        }
    }

    /// The initialization segment held for `media_type`, if any.
    pub fn init(&self, media_type: MediaType) -> (data: Option<&Vec<u8>>)
        ensures
            data is Some == self.downloaded_init().contains_key(media_type),
            data matches Some(d) ==> d@ == self.downloaded_init()[media_type],
    {
        self.downloaded_init.get(media_type)
    }

    /// Whether a fetched segment is turned down for its decoded timestamp:
    /// it has one, the check is on, and the timestamp lies too far before the
    /// watermark. A segment whose decoded timestamp could not be read is
    /// never turned down.
    pub open spec fn turned_down(
        &self,
        media_type: MediaType,
        pts: Option<usize>,
        ignore_pts: bool,
        tolerance: usize,
    ) -> bool {
        pts matches Some(p) && !ignore_pts && self.pts_too_early(media_type, p, tolerance)
    }

    /// Whether a fetched segment may be kept.
    pub fn admits(
        &self,
        media_type: MediaType,
        pts: Option<usize>,
        ignore_pts: bool,
        tolerance: usize,
    ) -> (admitted: bool)
        ensures
            admitted == !self.turned_down(media_type, pts, ignore_pts, tolerance),
    {
        match pts {
            Some(p) => self.accepts_pts(media_type, ignore_pts, p, tolerance),
            None => true,
        }
    }

    /// Books the segment fetched at timestamp `t`, unless it is turned down
    /// for its decoded timestamp `pts`; then nothing changes. A segment that
    /// is kept joins the held segments of `media_type`, and the watermark
    /// moves to `pts` where there is one.
    pub fn book_segment(
        &mut self,
        media_type: MediaType,
        t: usize,
        pts: Option<usize>,
        ignore_pts: bool,
        tolerance: usize,
    ) -> (booked: Result<(), IgLiveError>)
        requires
            old(self).wf(),
            t > 0,
        ensures
            final(self).wf(),
            final(self).downloaded_init() == old(self).downloaded_init(),
            final(self).deltas() == old(self).deltas(),
            match booked {
                Ok(()) => {
                    &&& !old(self).turned_down(media_type, pts, ignore_pts, tolerance)
                    &&& final(self).downloaded_segs() == old(self).downloaded_segs().insert(
                        media_type,
                        old(self).segs_of(media_type).insert(t),
                    )
                    &&& final(self).back_pts() == match pts {
                        Some(p) => old(self).back_pts().insert(media_type, p),
                        None => old(self).back_pts(),
                    }
                },
                Err(e) => {
                    &&& e == IgLiveError::PtsTooEarly
                    &&& old(self).turned_down(media_type, pts, ignore_pts, tolerance)
                    &&& final(self).downloaded_segs() == old(self).downloaded_segs()
                    &&& final(self).back_pts() == old(self).back_pts()
                },
            },
    {
        if !self.admits(media_type, pts, ignore_pts, tolerance) {
            return Err(IgLiveError::PtsTooEarly);
        }
        match pts {
            Some(p) => self.commit_segment(media_type, t, p),
            None => self.record_download(media_type, t),
        }
        Ok(())
    }

    /// Whether a fetched segment with decoded timestamp `pts` may be kept:
    /// always when the check is switched off, else unless it lies too far
    /// before the watermark.
    pub fn accepts_pts(
        &self,
        media_type: MediaType,
        ignore_pts: bool,
        pts: usize,
        tolerance: usize,
    ) -> (accepted: bool)
        ensures
            accepted == (ignore_pts || !self.pts_too_early(media_type, pts, tolerance)),
    {
        if ignore_pts {
            return true;
        }
        match self.back_pts.get(media_type) {
            Some(mark) => {
                if *mark >= tolerance {
                    pts >= *mark - tolerance
                } else {
                    true
                }
            },
            None => true,
        }
    }

    /// Books a segment that was fetched and written: its timestamp `t` joins
    /// the held segments of `media_type`, and the watermark moves to `pts`.
    pub fn commit_segment(&mut self, media_type: MediaType, t: usize, pts: usize)
        requires
            old(self).wf(),
            t > 0,
        ensures
            final(self).wf(),
            final(self).downloaded_segs() == old(self).downloaded_segs().insert(
                media_type,
                old(self).segs_of(media_type).insert(t),
            ),
            final(self).back_pts() == old(self).back_pts().insert(media_type, pts),
            final(self).downloaded_init() == old(self).downloaded_init(),
            final(self).deltas() == old(self).deltas(),
    {
        self.record_download(media_type, t);
        self.set_back_pts(media_type, pts);
    }
}

} // verus!
