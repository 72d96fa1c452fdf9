//! The backward discovery loop of one representation, as a state machine.
//!
//! The caller owns the loop and does the fetching. It asks
//! [`Discovery::next_action`] what to do, probes the candidates it is given,
//! and hands the outcomes to [`Discovery::absorb`]. Everything that is
//! decided between two rounds of probes is decided here.

use crate::candidates::{
    admissible, batch, find_next_candidates, lemma_batch_valid, lemma_batch_without_deltas, paired,
    ranking_of,
};
use crate::error::IgLiveError;
use crate::media::MediaType;
use crate::ranking::{lemma_ranked_is_ranking, ranked};
use crate::state::{is_snapshot, State};
use std::collections::BTreeSet;
use vstd::prelude::*;

verus! {

/// How far below the newest known timestamp the search resumes when a
/// segment is taken to be missing.
pub const ASSUMED_MISSING_DELTA: isize = 2000;

/// How many segments in a row may be taken to be missing before the loop
/// gives up.
pub const SKIP_CEILING: usize = 5;

/// How many probes may be in flight at once.
pub const CONCURRENCY_LIMIT: usize = 10;

/// What came of one probe.
#[derive(PartialEq, Eq, Structural, Clone, Copy, Debug)]
pub enum ProbeOutcome {
    /// The segment was fetched, written and booked.
    Downloaded,
    /// The server does not have a segment at this timestamp.
    NotFound,
    /// A segment was fetched, but its decoded timestamp lies too far before
    /// the watermark.
    PtsTooEarly,
    /// Anything else went wrong with the probe.
    Failed,
}

impl ProbeOutcome {
    /// The outcome that the result of a fetch stands for. A failure comes
    /// with the library's error where it is one, and without it otherwise.
    pub fn of(result: Result<(), Option<IgLiveError>>) -> (outcome: ProbeOutcome)
        ensures
            outcome == match result {
                Ok(()) => ProbeOutcome::Downloaded,
                Err(Some(IgLiveError::StatusNotFound)) => ProbeOutcome::NotFound,
                Err(Some(IgLiveError::PtsTooEarly)) => ProbeOutcome::PtsTooEarly,
                Err(_) => ProbeOutcome::Failed,
            },
    {
        match result {
            Ok(()) => ProbeOutcome::Downloaded,
            Err(Some(IgLiveError::StatusNotFound)) => ProbeOutcome::NotFound,
            Err(Some(IgLiveError::PtsTooEarly)) => ProbeOutcome::PtsTooEarly,
            Err(_) => ProbeOutcome::Failed,
        }
    }
}

/// The answer to one probe.
#[derive(PartialEq, Eq, Structural, Clone, Copy, Debug)]
pub struct ProbeReport {
    pub candidate_t: isize,
    pub delta: isize,
    pub outcome: ProbeOutcome,
}

/// What the caller is to do next.
#[derive(Debug)]
pub enum Action {
    /// Probe these candidates, each a timestamp with its distance below the
    /// newest known one, and report back. `ignore_pts` says whether the
    /// fetcher is to skip its timestamp check.
    Probe { candidates: Vec<(isize, isize)>, ignore_pts: bool },
    /// No candidate was left, so a segment near `near` is taken to be
    /// missing and the search has moved on below it. With `give_up` set this
    /// was one gap too many, and the loop is over.
    Skip { near: isize, give_up: bool },
    /// The loop is over.
    Stop,
}

/// The loop's state as plain mathematics.
pub struct DiscoveryView {
    pub media_type: MediaType,
    pub start_frame: usize,
    pub parallel_candidates: usize,
    /// The newest timestamp known to hold a segment, or to be passed over.
    pub latest_t: isize,
    /// Every timestamp proposed so far, less those let in again.
    pub visited: Set<isize>,
    /// The timestamps turned down for their decoded time since the last
    /// success or gap.
    pub pts_too_early: Set<isize>,
    pub lower_bound: isize,
    pub prev_delta: isize,
    pub skipped_segments: usize,
    /// The candidates that are out for probing.
    pub pending: Seq<(isize, isize)>,
    /// Every timestamp that was ever handed out for probing.
    pub submitted: Set<isize>,
    /// Every timestamp that was ever turned down for its decoded time.
    pub rejected: Set<isize>,
}

/// The state a loop starts in.
pub open spec fn initial(
    media_type: MediaType,
    latest_t: isize,
    start_frame: usize,
    parallel_candidates: usize,
) -> DiscoveryView {
    DiscoveryView {
        media_type,
        start_frame,
        parallel_candidates,
        latest_t,
        visited: Set::empty(),
        pts_too_early: Set::empty(),
        lower_bound: 0,
        prev_delta: 0,
        skipped_segments: 0,
        pending: Seq::empty(),
        submitted: Set::empty(),
        rejected: Set::empty(),
    }
}

/// The loop has given up.
pub open spec fn gave_up(v: DiscoveryView) -> bool {
    v.skipped_segments > SKIP_CEILING
}

/// The loop is over: the start of the broadcast is reached, or it gave up.
pub open spec fn finished(v: DiscoveryView) -> bool {
    v.latest_t <= v.start_frame || gave_up(v)
}

/// What holds of the loop's bookkeeping in every state that it reaches:
/// the bounds on the lower bound and on the skipped segments, and that a
/// timestamp which was handed out and may be proposed again was turned down
/// for its decoded time.
pub open spec fn consistent(v: DiscoveryView) -> bool {
    &&& 0 <= v.lower_bound
    &&& v.skipped_segments <= SKIP_CEILING + 1
    &&& forall|t: isize| v.pts_too_early.contains(t) ==> v.rejected.contains(t)
    &&& forall|t: isize| v.submitted.contains(t) && !v.visited.contains(t) ==> v.rejected.contains(t)
}

/// What holds of every state that the loop reaches.
pub open spec fn well_formed(v: DiscoveryView) -> bool {
    &&& consistent(v)
    &&& forall|i: int|
        0 <= i < v.pending.len() ==> {
            &&& 0 < (#[trigger] v.pending[i]).0 < v.latest_t
            &&& v.pending[i].1 == v.latest_t - v.pending[i].0
            &&& v.submitted.contains(v.pending[i].0)
        }
}

/// The timestamps of the next batch.
pub open spec fn planned(v: DiscoveryView, histogram: Map<isize, i32>) -> Seq<isize> {
    batch(
        ranking_of(histogram),
        v.latest_t,
        v.lower_bound,
        v.visited,
        v.parallel_candidates as nat,
    )
}

/// The state after `picks` went out for probing.
pub open spec fn probing(v: DiscoveryView, picks: Seq<isize>) -> DiscoveryView {
    DiscoveryView {
        visited: v.visited.union(picks.to_set()),
        submitted: v.submitted.union(picks.to_set()),
        pending: paired(picks, v.latest_t),
        ..v
    }
}

/// The state after a segment below `v.latest_t` was taken to be missing:
/// the search moves down by [`ASSUMED_MISSING_DELTA`], the lower bound falls
/// back to 0, and the timestamps turned down for their decoded time may be
/// proposed again.
pub open spec fn gap_recovered(v: DiscoveryView) -> DiscoveryView {
    let below = (v.latest_t - ASSUMED_MISSING_DELTA) as isize;
    DiscoveryView {
        latest_t: below,
        lower_bound: 0,
        visited: v.visited.insert(below).difference(v.pts_too_early),
        pts_too_early: Set::empty(),
        skipped_segments: (v.skipped_segments + 1) as usize,
        pending: Seq::empty(),
        ..v
    }
}

/// The state after one report was read.
pub open spec fn after_report(v: DiscoveryView, report: ProbeReport) -> DiscoveryView {
    match report.outcome {
        ProbeOutcome::Downloaded => DiscoveryView {
            prev_delta: report.delta,
            latest_t: report.candidate_t,
            skipped_segments: 0,
            visited: v.visited.difference(v.pts_too_early),
            pts_too_early: Set::empty(),
            ..v
        },
        ProbeOutcome::PtsTooEarly => DiscoveryView {
            lower_bound: if report.candidate_t > v.lower_bound {
                report.candidate_t
            } else {
                v.lower_bound
            },
            pts_too_early: v.pts_too_early.insert(report.candidate_t),
            rejected: v.rejected.insert(report.candidate_t),
            ..v
        },
        ProbeOutcome::NotFound | ProbeOutcome::Failed => v,
    }
}

/// The state after the reports were read one after the other.
pub open spec fn after_reports(v: DiscoveryView, reports: Seq<ProbeReport>) -> DiscoveryView
    decreases reports.len(),
{
    if reports.len() == 0 {
        v
    } else {
        after_report(after_reports(v, reports.drop_last()), reports.last())
    }
}

/// `histogram` with one more observation of `delta`.
pub open spec fn bumped(histogram: Map<isize, i32>, delta: isize) -> Map<isize, i32> {
    histogram.insert(delta, (count_in(histogram, delta) + 1) as i32)
}

/// How often `histogram` has seen `delta`.
pub open spec fn count_in(histogram: Map<isize, i32>, delta: isize) -> int {
    if histogram.contains_key(delta) {
        histogram[delta] as int
    } else {
        0
    }
}

/// `histogram` after the delta of every successful probe was counted.
pub open spec fn learned(histogram: Map<isize, i32>, reports: Seq<ProbeReport>) -> Map<isize, i32>
    decreases reports.len(),
{
    if reports.len() == 0 {
        histogram
    } else if reports.last().outcome == ProbeOutcome::Downloaded {
        bumped(learned(histogram, reports.drop_last()), reports.last().delta)
    } else {
        learned(histogram, reports.drop_last())
    }
}

/// How many of the reports are successes with the delta `delta`.
pub open spec fn successes(reports: Seq<ProbeReport>, delta: isize) -> nat
    decreases reports.len(),
{
    if reports.len() == 0 {
        0
    } else if reports.last().outcome == ProbeOutcome::Downloaded && reports.last().delta == delta {
        successes(reports.drop_last(), delta) + 1
    } else {
        successes(reports.drop_last(), delta)
    }
}

/// Whether a report says something that changes the loop's state.
pub open spec fn matters(report: ProbeReport) -> bool {
    report.outcome == ProbeOutcome::Downloaded || report.outcome == ProbeOutcome::PtsTooEarly
}

/// Whether every report that matters answers a candidate that is out for
/// probing.
pub open spec fn answers(v: DiscoveryView, reports: Seq<ProbeReport>) -> bool {
    forall|i: int|
        0 <= i < reports.len() && matters(#[trigger] reports[i]) ==> v.pending.contains(
            (reports[i].candidate_t, reports[i].delta),
        )
}

/// Whether the histogram can count every success among the reports.
pub open spec fn countable(histogram: Map<isize, i32>, reports: Seq<ProbeReport>) -> bool {
    forall|delta: isize| count_in(histogram, delta) + successes(reports, delta) <= i32::MAX
}

/// Whether the histogram has room for as many observations as there are
/// reports, at the delta of every success among them.
pub open spec fn roomy(histogram: Map<isize, i32>, reports: Seq<ProbeReport>) -> bool {
    forall|i: int|
        0 <= i < reports.len() && (#[trigger] reports[i]).outcome == ProbeOutcome::Downloaded
            ==> count_in(histogram, reports[i].delta) + reports.len() <= i32::MAX
}

/// There are no more successes than reports, and where there is a success
/// with some delta, one of the reports is that success.
pub proof fn lemma_successes_bounded(reports: Seq<ProbeReport>, delta: isize)
    ensures
        successes(reports, delta) <= reports.len(),
        successes(reports, delta) > 0 ==> exists|i: int|
            0 <= i < reports.len() && (#[trigger] reports[i]).outcome == ProbeOutcome::Downloaded
                && reports[i].delta == delta,
    decreases reports.len(),
{
    if reports.len() > 0 {
        let earlier = reports.drop_last();
        lemma_successes_bounded(earlier, delta);
        if successes(earlier, delta) > 0 {
            let i = choose|i: int|
                0 <= i < earlier.len() && (#[trigger] earlier[i]).outcome
                    == ProbeOutcome::Downloaded && earlier[i].delta == delta;
            assert(reports[i] == earlier[i]);
        } else if successes(reports, delta) > 0 {
            assert(reports[reports.len() - 1].outcome == ProbeOutcome::Downloaded);
        }
    }
}

/// A histogram with room can count every success.
pub proof fn lemma_roomy_is_countable(histogram: Map<isize, i32>, reports: Seq<ProbeReport>)
    requires
        roomy(histogram, reports),
    ensures
        countable(histogram, reports),
{
    assert forall|delta: isize| count_in(histogram, delta) + successes(reports, delta)
        <= i32::MAX by {
        lemma_successes_bounded(reports, delta);
    }
}

/// Monotone descent, for a gap: the search only moves down.
pub proof fn lemma_gap_descends(v: DiscoveryView)
    requires
        !finished(v),
    ensures
        gap_recovered(v).latest_t == v.latest_t - ASSUMED_MISSING_DELTA,
        gap_recovered(v).latest_t < v.latest_t,
{
}

/// Monotone descent, for a round of probes: reading the reports never
/// raises the newest known timestamp, and lowers it if one of them is a
/// success.
pub proof fn lemma_reports_descend(v: DiscoveryView, reports: Seq<ProbeReport>)
    requires
        well_formed(v),
        answers(v, reports),
    ensures
        after_reports(v, reports).latest_t <= v.latest_t,
        after_reports(v, reports).pending == v.pending,
        (exists|i: int| 0 <= i < reports.len() && (#[trigger] reports[i]).outcome
            == ProbeOutcome::Downloaded) ==> after_reports(v, reports).latest_t < v.latest_t,
    decreases reports.len(),
{
    if reports.len() > 0 {
        let earlier = reports.drop_last();
        assert forall|i: int| 0 <= i < earlier.len() && matters(#[trigger] earlier[i]) implies v.pending.contains(
            (earlier[i].candidate_t, earlier[i].delta),
        ) by {
            assert(earlier[i] == reports[i]);
        }
        lemma_reports_descend(v, earlier);
        let last = reports.last();
        if last.outcome == ProbeOutcome::Downloaded {
            assert(matters(reports[reports.len() - 1]));
            let pair = (last.candidate_t, last.delta);
            let at = choose|at: int| 0 <= at < v.pending.len() && v.pending[at] == pair;
            assert(v.pending[at].0 < v.latest_t);
        } else {
            if exists|i: int| 0 <= i < reports.len() && (#[trigger] reports[i]).outcome
                == ProbeOutcome::Downloaded {
                let i = choose|i: int| 0 <= i < reports.len() && (#[trigger] reports[i]).outcome
                    == ProbeOutcome::Downloaded;
                assert(earlier[i] == reports[i]);
            }
        }
    }
}

/// A prefix of the reports holds no more successes than the whole.
pub proof fn lemma_successes_grow(reports: Seq<ProbeReport>, count: int, delta: isize)
    requires
        0 <= count <= reports.len(),
    ensures
        successes(reports.take(count), delta) <= successes(reports, delta),
    decreases reports.len() - count,
{
    if count < reports.len() {
        lemma_successes_grow(reports, count + 1, delta);
        assert(reports.take(count + 1).drop_last() =~= reports.take(count));
    } else {
        assert(reports.take(count) =~= reports);
    }
}

/// Delta learning: each success adds one to the count of its delta, and
/// nothing else changes a count.
pub proof fn lemma_learned_counts(histogram: Map<isize, i32>, reports: Seq<ProbeReport>)
    requires
        countable(histogram, reports),
    ensures
        forall|delta: isize| #[trigger]
            count_in(learned(histogram, reports), delta) == count_in(histogram, delta) + successes(
                reports,
                delta,
            ),
        forall|i: int|
            0 <= i < reports.len() && (#[trigger] reports[i]).outcome == ProbeOutcome::Downloaded
                ==> count_in(learned(histogram, reports), reports[i].delta) > count_in(
                histogram,
                reports[i].delta,
            ),
    decreases reports.len(),
{
    if reports.len() > 0 {
        let earlier = reports.drop_last();
        assert(earlier =~= reports.take(reports.len() - 1));
        assert forall|delta: isize| count_in(histogram, delta) + successes(earlier, delta)
            <= i32::MAX by {
            lemma_successes_grow(reports, reports.len() - 1, delta);
        }
        lemma_learned_counts(histogram, earlier);
        assert forall|delta: isize| #[trigger]
            count_in(learned(histogram, reports), delta) == count_in(histogram, delta) + successes(
                reports,
                delta,
            ) by {
            assert(count_in(learned(histogram, earlier), delta) == count_in(histogram, delta)
                + successes(earlier, delta));
        }
        assert forall|i: int|
            0 <= i < reports.len() && (#[trigger] reports[i]).outcome
                == ProbeOutcome::Downloaded implies count_in(
            learned(histogram, reports),
            reports[i].delta,
        ) > count_in(histogram, reports[i].delta) by {
            let delta = reports[i].delta;
            assert(count_in(learned(histogram, reports), delta) == count_in(histogram, delta)
                + successes(reports, delta));
            lemma_successes_grow(reports, i + 1, delta);
            assert(reports.take(i + 1).last() == reports[i]);
        }
    }
}

/// No re-probe: a timestamp of the next batch was never handed out before,
/// unless it was turned down for its decoded time in between.
pub proof fn lemma_no_reprobe(v: DiscoveryView, histogram: Map<isize, i32>, t: isize)
    requires
        well_formed(v),
        planned(v, histogram).contains(t),
        v.submitted.contains(t),
    ensures
        v.rejected.contains(t),
{
    lemma_batch_valid(
        ranking_of(histogram),
        v.latest_t,
        v.lower_bound,
        v.visited,
        v.parallel_candidates as nat,
    );
}

/// Gap bound: a gap leaves at most one skipped segment more than the
/// ceiling, and the loop is over as soon as the ceiling is passed.
pub proof fn lemma_gap_bound(v: DiscoveryView)
    requires
        well_formed(v),
        !finished(v),
    ensures
        well_formed(gap_recovered(v)),
        gap_recovered(v).skipped_segments <= SKIP_CEILING + 1,
        gap_recovered(v).skipped_segments > SKIP_CEILING ==> finished(gap_recovered(v)),
{
}

/// PTS reinstatement: after a gap no timestamp that was turned down for its
/// decoded time counts as visited, so each of them that lies below the new
/// position, and above 0, may be proposed again.
pub proof fn lemma_gap_reinstates(v: DiscoveryView, t: isize)
    requires
        v.pts_too_early.contains(t),
    ensures
        !gap_recovered(v).visited.contains(t),
        gap_recovered(v).pts_too_early == Set::<isize>::empty(),
        gap_recovered(v).lower_bound == 0,
        0 < t < gap_recovered(v).latest_t ==> admissible(
            t as int,
            gap_recovered(v).latest_t,
            gap_recovered(v).lower_bound,
            gap_recovered(v).visited,
        ),
{
}

/// One step above the start of the broadcast, a gap ends the loop.
pub proof fn lemma_gap_near_start(v: DiscoveryView)
    requires
        v.latest_t == v.start_frame + 1,
    ensures
        finished(gap_recovered(v)),
{
}

/// A histogram without entries has an empty ranking, and so plans an empty
/// batch.
pub proof fn lemma_nothing_planned_without_deltas(v: DiscoveryView)
    ensures
        ranking_of(Map::<isize, i32>::empty()) == Seq::<(isize, i32)>::empty(),
        planned(v, Map::<isize, i32>::empty()) == Seq::<isize>::empty(),
{
    let nothing = Map::<isize, i32>::empty();
    let none = Seq::<(isize, i32)>::empty();
    assert(none.to_set() =~= nothing.kv_pairs());
    assert(is_snapshot(none, nothing));
    let chosen = choose|list: Seq<(isize, i32)>| is_snapshot(list, nothing);
    assert(is_snapshot(chosen, nothing));
    if chosen.len() > 0 {
        assert(chosen.to_set().contains(chosen[0]));
    }
    lemma_ranked_is_ranking(chosen);
    assert(ranked(chosen) =~= none);
    lemma_batch_without_deltas(v.latest_t, v.lower_bound, v.visited, v.parallel_candidates as nat);
}

/// What the caller does between two states of a loop.
pub enum Step {
    /// It asks for the next action.
    Plan,
    /// It hands in the reports of a round of probes.
    Read(Seq<ProbeReport>),
}

/// A loop together with the histogram of its media kind.
pub struct Session {
    pub view: DiscoveryView,
    pub histogram: Map<isize, i32>,
}

/// Whether the caller may take `step`: reports must answer the candidates
/// that are out for probing, and the histogram must be able to count them.
pub open spec fn permitted(s: Session, step: Step) -> bool {
    match step {
        Step::Plan => true,
        Step::Read(reports) => answers(s.view, reports) && countable(s.histogram, reports),
    }
}

/// The loop and its histogram after `step`.
pub open spec fn after_step(s: Session, step: Step) -> Session {
    match step {
        Step::Plan => if finished(s.view) {
            s
        } else if planned(s.view, s.histogram).len() == 0 {
            Session { view: gap_recovered(s.view), histogram: s.histogram }
        } else {
            Session { view: probing(s.view, planned(s.view, s.histogram)), histogram: s.histogram }
        },
        Step::Read(reports) => Session {
            view: DiscoveryView { pending: Seq::empty(), ..after_reports(s.view, reports) },
            histogram: learned(s.histogram, reports),
        },
    }
}

/// The loop and its histogram after the steps, taken one after the other.
pub open spec fn after_steps(s: Session, steps: Seq<Step>) -> Session
    decreases steps.len(),
{
    if steps.len() == 0 {
        s
    } else {
        after_step(after_steps(s, steps.drop_last()), steps.last())
    }
}

/// Whether the steps make a run from `s`: each is permitted where it is
/// taken.
pub open spec fn is_run(s: Session, steps: Seq<Step>) -> bool
    decreases steps.len(),
{
    steps.len() == 0 || (is_run(s, steps.drop_last()) && permitted(
        after_steps(s, steps.drop_last()),
        steps.last(),
    ))
}

/// How many successes with the delta `delta` the reports of the steps hold.
pub open spec fn run_successes(steps: Seq<Step>, delta: isize) -> nat
    decreases steps.len(),
{
    if steps.len() == 0 {
        0
    } else {
        run_successes(steps.drop_last(), delta) + match steps.last() {
            Step::Plan => 0,
            Step::Read(reports) => successes(reports, delta),
        }
    }
}

/// Sending a planned batch out for probing keeps the state well formed.
pub proof fn lemma_probing_keeps_well_formed(v: DiscoveryView, histogram: Map<isize, i32>)
    requires
        well_formed(v),
    ensures
        well_formed(probing(v, planned(v, histogram))),
{
    let picks = planned(v, histogram);
    let w = probing(v, picks);
    lemma_batch_valid(
        ranking_of(histogram),
        v.latest_t,
        v.lower_bound,
        v.visited,
        v.parallel_candidates as nat,
    );
    assert forall|i: int| 0 <= i < w.pending.len() implies {
        &&& 0 < (#[trigger] w.pending[i]).0 < w.latest_t
        &&& w.pending[i].1 == w.latest_t - w.pending[i].0
        &&& w.submitted.contains(w.pending[i].0)
    } by {
        assert(picks.to_set().contains(picks[i]));
    }
}

/// Reading reports keeps the state well formed, and leaves no candidate out
/// for probing.
pub proof fn lemma_reports_keep_well_formed(v: DiscoveryView, reports: Seq<ProbeReport>)
    requires
        well_formed(v),
    ensures
        consistent(after_reports(v, reports)),
        well_formed(DiscoveryView { pending: Seq::empty(), ..after_reports(v, reports) }),
        after_reports(v, reports).media_type == v.media_type,
        after_reports(v, reports).start_frame == v.start_frame,
        after_reports(v, reports).parallel_candidates == v.parallel_candidates,
        after_reports(v, reports).submitted == v.submitted,
    decreases reports.len(),
{
    if reports.len() > 0 {
        lemma_reports_keep_well_formed(v, reports.drop_last());
        let before = after_reports(v, reports.drop_last());
        let after = after_report(before, reports.last());
        assert(consistent(after));
    }
    let last = after_reports(v, reports);
    let end = DiscoveryView { pending: Seq::empty(), ..last };
    assert(end.pts_too_early == last.pts_too_early && end.rejected == last.rejected
        && end.submitted == last.submitted && end.visited == last.visited);
    assert(consistent(end));
}

/// A permitted step keeps the state well formed and never raises the newest
/// known timestamp.
pub proof fn lemma_step_descends(s: Session, step: Step)
    requires
        well_formed(s.view),
        permitted(s, step),
    ensures
        well_formed(after_step(s, step).view),
        after_step(s, step).view.latest_t <= s.view.latest_t,
{
    match step {
        Step::Plan => {
            if !finished(s.view) {
                if planned(s.view, s.histogram).len() == 0 {
                    lemma_gap_bound(s.view);
                } else {
                    lemma_probing_keeps_well_formed(s.view, s.histogram);
                }
            }
        },
        Step::Read(reports) => {
            lemma_reports_keep_well_formed(s.view, reports);
            lemma_reports_descend(s.view, reports);
        },
    }
}

/// Monotone descent over a whole run: from a well-formed start the newest
/// known timestamp at the end is no higher than it was after any number of
/// the run's steps. So it never rises, and once it has changed it never
/// comes back to a value it had.
pub proof fn lemma_run_descends(s: Session, steps: Seq<Step>, sooner: int)
    requires
        well_formed(s.view),
        is_run(s, steps),
        0 <= sooner <= steps.len(),
    ensures
        well_formed(after_steps(s, steps).view),
        after_steps(s, steps).view.latest_t <= after_steps(s, steps.take(sooner)).view.latest_t,
        after_steps(s, steps).view.latest_t <= s.view.latest_t,
    decreases steps.len(),
{
    if steps.len() == 0 {
        assert(steps.take(sooner) =~= steps);
    } else {
        let earlier = steps.drop_last();
        if sooner == steps.len() {
            assert(steps.take(sooner) =~= steps);
            lemma_run_descends(s, earlier, 0);
        } else {
            assert(steps.take(sooner) =~= earlier.take(sooner));
            lemma_run_descends(s, earlier, sooner);
        }
        lemma_step_descends(after_steps(s, earlier), steps.last());
    }
}

/// Counting successes removes no delta from a histogram.
pub proof fn lemma_learned_keeps_keys(histogram: Map<isize, i32>, reports: Seq<ProbeReport>)
    ensures
        forall|delta: isize|
            histogram.contains_key(delta) ==> #[trigger] learned(histogram, reports).contains_key(
                delta,
            ),
    decreases reports.len(),
{
    if reports.len() > 0 {
        lemma_learned_keeps_keys(histogram, reports.drop_last());
        assert forall|delta: isize| histogram.contains_key(delta) implies #[trigger] learned(
            histogram,
            reports,
        ).contains_key(delta) by {
            assert(learned(histogram, reports.drop_last()).contains_key(delta));
        }
    }
}

/// Delta learning over a whole run: at the end the count of every delta is
/// its count at the start plus the number of successful probes with that
/// delta. So each success raises the count of its delta by one, a failed
/// probe changes no count, no count falls and no delta leaves the
/// histogram.
pub proof fn lemma_run_learns(s: Session, steps: Seq<Step>, delta: isize)
    requires
        is_run(s, steps),
    ensures
        count_in(after_steps(s, steps).histogram, delta) == count_in(s.histogram, delta)
            + run_successes(steps, delta),
        s.histogram.contains_key(delta) ==> after_steps(s, steps).histogram.contains_key(delta),
    decreases steps.len(),
{
    if steps.len() > 0 {
        let earlier = steps.drop_last();
        lemma_run_learns(s, earlier, delta);
        let before = after_steps(s, earlier);
        match steps.last() {
            Step::Plan => {},
            Step::Read(reports) => {
                lemma_learned_counts(before.histogram, reports);
                lemma_learned_keeps_keys(before.histogram, reports);
                assert(count_in(learned(before.histogram, reports), delta) == count_in(
                    before.histogram,
                    delta,
                ) + successes(reports, delta));
            },
        }
    }
}

/// The discovery loop of one representation.
pub struct Discovery {
    media_type: MediaType,
    start_frame: usize,
    parallel_candidates: usize,
    latest_t: isize,
    visited: BTreeSet<isize>,
    pts_too_early: BTreeSet<isize>,
    lower_bound: isize,
    prev_delta: isize,
    skipped_segments: usize,
    pending: Vec<(isize, isize)>,
    submitted: Ghost<Set<isize>>,
    rejected: Ghost<Set<isize>>,
}

impl View for Discovery {
    type V = DiscoveryView;

    closed spec fn view(&self) -> DiscoveryView {
        DiscoveryView {
            media_type: self.media_type,
            start_frame: self.start_frame,
            parallel_candidates: self.parallel_candidates,
            latest_t: self.latest_t,
            visited: self.visited@,
            pts_too_early: self.pts_too_early@,
            lower_bound: self.lower_bound,
            prev_delta: self.prev_delta,
            skipped_segments: self.skipped_segments,
            pending: self.pending@,
            submitted: self.submitted@,
            rejected: self.rejected@,
        }
    }
}

/// Lets the timestamps of `pts_too_early` be proposed again: they leave
/// `visited`, and `pts_too_early` is emptied.
fn reinstate(visited: &mut BTreeSet<isize>, pts_too_early: &mut BTreeSet<isize>)
    ensures
        final(visited)@ == old(visited)@.difference(old(pts_too_early)@),
        final(pts_too_early)@ == Set::<isize>::empty(),
{
    broadcast use vstd::std_specs::btree::group_btree_axioms;

    let ghost before = visited@;
    let ghost gone: Set<isize> = Set::empty();
    assert(visited@ =~= before.difference(gone));
    for seg in it: pts_too_early.iter()
        invariant
            visited@ == before.difference(gone),
            forall|t: isize| gone.contains(t) ==> pts_too_early@.contains(t),
            forall|i: int| 0 <= i < it.index() ==> gone.contains(*it.seq()[i]),
            it.seq().unref().to_set() == pts_too_early@,
    {
        visited.remove(seg);
        proof {
            assert(it.seq().unref()[it.index()] == *seg);
            assert(it.seq().unref().to_set().contains(*seg));
            gone = gone.insert(*seg);
            assert(visited@ =~= before.difference(gone));
        }
    }
    proof {
        assert forall|t: isize| pts_too_early@.contains(t) implies gone.contains(t) by {}
        assert(gone =~= pts_too_early@);
    }
    pts_too_early.clear();
}

/// A copy of `pairs`.
fn copy_pairs(pairs: &Vec<(isize, isize)>) -> (copy: Vec<(isize, isize)>)
    ensures
        copy@ == pairs@,
{
    let mut copy: Vec<(isize, isize)> = Vec::new();
    let mut i: usize = 0;
    while i < pairs.len()
        invariant
            i <= pairs.len(),
            copy@ == pairs@.take(i as int),
        decreases pairs.len() - i,
    {
        copy.push(pairs[i]);
        assert(pairs@.take(i + 1) =~= pairs@.take(i as int).push(pairs[i as int]));
        i += 1;
    }
    assert(pairs@.take(i as int) =~= pairs@);
    copy
}

impl Discovery {
    /// A loop for `media_type` that starts below `latest_t` and is to reach
    /// `start_frame`, with at most `parallel_candidates` probes per round.
    pub fn new(
        media_type: MediaType,
        latest_t: isize,
        start_frame: usize,
        parallel_candidates: usize,
    ) -> (discovery: Self)
        ensures
            discovery@ == initial(media_type, latest_t, start_frame, parallel_candidates),
            well_formed(discovery@),
    {
        Discovery {
            media_type,
            start_frame,
            parallel_candidates,
            latest_t,
            visited: BTreeSet::new(),
            pts_too_early: BTreeSet::new(),
            lower_bound: 0,
            prev_delta: 0,
            skipped_segments: 0,
            pending: Vec::new(),
            submitted: Ghost(Set::empty()),
            rejected: Ghost(Set::empty()),
        }
    }

    /// A loop that starts below the earliest segment that `state` holds for
    /// `media_type`; none where it holds no segment, or the timestamp is
    /// beyond the signed range.
    pub fn start(
        state: &State,
        media_type: MediaType,
        start_frame: usize,
        parallel_candidates: usize,
    ) -> (discovery: Option<Self>)
        ensures
            match discovery {
                Some(d) => {
                    &&& well_formed(d@)
                    &&& 0 <= d@.latest_t
                    &&& state.segs_of(media_type).contains(d@.latest_t as usize)
                    &&& forall|t: usize| state.segs_of(media_type).contains(t) ==> d@.latest_t <= t
                    &&& d@ == initial(media_type, d@.latest_t, start_frame, parallel_candidates)
                },
                None => state.segs_of(media_type) == Set::<usize>::empty() || exists|t: usize|
                    #![auto]
                    state.segs_of(media_type).contains(t) && t > isize::MAX && forall|u: usize|
                        state.segs_of(media_type).contains(u) ==> t <= u,
            },
    {
        match state.min_downloaded(media_type) {
            Some(earliest) => {
                if earliest <= isize::MAX as usize {
                    Some(
                        Discovery::new(
                            media_type,
                            earliest as isize,
                            start_frame,
                            parallel_candidates,
                        ),
                    )
                } else {
                    None
                }
            },
            None => None,
        }
    }

    /// The media kind this loop works on.
    pub fn media_type(&self) -> (media_type: MediaType)
        ensures
            media_type == self@.media_type,
    {
        self.media_type
    }

    /// The newest timestamp known to hold a segment, or to be passed over.
    pub fn latest_t(&self) -> (latest_t: isize)
        ensures
            latest_t == self@.latest_t,
    {
        self.latest_t
    }

    /// The timestamp that candidates must lie above.
    pub fn lower_bound(&self) -> (lower_bound: isize)
        ensures
            lower_bound == self@.lower_bound,
    {
        self.lower_bound
    }

    /// The delta of the last successful probe; 0 before the first.
    pub fn prev_delta(&self) -> (prev_delta: isize)
        ensures
            prev_delta == self@.prev_delta,
    {
        self.prev_delta
    }

    /// How many segments in a row were taken to be missing.
    pub fn skipped_segments(&self) -> (skipped: usize)
        ensures
            skipped == self@.skipped_segments,
    {
        self.skipped_segments
    }

    /// Whether `t` counts as proposed.
    pub fn is_visited(&self, t: isize) -> (visited: bool)
        ensures
            visited == self@.visited.contains(t),
    {
        broadcast use vstd::std_specs::btree::group_btree_axioms;

        self.visited.contains(&t)
    }

    /// Whether `t` was turned down for its decoded time since the last
    /// success or gap.
    pub fn is_pts_too_early(&self, t: isize) -> (held: bool)
        ensures
            held == self@.pts_too_early.contains(t),
    {
        broadcast use vstd::std_specs::btree::group_btree_axioms;

        self.pts_too_early.contains(&t)
    }

    /// Whether the candidate `candidate_t` with distance `delta` is out for
    /// probing.
    pub fn expects(&self, candidate_t: isize, delta: isize) -> (expected: bool)
        ensures
            expected == self@.pending.contains((candidate_t, delta)),
    {
        let mut i: usize = 0;
        while i < self.pending.len()
            invariant
                i <= self.pending.len(),
                forall|k: int| 0 <= k < i ==> self.pending@[k] != (candidate_t, delta),
            decreases self.pending.len() - i,
        {
            let pair = self.pending[i];
            if pair.0 == candidate_t && pair.1 == delta {
                return true;
            }
            i += 1;
        }
        false
    }

    /// Whether the loop has given up.
    pub fn has_given_up(&self) -> (over: bool)
        ensures
            over == gave_up(self@),
    {
        self.skipped_segments > SKIP_CEILING
    }

    /// Whether the loop is over.
    pub fn is_finished(&self) -> (over: bool)
        ensures
            over == finished(self@),
    {
        self.latest_t as i128 <= self.start_frame as i128 || self.skipped_segments > SKIP_CEILING
    }

    /// Decides the next step. A loop that is over stops. Otherwise the
    /// histogram that `state` holds for the loop's media kind plans a batch:
    /// if it is empty, a segment is taken to be missing; if not, it goes out
    /// for probing.
    pub fn next_action(&mut self, state: &State) -> (action: Action)
        requires
            well_formed(old(self)@),
            state.deltas().contains_key(old(self)@.media_type),
        ensures
            well_formed(final(self)@),
            final(self)@ == after_step(
                (Session { view: old(self)@, histogram: state.deltas()[old(self)@.media_type] }),
                Step::Plan,
            ).view,
            final(self)@.skipped_segments <= SKIP_CEILING + 1,
            final(self)@.latest_t <= old(self)@.latest_t,
            match action {
                Action::Stop => finished(old(self)@) && final(self)@ == old(self)@,
                Action::Skip { near, give_up } => {
                    &&& !finished(old(self)@)
                    &&& planned(old(self)@, state.deltas()[old(self)@.media_type]).len() == 0
                    &&& near == old(self)@.latest_t
                    &&& give_up == gave_up(final(self)@)
                    &&& final(self)@ == gap_recovered(old(self)@)
                    &&& final(self)@.latest_t < old(self)@.latest_t
                },
                Action::Probe { candidates, ignore_pts } => {
                    &&& !finished(old(self)@)
                    &&& candidates@.len() > 0
                    &&& candidates@ == paired(
                        planned(old(self)@, state.deltas()[old(self)@.media_type]),
                        old(self)@.latest_t,
                    )
                    &&& ignore_pts == (old(self)@.skipped_segments > 0)
                    &&& final(self)@ == probing(
                        old(self)@,
                        planned(old(self)@, state.deltas()[old(self)@.media_type]),
                    )
                    &&& forall|i: int|
                        0 <= i < candidates@.len() && old(self)@.submitted.contains(
                            (#[trigger] candidates@[i]).0,
                        ) ==> old(self)@.rejected.contains(candidates@[i].0)
                },
            },
    {
        if self.is_finished() {
            return Action::Stop;
        }
        let ghost before = self@;
        let ghost picks = planned(before, state.deltas()[before.media_type]);
        let candidates = find_next_candidates(
            state,
            self.media_type,
            self.latest_t,
            &mut self.visited,
            self.lower_bound,
            self.parallel_candidates,
        );
        proof {
            lemma_batch_valid(
                ranking_of(state.deltas()[before.media_type]),
                before.latest_t,
                before.lower_bound,
                before.visited,
                before.parallel_candidates as nat,
            );
        }
        if candidates.len() == 0 {
            proof {
                assert(picks.len() == 0);
                assert(picks.to_set() =~= Set::<isize>::empty());
                assert(self.visited@ =~= before.visited);
            }
            let near = self.latest_t;
            self.latest_t = self.latest_t - ASSUMED_MISSING_DELTA;
            self.lower_bound = 0;
            self.visited.insert(self.latest_t);
            reinstate(&mut self.visited, &mut self.pts_too_early);
            self.skipped_segments = self.skipped_segments + 1;
            self.pending = Vec::new();
            proof {
                assert(self@.pending =~= gap_recovered(before).pending);
                assert(self@ == gap_recovered(before));
                lemma_gap_bound(before);
            }
            return Action::Skip { near, give_up: self.skipped_segments > SKIP_CEILING };
        }
        self.pending = copy_pairs(&candidates);
        proof {
            self.submitted@ = before.submitted.union(picks.to_set());
            assert(self@ == probing(before, picks));
            assert forall|i: int| 0 <= i < self@.pending.len() implies {
                &&& 0 < (#[trigger] self@.pending[i]).0 < self@.latest_t
                &&& self@.pending[i].1 == self@.latest_t - self@.pending[i].0
                &&& self@.submitted.contains(self@.pending[i].0)
            } by {
                assert(picks.to_set().contains(picks[i]));
            }
            assert forall|i: int|
                0 <= i < candidates@.len() && before.submitted.contains(
                    (#[trigger] candidates@[i]).0,
                ) implies before.rejected.contains(candidates@[i].0) by {
                assert(candidates@[i].0 == picks[i]);
            }
        }
        Action::Probe { candidates, ignore_pts: self.skipped_segments > 0 }
    }

    /// Whether [`Discovery::absorb`] may be called with `reports`: `state`
    /// keeps a histogram for the loop's media kind, every report that
    /// matters answers a candidate that is out for probing, and the
    /// histogram has room for the successes.
    pub fn can_absorb(&self, state: &State, reports: &Vec<ProbeReport>) -> (ok: bool)
        ensures
            ok == (state.deltas().contains_key(self@.media_type) && answers(self@, reports@)
                && roomy(state.deltas()[self@.media_type], reports@)),
            ok ==> countable(state.deltas()[self@.media_type], reports@),
    {
        if !state.has_deltas(self.media_type) {
            return false;
        }
        let ghost histogram = state.deltas()[self.media_type];
        let mut i: usize = 0;
        while i < reports.len()
            invariant
                i <= reports.len(),
                state.deltas().contains_key(self.media_type),
                histogram == state.deltas()[self.media_type],
                forall|k: int|
                    0 <= k < i && matters(#[trigger] reports@[k]) ==> self@.pending.contains(
                        (reports@[k].candidate_t, reports@[k].delta),
                    ),
                forall|k: int|
                    0 <= k < i && (#[trigger] reports@[k]).outcome == ProbeOutcome::Downloaded
                        ==> count_in(histogram, reports@[k].delta) + reports@.len() <= i32::MAX,
            decreases reports.len() - i,
        {
            let report = reports[i];
            match report.outcome {
                ProbeOutcome::Downloaded => {
                    if !self.expects(report.candidate_t, report.delta) {
                        assert(matters(reports@[i as int]));
                        return false;
                    }
                    let count = state.count_of(self.media_type, report.delta);
                    if count as i128 + reports.len() as i128 > i32::MAX as i128 {
                        return false;
                    }
                },
                ProbeOutcome::PtsTooEarly => {
                    if !self.expects(report.candidate_t, report.delta) {
                        assert(matters(reports@[i as int]));
                        return false;
                    }
                },
                ProbeOutcome::NotFound => {},
                ProbeOutcome::Failed => {},
            }
            i += 1;
        }
        proof {
            lemma_roomy_is_countable(histogram, reports@);
        }
        true
    }

    /// Reads the reports of a round of probes, one after the other. A
    /// success moves the search to its timestamp, counts its delta in the
    /// histogram that `state` holds for the loop's media kind, ends a run of
    /// gaps and lets the timestamps turned down for their decoded time be
    /// proposed again. A segment whose decoded time is too early raises the
    /// lower bound to its timestamp and is noted. Other reports change
    /// nothing. Afterwards no candidate is out for probing.
    pub fn absorb(&mut self, state: &mut State, reports: &Vec<ProbeReport>)
        requires
            well_formed(old(self)@),
            old(state).wf(),
            old(state).deltas().contains_key(old(self)@.media_type),
            answers(old(self)@, reports@),
            countable(old(state).deltas()[old(self)@.media_type], reports@),
        ensures
            well_formed(final(self)@),
            final(state).wf(),
            final(self)@ == (DiscoveryView {
                pending: Seq::empty(),
                ..after_reports(old(self)@, reports@)
            }),
            (Session {
                view: final(self)@,
                histogram: final(state).deltas()[old(self)@.media_type],
            }) == after_step(
                (Session {
                    view: old(self)@,
                    histogram: old(state).deltas()[old(self)@.media_type],
                }),
                Step::Read(reports@),
            ),
            forall|m: MediaType|
                m != old(self)@.media_type ==> (final(state).deltas().contains_key(m) == old(
                    state,
                ).deltas().contains_key(m) && #[trigger] final(state).deltas()[m] == old(
                    state,
                ).deltas()[m]),
            final(state).deltas() == old(state).deltas().insert(
                old(self)@.media_type,
                learned(old(state).deltas()[old(self)@.media_type], reports@),
            ),
            final(state).downloaded_init() == old(state).downloaded_init(),
            final(state).downloaded_segs() == old(state).downloaded_segs(),
            final(state).back_pts() == old(state).back_pts(),
            final(self)@.media_type == old(self)@.media_type,
            final(self)@.start_frame == old(self)@.start_frame,
            final(self)@.parallel_candidates == old(self)@.parallel_candidates,
            final(self)@.submitted == old(self)@.submitted,
            final(self)@.latest_t <= old(self)@.latest_t,
            (exists|i: int| 0 <= i < reports@.len() && (#[trigger] reports@[i]).outcome
                == ProbeOutcome::Downloaded) ==> final(self)@.latest_t < old(self)@.latest_t,
            forall|i: int|
                0 <= i < reports@.len() && (#[trigger] reports@[i]).outcome
                    == ProbeOutcome::Downloaded ==> final(state).delta_count(
                    old(self)@.media_type,
                    reports@[i].delta,
                ) > old(state).delta_count(old(self)@.media_type, reports@[i].delta),
    {
        let ghost before = self@;
        let ghost kind = self.media_type;
        let ghost histogram = state.deltas()[kind];
        let mut i: usize = 0;
        proof {
            assert(reports@.take(0) =~= Seq::<ProbeReport>::empty());
            assert(state.deltas() =~= old(state).deltas().insert(kind, histogram));
        }
        while i < reports.len()
            invariant
                i <= reports.len(),
                kind == before.media_type,
                kind == self.media_type,
                before == old(self)@,
                old(state).deltas().contains_key(kind),
                histogram == old(state).deltas()[kind],
                well_formed(before),
                answers(before, reports@),
                countable(histogram, reports@),
                self@ == after_reports(before, reports@.take(i as int)),
                self@.pending == before.pending,
                self@.start_frame == before.start_frame,
                self@.parallel_candidates == before.parallel_candidates,
                self@.submitted == before.submitted,
                self@.latest_t <= before.latest_t,
                0 <= self@.lower_bound,
                self@.skipped_segments <= SKIP_CEILING + 1,
                forall|t: isize| self@.pts_too_early.contains(t) ==> self@.rejected.contains(t),
                forall|t: isize|
                    self@.submitted.contains(t) && !self@.visited.contains(t)
                        ==> self@.rejected.contains(t),
                state.wf(),
                state.deltas() == old(state).deltas().insert(
                    kind,
                    learned(histogram, reports@.take(i as int)),
                ),
                state.downloaded_init() == old(state).downloaded_init(),
                state.downloaded_segs() == old(state).downloaded_segs(),
                state.back_pts() == old(state).back_pts(),
            decreases reports.len() - i,
        {
            let report = reports[i];
            proof {
                assert(reports@.take(i + 1).drop_last() =~= reports@.take(i as int));
                assert(reports@.take(i + 1).last() == report);
            }
            match report.outcome {
                ProbeOutcome::Downloaded => {
                    proof {
                        assert(matters(reports@[i as int]));
                        let pair = (report.candidate_t, report.delta);
                        let at = choose|at: int|
                            0 <= at < before.pending.len() && before.pending[at] == pair;
                        assert(before.pending[at].0 < before.latest_t);
                        let seen = reports@.take(i as int);
                        assert forall|delta: isize| count_in(histogram, delta) + successes(
                            seen,
                            delta,
                        ) <= i32::MAX by {
                            lemma_successes_grow(reports@, i as int, delta);
                        }
                        lemma_learned_counts(histogram, seen);
                        lemma_successes_grow(reports@, i + 1, report.delta);
                        assert(count_in(learned(histogram, seen), report.delta) == count_in(
                            histogram,
                            report.delta,
                        ) + successes(seen, report.delta));
                    }
                    self.prev_delta = report.delta;
                    self.latest_t = report.candidate_t;
                    state.record_delta(self.media_type, report.delta);
                    self.skipped_segments = 0;
                    reinstate(&mut self.visited, &mut self.pts_too_early);
                    proof {
                        assert(state.deltas() =~= old(state).deltas().insert(
                            kind,
                            learned(histogram, reports@.take(i + 1)),
                        ));
                    }
                },
                ProbeOutcome::PtsTooEarly => {
                    broadcast use vstd::std_specs::btree::group_btree_axioms;

                    if report.candidate_t > self.lower_bound {
                        self.lower_bound = report.candidate_t;
                    }
                    self.pts_too_early.insert(report.candidate_t);
                    proof {
                        self.rejected@ = self.rejected@.insert(report.candidate_t);
                    }
                },
                ProbeOutcome::NotFound => {},
                ProbeOutcome::Failed => {},
            }
            i += 1;
        }
        self.pending = Vec::new();
        proof {
            assert(reports@.take(i as int) =~= reports@);
            assert(self@.pending =~= Seq::<(isize, isize)>::empty());
            lemma_reports_descend(before, reports@);
            lemma_learned_counts(histogram, reports@);
        }
    }
}

} // verus!
