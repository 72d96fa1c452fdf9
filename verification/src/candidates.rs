//! Which timestamps to probe next.
//!
//! The segment before the newest known one lies, most likely, one frequently
//! seen delta below it. The generator walks the ranked deltas, first exactly,
//! then with a growing jitter, and keeps the first untried timestamps that
//! lie strictly between the lower bound and the newest known timestamp.

use crate::media::MediaType;
use crate::ranking::{is_ranking, lemma_ranked_is_ranking, lemma_ranked_of_snapshots, rank_deltas, ranked};
use crate::state::{is_snapshot, State};
use std::collections::BTreeSet;
use vstd::prelude::*;

verus! {

/// The largest jitter that is added to or taken from a delta.
pub const SEARCH_RANGE: isize = 1000;

/// The timestamps that one round tries, in order: for each entry of `order`
/// the timestamp `delta + offset` below `latest_t`, then the one
/// `delta - offset` below it.
pub open spec fn round_trials(latest_t: isize, order: Seq<(isize, i32)>, offset: int) -> Seq<int> {
    Seq::new(
        2 * order.len(),
        |i: int|
            if i % 2 == 0 {
                latest_t - (order[i / 2].0 + offset)
            } else {
                latest_t - (order[i / 2].0 - offset)
            },
    )
}

/// The trials of the rounds with offsets from `from` up to, not including,
/// `to`, one round after the other.
pub open spec fn trials(latest_t: isize, order: Seq<(isize, i32)>, from: int, to: int) -> Seq<int>
    decreases to - from,
{
    if to <= from {
        Seq::empty()
    } else {
        trials(latest_t, order, from, to - 1) + round_trials(latest_t, order, to - 1)
    }
}

/// Whether `t` may be probed: it lies strictly between the bounds, is not
/// negative and was not proposed before.
pub open spec fn admissible(t: int, latest_t: isize, lower_bound: isize, visited: Set<isize>) -> bool {
    lower_bound < t < latest_t && 0 <= t && !visited.contains(t as isize)
}

/// The picks after one more trial `t`: `t` joins them if there is room left,
/// it is admissible and it was not picked already.
pub open spec fn step(
    picks: Seq<isize>,
    t: int,
    latest_t: isize,
    lower_bound: isize,
    visited: Set<isize>,
    limit: nat,
) -> Seq<isize> {
    if picks.len() < limit && admissible(t, latest_t, lower_bound, visited) && !picks.contains(
        t as isize,
    ) {
        picks.push(t as isize)
    } else {
        picks
    }
}

/// The first admissible timestamps among `tried`, each once, `limit` of
/// them at most.
pub open spec fn picked(
    tried: Seq<int>,
    latest_t: isize,
    lower_bound: isize,
    visited: Set<isize>,
    limit: nat,
) -> Seq<isize>
    decreases tried.len(),
{
    if tried.len() == 0 {
        Seq::empty()
    } else {
        step(
            picked(tried.drop_last(), latest_t, lower_bound, visited, limit),
            tried.last(),
            latest_t,
            lower_bound,
            visited,
            limit,
        )
    }
}

/// The timestamps of the next batch, for deltas tried in the order `order`.
pub open spec fn batch(
    order: Seq<(isize, i32)>,
    latest_t: isize,
    lower_bound: isize,
    visited: Set<isize>,
    limit: nat,
) -> Seq<isize> {
    picked(
        trials(latest_t, order, 0, SEARCH_RANGE + 1),
        latest_t,
        lower_bound,
        visited,
        limit,
    )
}

/// Each timestamp with its distance below `latest_t`.
pub open spec fn paired(picks: Seq<isize>, latest_t: isize) -> Seq<(isize, isize)> {
    Seq::new(picks.len(), |i: int| (picks[i], (latest_t - picks[i]) as isize))
}

/// The ranking of `histogram`, whatever order its entries are listed in.
pub open spec fn ranking_of(histogram: Map<isize, i32>) -> Seq<(isize, i32)> {
    ranked(choose|list: Seq<(isize, i32)>| is_snapshot(list, histogram))
}

/// However the entries of `histogram` are listed, ranking the list gives
/// [`ranking_of`].
pub proof fn lemma_ranking_of_snapshot(list: Seq<(isize, i32)>, histogram: Map<isize, i32>)
    requires
        is_snapshot(list, histogram),
    ensures
        ranking_of(histogram) == ranked(list),
        is_ranking(ranking_of(histogram), list),
{
    let chosen = choose|other: Seq<(isize, i32)>| is_snapshot(other, histogram);
    lemma_ranked_of_snapshots(list, chosen, histogram);
    lemma_ranked_is_ranking(list);
}

/// What a run of the generator on `histogram` leaves behind: the batch
/// `candidates`, and `visited_after` as the proposed timestamps.
pub open spec fn generated(
    histogram: Map<isize, i32>,
    latest_t: isize,
    lower_bound: isize,
    visited: Set<isize>,
    limit: nat,
    candidates: Seq<(isize, isize)>,
    visited_after: Set<isize>,
) -> bool {
    &&& candidates == paired(
        batch(ranking_of(histogram), latest_t, lower_bound, visited, limit),
        latest_t,
    )
    &&& visited_after == visited.union(
        batch(ranking_of(histogram), latest_t, lower_bound, visited, limit).to_set(),
    )
}

/// Two runs of the generator on the same histogram, position, bounds and
/// proposed timestamps leave the same batch and the same proposed
/// timestamps.
pub proof fn lemma_generator_is_deterministic(
    histogram: Map<isize, i32>,
    latest_t: isize,
    lower_bound: isize,
    visited: Set<isize>,
    limit: nat,
    first: Seq<(isize, isize)>,
    first_visited: Set<isize>,
    second: Seq<(isize, isize)>,
    second_visited: Set<isize>,
)
    requires
        generated(histogram, latest_t, lower_bound, visited, limit, first, first_visited),
        generated(histogram, latest_t, lower_bound, visited, limit, second, second_visited),
    ensures
        first == second,
        first_visited == second_visited,
{
}

/// Rounds can be tried in two runs.
pub proof fn lemma_trials_split(
    latest_t: isize,
    order: Seq<(isize, i32)>,
    from: int,
    mid: int,
    to: int,
)
    requires
        from <= mid <= to,
    ensures
        trials(latest_t, order, from, to) == trials(latest_t, order, from, mid) + trials(
            latest_t,
            order,
            mid,
            to,
        ),
    decreases to - mid,
{
    if mid < to {
        lemma_trials_split(latest_t, order, from, mid, to - 1);
        assert(trials(latest_t, order, from, to) =~= trials(latest_t, order, from, mid) + trials(
            latest_t,
            order,
            mid,
            to,
        ));
    } else {
        assert(trials(latest_t, order, from, to) =~= trials(latest_t, order, from, mid) + trials(
            latest_t,
            order,
            mid,
            to,
        ));
    }
}

/// Once the picks have reached the limit, further trials add nothing.
pub proof fn lemma_picked_full(
    tried: Seq<int>,
    more: Seq<int>,
    latest_t: isize,
    lower_bound: isize,
    visited: Set<isize>,
    limit: nat,
)
    requires
        picked(tried, latest_t, lower_bound, visited, limit).len() >= limit,
    ensures
        picked(tried + more, latest_t, lower_bound, visited, limit) == picked(
            tried,
            latest_t,
            lower_bound,
            visited,
            limit,
        ),
    decreases more.len(),
{
    if more.len() == 0 {
        assert(tried + more =~= tried);
    } else {
        lemma_picked_full(tried, more.drop_last(), latest_t, lower_bound, visited, limit);
        assert((tried + more).drop_last() =~= tried + more.drop_last());
    }
}

/// Every timestamp of a batch lies strictly between the lower bound and the
/// newest known timestamp, is not negative and was not proposed before; none
/// occurs twice; and the batch is no longer than the limit.
pub proof fn lemma_picked_valid(
    tried: Seq<int>,
    latest_t: isize,
    lower_bound: isize,
    visited: Set<isize>,
    limit: nat,
)
    ensures
        ({
            let picks = picked(tried, latest_t, lower_bound, visited, limit);
            &&& picks.len() <= limit
            &&& picks.len() <= tried.len()
            &&& picks.no_duplicates()
            &&& forall|i: int|
                0 <= i < picks.len() ==> lower_bound < #[trigger] picks[i] < latest_t && 0
                    <= picks[i] && !visited.contains(picks[i])
        }),
    decreases tried.len(),
{
    if tried.len() > 0 {
        lemma_picked_valid(tried.drop_last(), latest_t, lower_bound, visited, limit);
        let earlier = picked(tried.drop_last(), latest_t, lower_bound, visited, limit);
        let picks = picked(tried, latest_t, lower_bound, visited, limit);
        if picks != earlier {
            assert(picks == earlier.push(tried.last() as isize));
            assert forall|i: int| 0 <= i < picks.len() implies lower_bound < #[trigger] picks[i]
                < latest_t && 0 <= picks[i] && !visited.contains(picks[i]) by {
                if i < earlier.len() {
                    assert(picks[i] == earlier[i]);
                }
            }
        }
    }
}

/// Candidate validity for a whole batch.
pub proof fn lemma_batch_valid(
    order: Seq<(isize, i32)>,
    latest_t: isize,
    lower_bound: isize,
    visited: Set<isize>,
    limit: nat,
)
    ensures
        ({
            let picks = batch(order, latest_t, lower_bound, visited, limit);
            &&& picks.len() <= limit
            &&& picks.no_duplicates()
            &&& forall|i: int|
                0 <= i < picks.len() ==> lower_bound < #[trigger] picks[i] < latest_t && 0
                    <= picks[i] && !visited.contains(picks[i])
        }),
{
    lemma_picked_valid(
        trials(latest_t, order, 0, SEARCH_RANGE + 1),
        latest_t,
        lower_bound,
        visited,
        limit,
    );
}

/// Without trials there are no picks.
pub proof fn lemma_trials_of_nothing(latest_t: isize, from: int, to: int)
    ensures
        trials(latest_t, Seq::<(isize, i32)>::empty(), from, to) == Seq::<int>::empty(),
    decreases to - from,
{
    if from < to {
        lemma_trials_of_nothing(latest_t, from, to - 1);
        assert(round_trials(latest_t, Seq::<(isize, i32)>::empty(), to - 1) =~= Seq::<int>::empty());
        assert(trials(latest_t, Seq::<(isize, i32)>::empty(), from, to) =~= Seq::<int>::empty());
    }
}

/// A histogram without entries gives an empty batch.
pub proof fn lemma_batch_without_deltas(
    latest_t: isize,
    lower_bound: isize,
    visited: Set<isize>,
    limit: nat,
)
    ensures
        batch(Seq::<(isize, i32)>::empty(), latest_t, lower_bound, visited, limit) == Seq::<
            isize,
        >::empty(),
{
    lemma_trials_of_nothing(latest_t, 0, SEARCH_RANGE + 1);
}

/// Where no timestamp fits between the bounds, or the limit is 0, the batch
/// is empty.
pub proof fn lemma_batch_without_room(
    order: Seq<(isize, i32)>,
    latest_t: isize,
    lower_bound: isize,
    visited: Set<isize>,
    limit: nat,
)
    requires
        lower_bound >= latest_t - 1 || limit == 0,
    ensures
        batch(order, latest_t, lower_bound, visited, limit) == Seq::<isize>::empty(),
{
    lemma_batch_valid(order, latest_t, lower_bound, visited, limit);
    let picks = batch(order, latest_t, lower_bound, visited, limit);
    if picks.len() > 0 {
        assert(lower_bound < picks[0] < latest_t);
    }
    assert(picks =~= Seq::<isize>::empty());
}

/// Takes one trial into account: where it is admissible and new, it joins
/// the batch and the proposed timestamps. Tells whether the batch is full.
fn consider(
    trial: i128,
    latest_t: isize,
    lower_bound: isize,
    limit: usize,
    visited: &mut BTreeSet<isize>,
    candidates: &mut Vec<(isize, isize)>,
    Ghost(known): Ghost<Set<isize>>,
    Ghost(picks): Ghost<Seq<isize>>,
) -> (full: bool)
    requires
        picks.len() < limit,
        old(candidates)@ == paired(picks, latest_t),
        old(visited)@ == known.union(picks.to_set()),
    ensures
        final(candidates)@ == paired(
            step(picks, trial as int, latest_t, lower_bound, known, limit as nat),
            latest_t,
        ),
        final(visited)@ == known.union(
            step(picks, trial as int, latest_t, lower_bound, known, limit as nat).to_set(),
        ),
        full == (step(picks, trial as int, latest_t, lower_bound, known, limit as nat).len()
            >= limit),
{
    broadcast use vstd::std_specs::btree::group_btree_axioms;

    if (lower_bound as i128) < trial && trial < latest_t as i128 && trial >= 0 {
        let t = trial as isize;
        if !visited.contains(&t) {
            candidates.push((t, latest_t - t));
            visited.insert(t);
            proof {
                let next = picks.push(t);
                assert(!picks.contains(t));
                assert(next == step(picks, trial as int, latest_t, lower_bound, known, limit as nat));
                assert(candidates@ =~= paired(next, latest_t));
                assert forall|x: isize| next.contains(x) <==> picks.contains(x) || x == t by {
                    if picks.contains(x) {
                        let i = choose|i: int| 0 <= i < picks.len() && picks[i] == x;
                        assert(next[i] == x);
                    }
                    if x == t {
                        assert(next[picks.len() as int] == t);
                    }
                }
                assert(visited@ =~= known.union(next.to_set()));
            }
            return candidates.len() >= limit;
        }
    }
    false
}

/// The next batch for deltas tried in the order of `order`: at most
/// `parallel_candidates` pairs of a timestamp and its distance below
/// `latest_t`. Every timestamp of the batch joins `visited`.
pub fn select_candidates(
    order: &Vec<(isize, i32)>,
    latest_t: isize,
    visited: &mut BTreeSet<isize>,
    lower_bound: isize,
    parallel_candidates: usize,
) -> (candidates: Vec<(isize, isize)>)
    ensures
        candidates@ == paired(
            batch(order@, latest_t, lower_bound, old(visited)@, parallel_candidates as nat),
            latest_t,
        ),
        final(visited)@ == old(visited)@.union(
            batch(order@, latest_t, lower_bound, old(visited)@, parallel_candidates as nat).to_set(),
        ),
        candidates@.len() <= parallel_candidates,
        forall|i: int|
            0 <= i < candidates@.len() ==> {
                &&& lower_bound < (#[trigger] candidates@[i]).0 < latest_t
            &&& 0 <= candidates@[i].0
                &&& 0 <= candidates@[i].0
                &&& candidates@[i].1 == latest_t - candidates@[i].0
                &&& !old(visited)@.contains(candidates@[i].0)
                &&& final(visited)@.contains(candidates@[i].0)
            },
{
    let candidates = gather(order, latest_t, visited, lower_bound, parallel_candidates);
    proof {
        let picks = batch(order@, latest_t, lower_bound, old(visited)@, parallel_candidates as nat);
        lemma_batch_valid(order@, latest_t, lower_bound, old(visited)@, parallel_candidates as nat);
        assert forall|i: int| 0 <= i < candidates@.len() implies {
            &&& lower_bound < (#[trigger] candidates@[i]).0 < latest_t
            &&& 0 <= candidates@[i].0
            &&& candidates@[i].1 == latest_t - candidates@[i].0
            &&& !old(visited)@.contains(candidates@[i].0)
            &&& visited@.contains(candidates@[i].0)
        } by {
            assert(candidates@[i].0 == picks[i]);
            assert(picks.to_set().contains(picks[i]));
        }
    }
    candidates
}

/// Walks the rounds and collects the batch.
fn gather(
    order: &Vec<(isize, i32)>,
    latest_t: isize,
    visited: &mut BTreeSet<isize>,
    lower_bound: isize,
    parallel_candidates: usize,
) -> (candidates: Vec<(isize, isize)>)
    ensures
        candidates@ == paired(
            batch(order@, latest_t, lower_bound, old(visited)@, parallel_candidates as nat),
            latest_t,
        ),
        final(visited)@ == old(visited)@.union(
            batch(order@, latest_t, lower_bound, old(visited)@, parallel_candidates as nat).to_set(),
        ),
{
    let ghost known = visited@;
    let ghost limit = parallel_candidates as nat;
    let mut candidates: Vec<(isize, isize)> = Vec::new();
    if parallel_candidates == 0 {
        proof {
            lemma_batch_without_room(order@, latest_t, lower_bound, known, limit);
            assert(candidates@ =~= paired(Seq::<isize>::empty(), latest_t));
            assert(visited@ =~= known.union(Seq::<isize>::empty().to_set()));
        }
        return candidates;
    }
    let ghost mut picks: Seq<isize> = Seq::empty();
    let ghost mut done: Seq<int> = Seq::empty();
    let mut offset: isize = 0;
    proof {
        assert(candidates@ =~= paired(picks, latest_t));
        assert(visited@ =~= known.union(picks.to_set()));
    }
    while offset <= SEARCH_RANGE
        invariant
            0 <= offset <= SEARCH_RANGE + 1,
            limit == parallel_candidates,
            known == old(visited)@,
            done == trials(latest_t, order@, 0, offset as int),
            picks == picked(done, latest_t, lower_bound, known, limit),
            picks.len() < limit,
            candidates@ == paired(picks, latest_t),
            visited@ == known.union(picks.to_set()),
        ensures
            offset == SEARCH_RANGE + 1,
            done == trials(latest_t, order@, 0, offset as int),
            picks == picked(done, latest_t, lower_bound, known, limit),
            candidates@ == paired(picks, latest_t),
            visited@ == known.union(picks.to_set()),
        decreases SEARCH_RANGE + 1 - offset,
    {
        let ghost round = round_trials(latest_t, order@, offset as int);
        let ghost before = done;
        let mut i: usize = 0;
        proof {
            assert(before + round.take(0) =~= before);
        }
        while i < order.len()
            invariant
                    0 <= offset <= SEARCH_RANGE,
                limit == parallel_candidates,
                known == old(visited)@,
                i <= order.len(),
                round == round_trials(latest_t, order@, offset as int),
                before == trials(latest_t, order@, 0, offset as int),
                done == before + round.take(2 * i),
                picks == picked(done, latest_t, lower_bound, known, limit),
                picks.len() < limit,
                candidates@ == paired(picks, latest_t),
                visited@ == known.union(picks.to_set()),
            decreases order.len() - i,
        {
            let delta = order[i].0;
            let below = latest_t as i128 - (delta as i128 + offset as i128);
            let above = latest_t as i128 - (delta as i128 - offset as i128);

            let ghost first = done.push(below as int);
            proof {
                assert(round[2 * i] == below);
                assert(first =~= before + round.take(2 * i + 1));
                assert(first.drop_last() =~= done);
            }
            let full = consider(
                below,
                latest_t,
                lower_bound,
                parallel_candidates,
                visited,
                &mut candidates,
                Ghost(known),
                Ghost(picks),
            );
            proof {
                picks = picked(first, latest_t, lower_bound, known, limit);
                done = first;
            }
            if full {
                proof {
                    lemma_saturated(latest_t, order@, offset as int, 2 * i + 1, lower_bound, known, limit);
                }
                return candidates;
            }
            let ghost second = done.push(above as int);
            proof {
                assert(round[2 * i + 1] == above);
                assert(second =~= before + round.take(2 * i + 2));
                assert(second.drop_last() =~= done);
            }
            let full = consider(
                above,
                latest_t,
                lower_bound,
                parallel_candidates,
                visited,
                &mut candidates,
                Ghost(known),
                Ghost(picks),
            );
            proof {
                picks = picked(second, latest_t, lower_bound, known, limit);
                done = second;
            }
            if full {
                proof {
                    lemma_saturated(latest_t, order@, offset as int, 2 * i + 2, lower_bound, known, limit);
                }
                return candidates;
            }
            i += 1;
        }
        proof {
            assert(round.take(2 * i) =~= round);
        }
        offset += 1;
    }
    candidates
}

/// The picks that are full after `count` trials of the round with offset
/// `offset` are the whole batch.
proof fn lemma_saturated(
    latest_t: isize,
    order: Seq<(isize, i32)>,
    offset: int,
    count: int,
    lower_bound: isize,
    visited: Set<isize>,
    limit: nat,
)
    requires
        0 <= offset <= SEARCH_RANGE,
        0 <= count <= 2 * order.len(),
        picked(
            trials(latest_t, order, 0, offset) + round_trials(latest_t, order, offset).take(
                count,
            ),
            latest_t,
            lower_bound,
            visited,
            limit,
        ).len() >= limit,
    ensures
        batch(order, latest_t, lower_bound, visited, limit) == picked(
            trials(latest_t, order, 0, offset) + round_trials(latest_t, order, offset).take(
                count,
            ),
            latest_t,
            lower_bound,
            visited,
            limit,
        ),
{
    let before = trials(latest_t, order, 0, offset);
    let round = round_trials(latest_t, order, offset);
    let after = trials(latest_t, order, offset + 1, SEARCH_RANGE + 1);
    lemma_trials_split(latest_t, order, 0, offset + 1, SEARCH_RANGE + 1);
    assert(trials(latest_t, order, 0, offset + 1) == before + round);
    assert(trials(latest_t, order, 0, SEARCH_RANGE + 1) =~= (before + round.take(count)) + (
    round.skip(count) + after));
    lemma_picked_full(
        before + round.take(count),
        round.skip(count) + after,
        latest_t,
        lower_bound,
        visited,
        limit,
    );
}

/// The next batch for `media_type`: its histogram is ranked, and the ranked
/// deltas give the candidates as in [`select_candidates`].
pub fn find_next_candidates(
    state: &State,
    media_type: MediaType,
    latest_t: isize,
    visited: &mut BTreeSet<isize>,
    lower_bound: isize,
    parallel_candidates: usize,
) -> (candidates: Vec<(isize, isize)>)
    requires
        state.deltas().contains_key(media_type),
    ensures
        generated(
            state.deltas()[media_type],
            latest_t,
            lower_bound,
            old(visited)@,
            parallel_candidates as nat,
            candidates@,
            final(visited)@,
        ),
        candidates@.len() <= parallel_candidates,
        forall|i: int|
            0 <= i < candidates@.len() ==> {
                &&& lower_bound < (#[trigger] candidates@[i]).0 < latest_t
            &&& 0 <= candidates@[i].0
                &&& 0 <= candidates@[i].0
                &&& candidates@[i].1 == latest_t - candidates@[i].0
                &&& !old(visited)@.contains(candidates@[i].0)
                &&& final(visited)@.contains(candidates@[i].0)
            },
{
    let deltas = state.deltas_snapshot(media_type);
    let order = rank_deltas(&deltas);
    proof {
        lemma_ranking_of_snapshot(deltas@, state.deltas()[media_type]);
    }
    select_candidates(&order, latest_t, visited, lower_bound, parallel_candidates)
}

} // verus!
