//! The order in which observed deltas are tried: the most frequent first,
//! and of two equally frequent ones the smaller first.

use crate::state::is_snapshot;
use vstd::prelude::*;
use vstd::relations::{sorted_by, total_ordering};
use vstd::seq_lib::{lemma_multiset_commutative, lemma_sorted_unique};

verus! {

/// Whether histogram entry `a` is tried no later than entry `b`. An entry is
/// a delta with its count.
pub open spec fn ranks_no_later(a: (isize, i32), b: (isize, i32)) -> bool {
    a.1 > b.1 || (a.1 == b.1 && a.0 <= b.0)
}

/// [`ranks_no_later`] as a relation.
pub open spec fn ranking_order() -> spec_fn((isize, i32), (isize, i32)) -> bool {
    |a: (isize, i32), b: (isize, i32)| ranks_no_later(a, b)
}

/// Whether `order` holds the entries of `list`, each as often as `list`
/// does, with no entry in front of one that ranks before it.
pub open spec fn is_ranking(order: Seq<(isize, i32)>, list: Seq<(isize, i32)>) -> bool {
    &&& sorted_by(order, ranking_order())
    &&& order.to_multiset() == list.to_multiset()
}

/// The entries of `list` ranked.
pub open spec fn ranked(list: Seq<(isize, i32)>) -> Seq<(isize, i32)> {
    list.sort_by(ranking_order())
}

/// The ranking relation is a total order on entries.
pub proof fn lemma_ranking_order_total()
    ensures
        total_ordering(ranking_order()),
{
    let r = ranking_order();
    assert forall|x: (isize, i32), y: (isize, i32)| #[trigger] r(x, y) && #[trigger] r(y, x) implies x
        == y by {}
}

/// `ranked(list)` is a ranking of `list`.
pub proof fn lemma_ranked_is_ranking(list: Seq<(isize, i32)>)
    ensures
        is_ranking(ranked(list), list),
        ranked(list).len() == list.len(),
{
    lemma_ranking_order_total();
    list.lemma_sort_by_ensures(ranking_order());
    ranked(list).to_multiset_ensures();
    list.to_multiset_ensures();
}

/// A list has one ranking only.
pub proof fn lemma_ranking_unique(order: Seq<(isize, i32)>, list: Seq<(isize, i32)>)
    requires
        is_ranking(order, list),
    ensures
        order == ranked(list),
{
    lemma_ranking_order_total();
    lemma_ranked_is_ranking(list);
    lemma_sorted_unique(order, ranked(list), ranking_order());
}

/// The ranking of a histogram does not depend on the order in which its
/// entries were listed.
pub proof fn lemma_ranked_of_snapshots(
    first: Seq<(isize, i32)>,
    second: Seq<(isize, i32)>,
    histogram: Map<isize, i32>,
)
    requires
        is_snapshot(first, histogram),
        is_snapshot(second, histogram),
    ensures
        ranked(first) == ranked(second),
{
    broadcast use vstd::multiset::group_multiset_axioms;

    first.lemma_multiset_has_no_duplicates();
    second.lemma_multiset_has_no_duplicates();
    first.to_multiset_ensures();
    second.to_multiset_ensures();
    assert forall|e: (isize, i32)| first.to_multiset().count(e) == second.to_multiset().count(
        e,
    ) by {
        assert(first.contains(e) == first.to_set().contains(e));
        assert(second.contains(e) == second.to_set().contains(e));
    }
    assert(first.to_multiset() =~= second.to_multiset());
    lemma_ranked_is_ranking(first);
    lemma_ranked_is_ranking(second);
    lemma_ranking_unique(ranked(first), second);
}

/// Whether entry `a` is tried no later than entry `b`.
fn no_later(a: (isize, i32), b: (isize, i32)) -> (r: bool)
    ensures
        r == ranks_no_later(a, b),
{
    a.1 > b.1 || (a.1 == b.1 && a.0 <= b.0)
}

/// Ranks the entries of `list`.
pub fn rank_deltas(list: &Vec<(isize, i32)>) -> (order: Vec<(isize, i32)>)
    ensures
        order@ == ranked(list@),
        is_ranking(order@, list@),
        order@.len() == list@.len(),
{
    let mut order: Vec<(isize, i32)> = Vec::new();
    let mut i: usize = 0;
    assert(list@.take(0) =~= Seq::<(isize, i32)>::empty());
    while i < list.len()
        invariant
            i <= list.len(),
            is_ranking(order@, list@.take(i as int)),
            order@.len() == i,
        decreases list.len() - i,
    {
        let entry = list[i];
        let mut at: usize = order.len();
        while at > 0 && !no_later(order[at - 1], entry)
            invariant
                at <= order.len(),
                sorted_by(order@, ranking_order()),
                forall|k: int| at <= k < order.len() ==> ranks_no_later(entry, #[trigger] order[k]),
            decreases at,
        {
            at -= 1;
        }
        let ghost before = order@;
        order.insert(at, entry);
        proof {
            lemma_ranking_order_total();
            let r = ranking_order();
            assert forall|a: int, b: int| 0 <= a < b < order@.len() implies #[trigger] r(
                order@[a],
                order@[b],
            ) by {
                if b == at {
                    assert(r(before[a], before[at - 1]) || a == at - 1);
                    assert(r(before[at - 1], entry));
                } else if a == at {
                    assert(ranks_no_later(entry, before[b - 1]));
                } else {
                    let a0 = if a < at { a } else { a - 1 };
                    let b0 = if b < at { b } else { b - 1 };
                    assert(r(before[a0], before[b0]));
                }
            }
            let head = before.take(at as int);
            let tail = before.skip(at as int);
            assert(before =~= head + tail);
            assert(order@ =~= head.push(entry) + tail);
            lemma_multiset_commutative(head, tail);
            lemma_multiset_commutative(head.push(entry), tail);
            vstd::seq_lib::to_multiset_build(head, entry);
            assert(order@.to_multiset() =~= before.to_multiset().insert(entry));
            assert(list@.take(i + 1) =~= list@.take(i as int).push(entry));
            vstd::seq_lib::to_multiset_build(list@.take(i as int), entry);
        }
        i += 1;
    }
    proof {
        assert(list@.take(i as int) =~= list@);
        lemma_ranking_unique(order@, list@);
    }
    order
}

} // verus!
