use download_iglive::candidates::{find_next_candidates, select_candidates, SEARCH_RANGE};
use download_iglive::media::MediaType;
use download_iglive::ranking::rank_deltas;
use download_iglive::state::State;
use std::collections::BTreeSet;

#[test]
fn search_range_is_one_thousand() {
    assert_eq!(SEARCH_RANGE, 1000);
}

#[test]
fn ranking_puts_frequent_deltas_first() {
    let list = vec![(1000, 3), (2000, 100), (1500, 3), (500, 7)];
    assert_eq!(rank_deltas(&list), vec![(2000, 100), (500, 7), (1000, 3), (1500, 3)]);
}

#[test]
fn ranking_breaks_ties_by_smaller_delta() {
    let list = vec![(9, 1), (3, 1), (7, 1), (-2, 1), (5, 1)];
    assert_eq!(rank_deltas(&list), vec![(-2, 1), (3, 1), (5, 1), (7, 1), (9, 1)]);
}

#[test]
fn ranking_does_not_depend_on_listing_order() {
    let first = vec![(10, 2), (20, 5), (30, 2), (40, 9), (50, 5)];
    let second = vec![(50, 5), (40, 9), (30, 2), (20, 5), (10, 2)];
    assert_eq!(rank_deltas(&first), rank_deltas(&second));
    assert_eq!(rank_deltas(&first), vec![(40, 9), (20, 5), (50, 5), (10, 2), (30, 2)]);
}

#[test]
fn ranking_of_nothing_is_empty() {
    assert_eq!(rank_deltas(&Vec::new()), Vec::new());
}

#[test]
fn ranking_keeps_repeated_entries() {
    let list = vec![(5, 1), (5, 1), (4, 2)];
    assert_eq!(rank_deltas(&list), vec![(4, 2), (5, 1), (5, 1)]);
}

#[test]
fn exact_delta_comes_before_jitter() {
    let order = vec![(2000, 5)];
    let mut visited = BTreeSet::new();
    let batch = select_candidates(&order, 10_000, &mut visited, 0, 3);
    assert_eq!(batch, vec![(8000, 2000), (7999, 2001), (8001, 1999)]);
    assert!(visited.contains(&8000) && visited.contains(&7999) && visited.contains(&8001));
    assert_eq!(visited.len(), 3);
}

#[test]
fn near_miss_on_common_delta_beats_rare_delta_only_in_later_rounds() {
    // Round 0 tries every delta exactly, whatever its rank; jitter starts in round 1.
    let order = vec![(2000, 100), (500, 1)];
    let mut visited = BTreeSet::new();
    let batch = select_candidates(&order, 10_000, &mut visited, 0, 4);
    assert_eq!(batch, vec![(8000, 2000), (9500, 500), (7999, 2001), (8001, 1999)]);
}

#[test]
fn each_candidate_carries_its_distance() {
    let order = vec![(300, 2), (700, 1)];
    let mut visited = BTreeSet::new();
    let batch = select_candidates(&order, 5_000, &mut visited, 0, 50);
    assert_eq!(batch.len(), 50);
    for (t, delta) in batch {
        assert_eq!(delta, 5_000 - t);
    }
}

#[test]
fn empty_deltas_give_empty_batch() {
    let mut visited = BTreeSet::new();
    let batch = select_candidates(&Vec::new(), 100_000, &mut visited, 0, 10);
    assert!(batch.is_empty());
    assert!(visited.is_empty());
}

#[test]
fn no_room_between_bounds_gives_empty_batch() {
    let order = vec![(1, 5), (2, 5), (2000, 5)];
    let mut visited = BTreeSet::new();
    assert!(select_candidates(&order, 100, &mut visited, 99, 10).is_empty());
    assert!(select_candidates(&order, 100, &mut visited, 100, 10).is_empty());
    assert!(select_candidates(&order, 100, &mut visited, 5_000, 10).is_empty());
    assert!(visited.is_empty());
}

#[test]
fn timestamps_just_above_the_lower_bound_are_found_by_jitter() {
    let order = vec![(2000, 5)];
    let mut visited = BTreeSet::new();
    let batch = select_candidates(&order, 9_100, &mut visited, 8_098, 10);
    // Round 999 reaches 8099 (distance 1001), round 1000 reaches 8100 (distance 1000).
    assert_eq!(batch, vec![(8099, 1001), (8100, 1000)]);
}

#[test]
fn zero_parallel_candidates_give_empty_batch() {
    let order = vec![(2000, 5)];
    let mut visited = BTreeSet::new();
    assert!(select_candidates(&order, 10_000, &mut visited, 0, 0).is_empty());
    assert!(visited.is_empty());
}

#[test]
fn visited_timestamps_are_not_proposed_again() {
    let order = vec![(2000, 5)];
    let mut visited = BTreeSet::new();
    visited.insert(8000);
    visited.insert(8001);
    let batch = select_candidates(&order, 10_000, &mut visited, 0, 2);
    assert_eq!(batch, vec![(7999, 2001), (7998, 2002)]);
    let again = select_candidates(&order, 10_000, &mut visited, 0, 2);
    assert_eq!(again, vec![(8002, 1998), (7997, 2003)]);
}

#[test]
fn jitter_stops_at_the_search_range() {
    let order = vec![(5000, 1)];
    let mut visited = BTreeSet::new();
    let batch = select_candidates(&order, 10_000, &mut visited, 5_990, 20);
    let expected: Vec<(isize, isize)> = (5_991..=6_000).map(|t| (t, 10_000 - t)).collect();
    assert_eq!(batch, expected);
    let below = select_candidates(&order, 10_000, &mut BTreeSet::new(), 0, 5_000);
    assert_eq!(below.len(), 2001);
    assert_eq!(below.iter().map(|c| c.0).min(), Some(4_000));
    assert_eq!(below.iter().map(|c| c.0).max(), Some(6_000));
}

#[test]
fn negative_timestamps_are_never_proposed() {
    let order = vec![(2000, 5), (100, 1)];
    let mut visited = BTreeSet::new();
    let batch = select_candidates(&order, 150, &mut visited, 0, 10_000);
    assert!(!batch.is_empty());
    for (t, _) in &batch {
        assert!(0 < *t && *t < 150);
    }
    assert_eq!(batch.len(), 149);
}

#[test]
fn negative_lower_bound_admits_no_negative_timestamp() {
    let order = vec![(100, 1)];
    let mut visited = BTreeSet::new();
    let batch = select_candidates(&order, 50, &mut visited, -100, 1000);
    let expected: Vec<(isize, isize)> = (0..50).map(|t| (t, 50 - t)).collect();
    assert_eq!(batch, expected);
    assert!(select_candidates(&order, -10, &mut BTreeSet::new(), isize::MIN, 10).is_empty());
    assert!(select_candidates(&order, 0, &mut BTreeSet::new(), -5, 10).is_empty());
}

#[test]
fn generator_is_deterministic_below_a_negative_lower_bound() {
    let state = State::new();
    let mut first_visited = BTreeSet::new();
    let mut second_visited = BTreeSet::new();
    let first = find_next_candidates(&state, MediaType::Unknown, 3_000, &mut first_visited, -7, 40);
    let second =
        find_next_candidates(&state, MediaType::Unknown, 3_000, &mut second_visited, -7, 40);
    assert_eq!(first, second);
    assert_eq!(first_visited, second_visited);
    assert_eq!(first.len(), 40);
    assert_eq!(first[0], (1_000, 2000));
}

#[test]
fn negative_deltas_point_above_and_are_refused() {
    let order = vec![(-2000, 5)];
    let mut visited = BTreeSet::new();
    assert!(select_candidates(&order, 10_000, &mut visited, 0, 10).is_empty());
}

#[test]
fn extreme_values_do_not_overflow() {
    let order = vec![(isize::MAX, 1), (isize::MIN, 1)];
    let mut visited = BTreeSet::new();
    assert!(select_candidates(&order, isize::MAX, &mut visited, 0, 10).len() <= 10);
    assert!(select_candidates(&order, isize::MIN, &mut visited, 0, 10).is_empty());
}

#[test]
fn generator_gives_the_same_output_for_the_same_input() {
    let state = State::new();
    let mut first_visited = BTreeSet::new();
    first_visited.insert(98_000);
    let mut second_visited = first_visited.clone();
    let first = find_next_candidates(&state, MediaType::Video, 100_000, &mut first_visited, 50, 25);
    let second =
        find_next_candidates(&state, MediaType::Video, 100_000, &mut second_visited, 50, 25);
    assert_eq!(first, second);
    assert_eq!(first_visited, second_visited);
    let other = State::new();
    let mut third_visited = BTreeSet::new();
    third_visited.insert(98_000);
    let third = find_next_candidates(&other, MediaType::Audio, 100_000, &mut third_visited, 50, 25);
    assert_eq!(first, third);
}

#[test]
fn first_batch_from_the_prior() {
    let state = State::new();
    let mut visited = BTreeSet::new();
    let batch = find_next_candidates(&state, MediaType::Video, 100_000, &mut visited, 0, 10);
    assert_eq!(
        batch,
        vec![
            (98_000, 2000),
            (98_400, 1600),
            (98_300, 1700),
            (98_200, 1800),
            (98_100, 1900),
            (97_900, 2100),
            (97_800, 2200),
            (97_700, 2300),
            (97_600, 2400),
            (99_900, 100),
        ]
    );
}

#[test]
fn candidates_from_the_prior_are_valid() {
    let state = State::new();
    let mut visited = BTreeSet::new();
    for t in (90_000..100_000).step_by(7) {
        visited.insert(t);
    }
    let before = visited.clone();
    let batch = find_next_candidates(&state, MediaType::Audio, 100_000, &mut visited, 91_000, 500);
    assert_eq!(batch.len(), 500);
    let mut seen = BTreeSet::new();
    for (t, delta) in &batch {
        assert!(91_000 < *t && *t < 100_000);
        assert_eq!(*delta, 100_000 - *t);
        assert!(!before.contains(t));
        assert!(visited.contains(t));
        assert!(seen.insert(*t));
    }
    assert_eq!(visited.len(), before.len() + 500);
}

#[test]
fn learned_delta_moves_up_in_the_batch() {
    let mut state = State::new();
    for _ in 0..9 {
        state.record_delta(MediaType::Video, 3033);
    }
    // 3033 now has count 10 and ranks with the deltas from 1600 to 2400, after them.
    let mut visited = BTreeSet::new();
    let batch = find_next_candidates(&state, MediaType::Video, 100_000, &mut visited, 0, 10);
    assert_eq!(batch[0], (98_000, 2000));
    assert_eq!(batch[9], (96_967, 3033));
}
