use download_iglive::error::IgLiveError;
use download_iglive::media::{MediaMap, MediaType};
use download_iglive::state::{State, PTS_TOLERANCE};

#[test]
fn prior_counts_of_the_inner_band() {
    let state = State::new();
    for x in 16..=24 {
        let round = if x == 20 { 100 } else { 10 };
        assert_eq!(state.count_of(MediaType::Video, x * 100), round);
        assert_eq!(state.count_of(MediaType::Video, x * 100 + 33), 2);
        assert_eq!(state.count_of(MediaType::Video, x * 100 + 67), 2);
    }
}

#[test]
fn prior_counts_of_the_outer_bands() {
    let state = State::new();
    for x in (10..=15).chain(25..=30).chain(70..=90) {
        assert_eq!(state.count_of(MediaType::Audio, x * 100), 1);
        assert_eq!(state.count_of(MediaType::Audio, x * 100 + 33), 1);
        assert_eq!(state.count_of(MediaType::Audio, x * 100 + 67), 1);
    }
}

#[test]
fn prior_strong_entries() {
    let state = State::new();
    assert_eq!(state.count_of(MediaType::Video, 2000), 100);
    assert_eq!(state.count_of(MediaType::Video, 100), 2);
    assert_eq!(state.count_of(MediaType::Audio, 2000), 100);
    assert_eq!(state.count_of(MediaType::Audio, 100), 2);
}

#[test]
fn prior_holds_nothing_else() {
    let state = State::new();
    for delta in [0, 1, 99, 133, 167, 200, 999, 1001, 1034, 1568, 1599, 3068, 3100, 6999, 9068, 9100, -2000]
    {
        assert_eq!(state.count_of(MediaType::Video, delta), 0);
    }
    let snapshot = state.deltas_snapshot(MediaType::Video);
    assert_eq!(snapshot.len(), 127);
    let total: i64 = snapshot.iter().map(|e| e.1 as i64).sum();
    assert_eq!(total, 100 + 2 + 8 * 10 + 18 * 2 + 18 + 18 + 63);
}

#[test]
fn snapshot_lists_each_entry_once() {
    let state = State::new();
    let mut snapshot = state.deltas_snapshot(MediaType::Audio);
    snapshot.sort();
    for pair in snapshot.windows(2) {
        assert!(pair[0].0 < pair[1].0);
    }
    for (delta, count) in snapshot {
        assert_eq!(state.count_of(MediaType::Audio, delta), count);
    }
}

#[test]
fn fresh_state_has_a_histogram_for_every_kind_and_nothing_else() {
    let state = State::new();
    for kind in [MediaType::Video, MediaType::Audio, MediaType::Unknown] {
        assert!(state.has_deltas(kind));
        assert_eq!(state.min_downloaded(kind), None);
        assert_eq!(state.get_back_pts(kind), None);
        assert!(state.init(kind).is_none());
        assert_eq!(state.count_of(kind, 2000), 100);
        assert_eq!(state.deltas_snapshot(kind).len(), 127);
    }
}

#[test]
fn every_kind_starts_from_the_same_prior() {
    let state = State::new();
    let mut video = state.deltas_snapshot(MediaType::Video);
    let mut audio = state.deltas_snapshot(MediaType::Audio);
    let mut unknown = state.deltas_snapshot(MediaType::Unknown);
    video.sort();
    audio.sort();
    unknown.sort();
    assert_eq!(video, audio);
    assert_eq!(video, unknown);
}

#[test]
fn histograms_of_the_kinds_are_independent() {
    let mut state = State::new();
    state.record_delta(MediaType::Unknown, 2000);
    state.record_delta(MediaType::Unknown, 555);
    assert_eq!(state.count_of(MediaType::Unknown, 2000), 101);
    assert_eq!(state.count_of(MediaType::Unknown, 555), 1);
    for kind in [MediaType::Video, MediaType::Audio] {
        assert_eq!(state.count_of(kind, 2000), 100);
        assert_eq!(state.count_of(kind, 555), 0);
    }
    state.record_delta(MediaType::Audio, 1600);
    assert_eq!(state.count_of(MediaType::Audio, 1600), 11);
    assert_eq!(state.count_of(MediaType::Video, 1600), 10);
    assert_eq!(state.count_of(MediaType::Unknown, 1600), 10);
}

#[test]
fn min_downloaded_is_the_smallest_timestamp() {
    let mut state = State::new();
    state.record_download(MediaType::Video, 100_000);
    assert_eq!(state.min_downloaded(MediaType::Video), Some(100_000));
    state.record_download(MediaType::Video, 102_000);
    state.record_download(MediaType::Video, 98_000);
    state.record_download(MediaType::Video, 98_000);
    assert_eq!(state.min_downloaded(MediaType::Video), Some(98_000));
    assert_eq!(state.min_downloaded(MediaType::Audio), None);
}

#[test]
fn record_download_creates_the_set_of_an_unknown_kind() {
    let mut state = State::new();
    state.record_download(MediaType::Unknown, 7);
    assert_eq!(state.min_downloaded(MediaType::Unknown), Some(7));
}

#[test]
fn record_delta_raises_the_count_by_one() {
    let mut state = State::new();
    state.record_delta(MediaType::Video, 2000);
    assert_eq!(state.count_of(MediaType::Video, 2000), 101);
    state.record_delta(MediaType::Video, 2000);
    assert_eq!(state.count_of(MediaType::Video, 2000), 102);
    assert_eq!(state.count_of(MediaType::Audio, 2000), 100);
}

#[test]
fn record_delta_adds_a_new_key_with_count_one() {
    let mut state = State::new();
    assert_eq!(state.count_of(MediaType::Audio, 4321), 0);
    state.record_delta(MediaType::Audio, 4321);
    assert_eq!(state.count_of(MediaType::Audio, 4321), 1);
    assert_eq!(state.count_of(MediaType::Video, 4321), 0);
    assert_eq!(state.deltas_snapshot(MediaType::Audio).len(), 128);
    assert_eq!(state.deltas_snapshot(MediaType::Video).len(), 127);
}

#[test]
fn back_pts_is_kept_per_media_kind() {
    let mut state = State::new();
    state.set_back_pts(MediaType::Video, 5000);
    assert_eq!(state.get_back_pts(MediaType::Video), Some(5000));
    assert_eq!(state.get_back_pts(MediaType::Audio), None);
    state.set_back_pts(MediaType::Video, 4000);
    assert_eq!(state.get_back_pts(MediaType::Video), Some(4000));
}

#[test]
fn init_data_is_set_once() {
    let mut state = State::new();
    assert!(state.set_init(MediaType::Video, vec![1, 2, 3]));
    assert_eq!(state.init(MediaType::Video), Some(&vec![1, 2, 3]));
    assert!(!state.set_init(MediaType::Video, vec![9]));
    assert_eq!(state.init(MediaType::Video), Some(&vec![1, 2, 3]));
    assert!(state.init(MediaType::Audio).is_none());
}

#[test]
fn pts_check_without_watermark_accepts() {
    let state = State::new();
    assert!(state.accepts_pts(MediaType::Video, false, 0, 0));
    assert!(state.accepts_pts(MediaType::Video, true, 0, 0));
}

#[test]
fn pts_check_is_exact_at_the_tolerance() {
    let mut state = State::new();
    state.set_back_pts(MediaType::Video, 10_000);
    assert!(state.accepts_pts(MediaType::Video, false, 10_000, 0));
    assert!(!state.accepts_pts(MediaType::Video, false, 9_999, 0));
    assert!(state.accepts_pts(MediaType::Video, false, 9_000, 1_000));
    assert!(!state.accepts_pts(MediaType::Video, false, 8_999, 1_000));
    assert!(state.accepts_pts(MediaType::Video, false, 0, 10_000));
    assert!(state.accepts_pts(MediaType::Video, false, 0, usize::MAX));
    assert!(!state.accepts_pts(MediaType::Video, false, 0, 9_999));
    assert!(state.accepts_pts(MediaType::Audio, false, 0, 0));
}

#[test]
fn pts_check_can_be_switched_off() {
    let mut state = State::new();
    state.set_back_pts(MediaType::Audio, 10_000);
    assert!(!state.accepts_pts(MediaType::Audio, false, 1, 0));
    assert!(state.accepts_pts(MediaType::Audio, true, 1, 0));
}

#[test]
fn commit_segment_books_timestamp_and_watermark() {
    let mut state = State::new();
    state.commit_segment(MediaType::Video, 98_000, 97_950);
    assert_eq!(state.min_downloaded(MediaType::Video), Some(98_000));
    assert_eq!(state.get_back_pts(MediaType::Video), Some(97_950));
    assert_eq!(state.count_of(MediaType::Video, 2000), 100);
    assert_eq!(state.min_downloaded(MediaType::Audio), None);
}

#[test]
fn media_map_stores_per_kind() {
    let mut table: MediaMap<u32> = MediaMap::new();
    assert!(!table.contains_key(MediaType::Video));
    assert_eq!(table.insert(MediaType::Video, 1), None);
    assert_eq!(table.insert(MediaType::Video, 2), Some(1));
    assert_eq!(table.insert(MediaType::Unknown, 3), None);
    assert_eq!(table.get(MediaType::Video), Some(&2));
    assert_eq!(table.get(MediaType::Audio), None);
    assert!(table.contains_key(MediaType::Unknown));
    assert_eq!(table.remove(MediaType::Video), Some(2));
    assert_eq!(table.remove(MediaType::Video), None);
    assert_eq!(table.get(MediaType::Unknown), Some(&3));
}

#[test]
fn error_messages() {
    assert_eq!(IgLiveError::StatusNotFound.message(), "segment not found");
    assert_eq!(IgLiveError::PtsTooEarly.message(), "segment timestamp too early");
    assert_eq!(IgLiveError::InvalidUrl.message(), "invalid URL");
    assert_eq!(IgLiveError::EmptyManifest.message(), "manifest has no usable media");
}

#[test]
fn tolerance_of_the_pts_check() {
    assert_eq!(PTS_TOLERANCE, 10_000);
}

#[test]
fn admits_follows_the_pts_check() {
    let mut state = State::new();
    state.set_back_pts(MediaType::Video, 50_000);
    assert!(state.admits(MediaType::Video, Some(40_000), false, PTS_TOLERANCE));
    assert!(!state.admits(MediaType::Video, Some(39_999), false, PTS_TOLERANCE));
    assert!(state.admits(MediaType::Video, Some(39_999), true, PTS_TOLERANCE));
    assert!(state.admits(MediaType::Video, None, false, PTS_TOLERANCE));
    assert!(state.admits(MediaType::Audio, Some(0), false, PTS_TOLERANCE));
}

#[test]
fn book_segment_books_and_moves_the_watermark() {
    let mut state = State::new();
    assert_eq!(state.book_segment(MediaType::Video, 100_000, Some(99_000), false, 500), Ok(()));
    assert_eq!(state.min_downloaded(MediaType::Video), Some(100_000));
    assert_eq!(state.get_back_pts(MediaType::Video), Some(99_000));
    assert_eq!(state.book_segment(MediaType::Video, 98_000, Some(98_500), false, 500), Ok(()));
    assert_eq!(state.min_downloaded(MediaType::Video), Some(98_000));
    assert_eq!(state.get_back_pts(MediaType::Video), Some(98_500));
    assert_eq!(state.min_downloaded(MediaType::Audio), None);
    assert_eq!(state.get_back_pts(MediaType::Audio), None);
}

#[test]
fn book_segment_turns_down_an_early_segment_and_changes_nothing() {
    let mut state = State::new();
    state.commit_segment(MediaType::Video, 100_000, 99_000);
    assert_eq!(
        state.book_segment(MediaType::Video, 90_000, Some(98_499), false, 500),
        Err(IgLiveError::PtsTooEarly)
    );
    assert_eq!(state.min_downloaded(MediaType::Video), Some(100_000));
    assert_eq!(state.get_back_pts(MediaType::Video), Some(99_000));
    assert_eq!(state.count_of(MediaType::Video, 2000), 100);
}

#[test]
fn book_segment_without_check_keeps_an_early_segment() {
    let mut state = State::new();
    state.commit_segment(MediaType::Video, 100_000, 99_000);
    assert_eq!(state.book_segment(MediaType::Video, 90_000, Some(10), true, 500), Ok(()));
    assert_eq!(state.min_downloaded(MediaType::Video), Some(90_000));
    assert_eq!(state.get_back_pts(MediaType::Video), Some(10));
}

#[test]
fn book_segment_without_decoded_time_leaves_the_watermark() {
    let mut state = State::new();
    state.commit_segment(MediaType::Audio, 100_000, 99_000);
    assert_eq!(state.book_segment(MediaType::Audio, 90_000, None, false, 0), Ok(()));
    assert_eq!(state.min_downloaded(MediaType::Audio), Some(90_000));
    assert_eq!(state.get_back_pts(MediaType::Audio), Some(99_000));
    let mut fresh = State::new();
    assert_eq!(fresh.book_segment(MediaType::Audio, 5, None, false, 0), Ok(()));
    assert_eq!(fresh.get_back_pts(MediaType::Audio), None);
}
