use download_iglive::error::IgLiveError;
use download_iglive::media::MediaType;
use download_iglive::mpd::{
    AdaptationSet, Mpd, Period, Representation, Segment, SegmentTemplate, SegmentTimeline,
};
use download_iglive::resolve::{checked_url, join_url, last_segment, segment_file_name};

fn rep(mime: &str, bandwidth: usize, media_path: &str) -> Representation {
    Representation {
        segment_template: SegmentTemplate {
            segment_timeline: SegmentTimeline { segments: vec![Segment { t: 100_000, d: 2000 }] },
            initialization_path: String::from("init.m4v"),
            media_path: String::from(media_path),
        },
        mime_type: String::from(mime),
        width: None,
        height: None,
        frame_rate: None,
        bandwidth,
    }
}

fn set(representations: Vec<Representation>) -> AdaptationSet {
    AdaptationSet { representations, max_width: None, max_height: None, max_frame_rate: None }
}

fn mpd(sets: Vec<AdaptationSet>) -> Mpd {
    Mpd {
        period: Some(Period { adaptation_sets: sets }),
        id: String::from("live"),
        start_frame: 90_000,
        finished: false,
    }
}

#[test]
fn media_type_follows_the_mime_type() {
    assert_eq!(rep("video/mp4", 1, "").media_type(), MediaType::Video);
    assert_eq!(rep("audio/mp4", 1, "").media_type(), MediaType::Audio);
    assert_eq!(rep("text/vtt", 1, "").media_type(), MediaType::Unknown);
    assert_eq!(rep("video", 1, "").media_type(), MediaType::Unknown);
    assert_eq!(rep("", 1, "").media_type(), MediaType::Unknown);
    assert_eq!(rep("Video/mp4", 1, "").media_type(), MediaType::Unknown);
}

#[test]
fn best_media_takes_the_highest_bandwidth() {
    let manifest = mpd(vec![
        set(vec![rep("video/mp4", 100, "v100"), rep("video/mp4", 300, "v300"), rep("video/mp4", 200, "v200")]),
        set(vec![rep("audio/mp4", 50, "a50"), rep("audio/mp4", 40, "a40")]),
    ]);
    let (video, audio) = manifest.best_media().unwrap();
    assert_eq!(video.segment_template.media_path, "v300");
    assert_eq!(audio.segment_template.media_path, "a50");
}

#[test]
fn best_media_takes_the_first_of_equals() {
    let manifest = mpd(vec![
        set(vec![rep("audio/mp4", 50, "a1"), rep("video/mp4", 300, "v1")]),
        set(vec![rep("video/webm", 300, "v2"), rep("audio/webm", 50, "a2")]),
    ]);
    let (video, audio) = manifest.best_media().unwrap();
    assert_eq!(video.segment_template.media_path, "v1");
    assert_eq!(audio.segment_template.media_path, "a1");
}

#[test]
fn best_media_looks_across_adaptation_sets() {
    let manifest = mpd(vec![
        set(vec![rep("video/mp4", 100, "v1")]),
        set(vec![]),
        set(vec![rep("audio/mp4", 10, "a1"), rep("video/mp4", 101, "v2")]),
        set(vec![rep("audio/mp4", 11, "a2")]),
    ]);
    let (video, audio) = manifest.best_media().unwrap();
    assert_eq!(video.segment_template.media_path, "v2");
    assert_eq!(audio.segment_template.media_path, "a2");
}

#[test]
fn best_media_accepts_any_type_that_begins_with_the_media_name() {
    let manifest = mpd(vec![set(vec![rep("videotape", 5, "v"), rep("audiobook", 5, "a")])]);
    let (video, audio) = manifest.best_media().unwrap();
    assert_eq!(video.segment_template.media_path, "v");
    assert_eq!(audio.segment_template.media_path, "a");
}

#[test]
fn best_media_without_period_fails() {
    let manifest =
        Mpd { period: None, id: String::from("live"), start_frame: 0, finished: false };
    assert_eq!(manifest.best_media().err(), Some(IgLiveError::EmptyManifest));
}

#[test]
fn best_media_without_audio_fails() {
    let manifest = mpd(vec![set(vec![rep("video/mp4", 100, "v")])]);
    assert_eq!(manifest.best_media().err(), Some(IgLiveError::EmptyManifest));
}

#[test]
fn best_media_without_video_fails() {
    let manifest = mpd(vec![set(vec![rep("audio/mp4", 100, "a")])]);
    assert_eq!(manifest.best_media().err(), Some(IgLiveError::EmptyManifest));
    assert_eq!(mpd(vec![]).best_media().err(), Some(IgLiveError::EmptyManifest));
}

#[test]
fn best_media_ignores_representations_without_bandwidth() {
    let manifest = mpd(vec![set(vec![rep("video/mp4", 0, "v"), rep("audio/mp4", 100, "a")])]);
    assert_eq!(manifest.best_media().err(), Some(IgLiveError::EmptyManifest));
}

#[test]
fn broadcast_ended_header_marks_the_manifest() {
    let mut manifest = mpd(vec![]);
    manifest.note_broadcast_ended(None);
    assert!(!manifest.finished);
    manifest.note_broadcast_ended(Some("0"));
    assert!(!manifest.finished);
    manifest.note_broadcast_ended(Some("11"));
    assert!(!manifest.finished);
    manifest.note_broadcast_ended(Some("1"));
    assert!(manifest.finished);
    manifest.note_broadcast_ended(Some("0"));
    assert!(manifest.finished);
    assert_eq!(manifest.id, "live");
    assert_eq!(manifest.start_frame, 90_000);
}

#[test]
fn media_path_substitutes_the_timestamp() {
    let r = rep("video/mp4", 1, "../live/seg-$Time$.m4v?x=$Time$");
    assert_eq!(r.media_path(98_000), "../live/seg-98000.m4v?x=98000");
    assert_eq!(r.media_path(-5), "../live/seg--5.m4v?x=-5");
    assert_eq!(rep("video/mp4", 1, "fixed.m4v").media_path(1), "fixed.m4v");
}

#[test]
fn download_url_resolves_against_the_base() {
    let r = rep("video/mp4", 1, "seg-$Time$.m4v");
    assert_eq!(
        r.download_url("https://example.com/live/stream.mpd", 98_000),
        Ok(String::from("https://example.com/live/seg-98000.m4v"))
    );
    let up = rep("video/mp4", 1, "../v/$Time$.m4v?sig=1");
    assert_eq!(
        up.download_url("https://example.com/a/b/stream.mpd", 7),
        Ok(String::from("https://example.com/a/v/7.m4v?sig=1"))
    );
    let absolute = rep("video/mp4", 1, "https://cdn.example.net/$Time$");
    assert_eq!(
        absolute.download_url("https://example.com/a/b/stream.mpd", 7),
        Ok(String::from("https://cdn.example.net/7"))
    );
}

#[test]
fn download_url_with_unusable_base_fails() {
    let r = rep("video/mp4", 1, "seg-$Time$.m4v");
    assert_eq!(r.download_url("no url at all", 1), Err(IgLiveError::InvalidUrl));
    assert_eq!(r.download_url("", 1), Err(IgLiveError::InvalidUrl));
    assert_eq!(r.download_url("mailto:someone@example.com", 1), Err(IgLiveError::InvalidUrl));
}

#[test]
fn join_url_follows_the_rules_for_relative_references() {
    assert_eq!(
        join_url("https://example.net/a/b.html", "c.png"),
        Ok(String::from("https://example.net/a/c.png"))
    );
    assert_eq!(
        join_url("https://example.net/a/b/", "c.png"),
        Ok(String::from("https://example.net/a/b/c.png"))
    );
    assert_eq!(
        join_url("https://alice.com/a", "/v1/meta"),
        Ok(String::from("https://alice.com/v1/meta"))
    );
    assert_eq!(join_url("https://alice.com/a", "//eve.com/b"), Ok(String::from("https://eve.com/b")));
    assert_eq!(join_url("https://alice.com/a", "https://[bad"), Err(IgLiveError::InvalidUrl));
}

#[test]
fn file_name_is_the_last_path_segment() {
    assert_eq!(
        segment_file_name("https://example.com/live/seg-98000.m4v?sig=abc#frag"),
        Ok(String::from("seg-98000.m4v"))
    );
    assert_eq!(segment_file_name("https://example.com/a/b/"), Ok(String::from("")));
    assert_eq!(segment_file_name("https://example.com"), Ok(String::from("")));
    assert_eq!(segment_file_name("https://example.com/a%20b"), Ok(String::from("a%20b")));
}

#[test]
fn file_name_of_a_url_without_path_segments_fails() {
    assert_eq!(segment_file_name("data:text/plain,HelloWorld"), Err(IgLiveError::InvalidUrl));
    assert_eq!(segment_file_name("mailto:someone@example.com"), Err(IgLiveError::InvalidUrl));
    assert_eq!(segment_file_name("not a url"), Err(IgLiveError::InvalidUrl));
}

#[test]
fn last_segment_of_given_segments() {
    assert_eq!(
        last_segment(Some(vec![String::from("a"), String::from("b.m4v")])),
        Ok(String::from("b.m4v"))
    );
    assert_eq!(last_segment(Some(vec![String::from("only")])), Ok(String::from("only")));
    assert_eq!(last_segment(Some(vec![])), Err(IgLiveError::InvalidUrl));
    assert_eq!(last_segment(None), Err(IgLiveError::InvalidUrl));
}

#[test]
fn checked_url_of_given_results() {
    assert_eq!(checked_url(Some(String::from("https://x/"))), Ok(String::from("https://x/")));
    assert_eq!(checked_url(None), Err(IgLiveError::InvalidUrl));
}

#[test]
fn probe_target_gives_url_and_file_name() {
    let r = rep("video/mp4", 1, "../media/$Time$-v.m4v?token=t");
    assert_eq!(
        r.probe_target("https://example.com/live/dash/stream.mpd", 96_000),
        Ok((
            String::from("https://example.com/live/media/96000-v.m4v?token=t"),
            String::from("96000-v.m4v")
        ))
    );
}

#[test]
fn probe_target_fails_where_the_url_cannot_name_a_file() {
    let r = rep("video/mp4", 1, "data:text/plain,$Time$");
    assert_eq!(
        r.download_url("https://example.com/live/stream.mpd", 5),
        Ok(String::from("data:text/plain,5"))
    );
    assert_eq!(
        r.probe_target("https://example.com/live/stream.mpd", 5),
        Err(IgLiveError::InvalidUrl)
    );
    let plain = rep("video/mp4", 1, "$Time$.m4v");
    assert_eq!(plain.probe_target("nothing", 5), Err(IgLiveError::InvalidUrl));
}
