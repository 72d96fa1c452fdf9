//! The manifest of a broadcast, as far as the downloader reads it.

use crate::error::IgLiveError;
use crate::media::MediaType;
use crate::resolve::{join_url, resolved_url, segment_file_name, url_path_segments};
use crate::text::{decimal, has_prefix, replace, replaced, same_text, starts_with, to_decimal};
use vstd::prelude::*;

verus! {

/// A manifest.
#[derive(Debug, Clone)]
pub struct Mpd {
    pub period: Option<Period>,
    pub id: String,
    pub start_frame: usize,
    pub finished: bool,
}

/// The one period of a manifest.
#[derive(Debug, Clone)]
pub struct Period {
    pub adaptation_sets: Vec<AdaptationSet>,
}

/// A group of representations of the same content.
#[derive(Debug, Clone)]
pub struct AdaptationSet {
    pub representations: Vec<Representation>,
    pub max_width: Option<usize>,
    pub max_height: Option<usize>,
    pub max_frame_rate: Option<usize>,
}

/// One encoded variant of the stream.
#[derive(Debug, Clone)]
pub struct Representation {
    pub segment_template: SegmentTemplate,
    pub mime_type: String,
    pub width: Option<usize>,
    pub height: Option<usize>,
    pub frame_rate: Option<usize>,
    pub bandwidth: usize,
}

/// Where the segments of a representation are found.
#[derive(Debug, Clone)]
pub struct SegmentTemplate {
    pub segment_timeline: SegmentTimeline,
    pub initialization_path: String,
    pub media_path: String,
}

/// The segments that the manifest lists.
#[derive(Debug, Clone)]
pub struct SegmentTimeline {
    pub segments: Vec<Segment>,
}

/// A listed segment: its timestamp and its duration.
#[derive(Debug, Clone)]
pub struct Segment {
    pub t: usize,
    pub d: usize,
}

/// The representations of all the sets, in the order of the manifest.
pub open spec fn representations_of(sets: Seq<AdaptationSet>) -> Seq<Representation>
    decreases sets.len(),
{
    if sets.len() == 0 {
        Seq::empty()
    } else {
        representations_of(sets.drop_last()) + sets.last().representations@
    }
}

/// Whether `r` is a choice for the media whose type names begin with
/// `kind`: it is of that media and claims some bandwidth.
pub open spec fn offers(r: Representation, kind: Seq<char>) -> bool {
    has_prefix(r.mime_type@, kind) && r.bandwidth > 0
}

/// Whether the representation at `at` is the best choice for `kind`: none
/// has more bandwidth, and none before it has as much.
pub open spec fn is_best(reps: Seq<Representation>, kind: Seq<char>, at: int) -> bool {
    &&& 0 <= at < reps.len()
    &&& offers(reps[at], kind)
    &&& forall|j: int|
        0 <= j < reps.len() && offers(#[trigger] reps[j], kind) ==> reps[j].bandwidth
            <= reps[at].bandwidth
    &&& forall|j: int|
        0 <= j < at && offers(#[trigger] reps[j], kind) ==> reps[j].bandwidth < reps[at].bandwidth
}

/// Whether some representation is a choice for `kind`.
pub open spec fn any_offers(reps: Seq<Representation>, kind: Seq<char>) -> bool {
    exists|j: int| 0 <= j < reps.len() && offers(#[trigger] reps[j], kind)
}

/// There is one best choice at most.
pub proof fn lemma_best_is_unique(reps: Seq<Representation>, kind: Seq<char>, a: int, b: int)
    requires
        is_best(reps, kind, a),
        is_best(reps, kind, b),
    ensures
        a == b,
{
    if a < b {
        assert(offers(reps[a], kind));
    } else if b < a {
        assert(offers(reps[b], kind));
    }
}

impl Mpd {
    /// The representations of the manifest, in its order; none without a
    /// period.
    pub open spec fn representations(&self) -> Seq<Representation> {
        match self.period {
            Some(period) => representations_of(period.adaptation_sets@),
            None => Seq::empty(),
        }
    }

    /// The best video and the best audio representation: of each media the
    /// one with the most bandwidth, and the first of those. Fails where the
    /// manifest has no period or lacks a choice for one of the two.
    pub fn best_media(&self) -> (best: Result<(&Representation, &Representation), IgLiveError>)
        ensures
            match best {
                Ok((video, audio)) => {
                    &&& exists|v: int|
                        is_best(self.representations(), "video"@, v)
                            && #[trigger] self.representations()[v] == *video
                    &&& exists|a: int|
                        is_best(self.representations(), "audio"@, a)
                            && #[trigger] self.representations()[a] == *audio
                },
                Err(e) => {
                    &&& e == IgLiveError::EmptyManifest
                    &&& !any_offers(self.representations(), "video"@) || !any_offers(
                        self.representations(),
                        "audio"@,
                    )
                },
            },
    {
        let period = match &self.period {
            Some(period) => period,
            None => {
                return Err(IgLiveError::EmptyManifest);
            },
        };
        let sets = &period.adaptation_sets;
        let mut cur_video_bandwidth: usize = 0;
        let mut cur_audio_bandwidth: usize = 0;
        let mut video: Option<&Representation> = None;
        let mut audio: Option<&Representation> = None;
        let ghost mut seen: Seq<Representation> = Seq::empty();
        let ghost mut v_at: int = -1;
        let ghost mut a_at: int = -1;
        let mut s: usize = 0;
        assert(sets@.take(0) =~= Seq::<AdaptationSet>::empty());
        while s < sets.len()
            invariant
                s <= sets.len(),
                seen == representations_of(sets@.take(s as int)),
                chosen(seen, "video"@, v_at, video, cur_video_bandwidth),
                chosen(seen, "audio"@, a_at, audio, cur_audio_bandwidth),
            decreases sets.len() - s,
        {
            let reps = &sets[s].representations;
            let ghost before = seen;
            let mut r: usize = 0;
            assert(before + reps@.take(0) =~= before);
            while r < reps.len()
                invariant
                    r <= reps.len(),
                    seen == before + reps@.take(r as int),
                    chosen(seen, "video"@, v_at, video, cur_video_bandwidth),
                    chosen(seen, "audio"@, a_at, audio, cur_audio_bandwidth),
                decreases reps.len() - r,
            {
                let rep = &reps[r];
                let ghost grown = seen.push(*rep);
                proof {
                    assert(grown =~= before + reps@.take(r + 1));
                    assert forall|j: int| 0 <= j < seen.len() implies grown[j] == seen[j] by {}
                }
                if starts_with(rep.mime_type.as_str(), "video") && rep.bandwidth
                    > cur_video_bandwidth {
                    cur_video_bandwidth = rep.bandwidth;
                    video = Some(rep);
                    proof {
                        v_at = seen.len() as int;
                    }
                }
                if starts_with(rep.mime_type.as_str(), "audio") && rep.bandwidth
                    > cur_audio_bandwidth {
                    cur_audio_bandwidth = rep.bandwidth;
                    audio = Some(rep);
                    proof {
                        a_at = seen.len() as int;
                    }
                }
                proof {
                    seen = grown;
                }
                r += 1;
            }
            proof {
                assert(reps@.take(r as int) =~= reps@);
                assert(sets@.take(s + 1).drop_last() =~= sets@.take(s as int));
            }
            s += 1;
        }
        proof {
            assert(sets@.take(s as int) =~= sets@);
        }
        match (video, audio) {
            (Some(video), Some(audio)) => {
                proof {
                    assert(self.representations()[v_at] == *video);
                    assert(self.representations()[a_at] == *audio);
                }
                Ok((video, audio))
            },
            _ => Err(IgLiveError::EmptyManifest),
        }
    }

    /// Takes note of what the server said about the end of the broadcast:
    /// the value "1" marks the manifest as finished.
    pub fn note_broadcast_ended(&mut self, value: Option<&str>)
        ensures
            final(self).finished == (old(self).finished || (value matches Some(text) && text@
                == "1"@)),
            final(self).period == old(self).period,
            final(self).id == old(self).id,
            final(self).start_frame == old(self).start_frame,
    {
        match value {
            Some(text) => {
                if same_text(text, "1") {
                    self.finished = true;
                }
            },
            None => {},
        }
    }
}

/// What the scan of [`Mpd::best_media`] holds after the representations
/// `seen`: no choice yet, with the bandwidth to beat at 0, or the best of
/// `seen` at `at`, with its bandwidth to beat.
pub open spec fn chosen(
    seen: Seq<Representation>,
    kind: Seq<char>,
    at: int,
    held: Option<&Representation>,
    bandwidth: usize,
) -> bool {
    match held {
        Some(rep) => is_best(seen, kind, at) && seen[at] == *rep && bandwidth == rep.bandwidth,
        None => bandwidth == 0 && !any_offers(seen, kind),
    }
}

impl Representation {
    /// The media kind that the MIME type names.
    pub fn media_type(&self) -> (media_type: MediaType)
        ensures
            media_type == if has_prefix(self.mime_type@, "video/"@) {
                MediaType::Video
            } else if has_prefix(self.mime_type@, "audio/"@) {
                MediaType::Audio
            } else {
                MediaType::Unknown
            },
    {
        if starts_with(self.mime_type.as_str(), "video/") {
            MediaType::Video
        } else if starts_with(self.mime_type.as_str(), "audio/") {
            MediaType::Audio
        } else {
            MediaType::Unknown
        }
    }

    /// The path of the segment at timestamp `t`: the media path with `t`, in
    /// decimal, in place of every `$Time$`.
    pub open spec fn media_path_at(&self, t: isize) -> Seq<char> {
        replaced(self.segment_template.media_path@, "$Time$"@, decimal(t as int))
    }

    /// The path of the segment at timestamp `t`.
    pub fn media_path(&self, t: isize) -> (path: String)
        ensures
            path@ == self.media_path_at(t),
    {
        proof {
            reveal_strlit("$Time$");
        }
        let time = to_decimal(t);
        replace(self.segment_template.media_path.as_str(), "$Time$", time.as_str())
    }

    /// The URL of the segment at timestamp `t`: its path, resolved against
    /// `url_base`.
    pub fn download_url(&self, url_base: &str, t: isize) -> (url: Result<String, IgLiveError>)
        ensures
            match url {
                Ok(text) => resolved_url(url_base@, self.media_path_at(t)) == Some(text@),
                Err(e) => e == IgLiveError::InvalidUrl && resolved_url(
                    url_base@,
                    self.media_path_at(t),
                ) is None,
            },
    {
        let path = self.media_path(t);
        join_url(url_base, path.as_str())
    }

    /// Where to fetch the segment at timestamp `t` from and what to call its
    /// file: the segment's URL and the last segment of that URL's path.
    pub fn probe_target(&self, url_base: &str, t: isize) -> (target: Result<
        (String, String),
        IgLiveError,
    >)
        ensures
            match target {
                Ok((url, name)) => {
                    &&& resolved_url(url_base@, self.media_path_at(t)) == Some(url@)
                    &&& url_path_segments(url@) matches Some(parts) && parts.len() > 0 && name@
                        == parts.last()
                },
                Err(e) => {
                    &&& e == IgLiveError::InvalidUrl
                    &&& resolved_url(url_base@, self.media_path_at(t)) matches Some(url)
                        ==> url_path_segments(url) is None
                },
            },
    {
        let url = match self.download_url(url_base, t) {
            Ok(url) => url,
            Err(e) => {
                return Err(e);
            },
        };
        match segment_file_name(url.as_str()) {
            Ok(name) => Ok((url, name)),
            Err(e) => Err(e),
        }
    }
}

} // verus!
