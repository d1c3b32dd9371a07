//! The driver's per-file decisions: from a probe outcome to the action taken
//! for that file, with each file decided independently of every other.

use vstd::prelude::*;
use crate::metric::{Bpp, compute_bpp, spec_compute_bpp};
use crate::probe::{
    ProbeResult, get_codec_name, is_first_video, is_video_type, spec_codec_is_optimal,
    lemma_first_video_unique,
};
use crate::text::{seq_eq_ignore_case, str_eq_ignore_case};

verus! {

/// What the driver does with one discovered file.
pub enum FileAction {
    /// The probe failed; the file is reported as skipped and the batch goes
    /// on.
    SkipFailed,
    /// The codec is already the designated efficient one; the file is to be
    /// renamed with the marker suffix.
    Mark,
    /// The file is measured and its BPP (when computable) reported.
    Report(Option<Bpp>),
}

/// The codec name designates the "already efficient" codec, compared
/// case-insensitively; an absent name never does.
pub fn is_optimal_codec(codec: &Option<String>) -> (r: bool)
    ensures
        r == (match codec {
            Some(n) => seq_eq_ignore_case(n@, "av1"@),
            None => false,
        }),
{
    match codec {
        Some(n) => str_eq_ignore_case(n.as_str(), "av1"),
        None => false,
    }
}

/// The probe's first video stream carries the designated efficient codec.
pub fn should_mark(probe: &ProbeResult) -> (r: bool)
    ensures
        r == spec_codec_is_optimal(*probe),
{
    let codec = get_codec_name(probe);
    let r = is_optimal_codec(&codec);
    proof {
        if exists|i: int| is_first_video(probe.streams@, i) {
            let i = choose|i: int| is_first_video(probe.streams@, i);
            assert(codec == probe.streams@[i].codec_name);
            assert forall|j: int| is_first_video(probe.streams@, j) implies j == i by {
                lemma_first_video_unique(probe.streams@, i, j);
            }
        } else {
            assert forall|i: int|
                0 <= i < probe.streams@.len() implies !is_video_type(probe.streams@[i]) by {
                if is_video_type(probe.streams@[i]) {
                    let w = choose|j: int|
                        0 <= j <= i && is_video_type(probe.streams@[j]) && forall|m: int|
                            0 <= m < j ==> !is_video_type(probe.streams@[m]);
                    assert(exists|j: int|
                        0 <= j <= i && is_video_type(probe.streams@[j]) && forall|m: int|
                            0 <= m < j ==> !is_video_type(probe.streams@[m])) by {
                        smallest_video_index(probe.streams@, i);
                    }
                    assert(is_first_video(probe.streams@, w));
                }
            }
        }
    }
    r
}

/// There is a smallest video-stream index at or below any video-stream
/// index.
proof fn smallest_video_index(streams: Seq<crate::probe::StreamInfo>, i: int)
    requires
        0 <= i < streams.len(),
        is_video_type(streams[i]),
    ensures
        exists|j: int|
            0 <= j <= i && is_video_type(streams[j]) && forall|m: int|
                0 <= m < j ==> !is_video_type(streams[m]),
    decreases i,
{
    if forall|m: int| 0 <= m < i ==> !is_video_type(streams[m]) {
        assert(0 <= i <= i && is_video_type(streams[i]) && forall|m: int|
            0 <= m < i ==> !is_video_type(streams[m]));
    } else {
        let k = choose|m: int| 0 <= m < i && is_video_type(streams[m]);
        smallest_video_index(streams, k);
        let j = choose|j: int|
            0 <= j <= k && is_video_type(streams[j]) && forall|m: int|
                0 <= m < j ==> !is_video_type(streams[m]);
        assert(0 <= j <= i && is_video_type(streams[j]) && forall|m: int|
            0 <= m < j ==> !is_video_type(streams[m]));
    }
}

/// The action decided for one probe outcome agrees with the rules: a failed
/// probe is skipped, an optimal codec is marked, anything else is measured
/// and reported.
pub open spec fn spec_action_ok(probe: Option<ProbeResult>, a: FileAction) -> bool {
    match probe {
        None => a is SkipFailed,
        Some(p) => {
            if spec_codec_is_optimal(p) {
                a is Mark
            } else {
                a matches FileAction::Report(b) && (match spec_compute_bpp(p) {
                    Option::None => b is None,
                    Option::Some(nd) => {
                        if nd.1 <= u128::MAX as int {
                            b matches Some(v) && v.num == nd.0 && v.den == nd.1
                        } else {
                            b is None
                        }
                    },
                })
            }
        },
    }
}

/// Decides what to do with one file: skip it when its probe failed, mark it
/// when its codec is already optimal, else measure and report it.
pub fn decide_action(probe: &Option<ProbeResult>) -> (r: FileAction)
    ensures
        spec_action_ok(*probe, r),
{
    match probe {
        None => FileAction::SkipFailed,
        Some(p) => {
            if should_mark(p) {
                FileAction::Mark
            } else {
                FileAction::Report(compute_bpp(p))
            }
        },
    }
}

/// Decides a whole batch, one action per probe outcome. Each file's action
/// depends on its own probe alone, so one file's failure never affects
/// another file's outcome.
pub fn plan_batch(probes: &Vec<Option<ProbeResult>>) -> (r: Vec<FileAction>)
    ensures
        r@.len() == probes@.len(),
        forall|i: int| 0 <= i < r@.len() ==> spec_action_ok(probes@[i], r@[i]),
{
    let n = probes.len();
    let mut out: Vec<FileAction> = Vec::new();
    let mut i: usize = 0;
    while i < n
        invariant
            n == probes@.len(),
            0 <= i <= n,
            out@.len() == i,
            forall|j: int| 0 <= j < i ==> spec_action_ok(probes@[j], out@[j]),
        decreases n - i,
    {
        let a = decide_action(&probes[i]);
        out.push(a);
        i += 1;
    }
    out
}

/// Whether a run may proceed: discovery of no candidate ends the run with a
/// failure status before any per-file work.
pub fn batch_may_proceed(candidate_count: usize) -> (r: bool)
    ensures
        r == (candidate_count > 0),
{
    candidate_count > 0
}

} // verus!
