//! The internal metadata model for one probed media file: an ordered
//! collection of stream records, with selection of the primary video stream.

use vstd::prelude::*;
use crate::text::seq_eq_ignore_case;

verus! {

/// One stream record as reported by the probing collaborator.
pub struct StreamInfo {
    pub codec_type: Option<String>,
    pub codec_name: Option<String>,
    pub width: Option<u32>,
    pub height: Option<u32>,
    pub r_frame_rate: Option<String>,
    pub bit_rate: Option<String>,
    pub tags: Option<Vec<(String, String)>>,
}

/// All stream records probed from one file, in their reported order.
pub struct ProbeResult {
    pub streams: Vec<StreamInfo>,
}

/// The stream reports itself as a video stream.
pub open spec fn is_video_type(s: StreamInfo) -> bool {
    match s.codec_type {
        Some(t) => t@ == "video"@,
        None => false,
    }
}

/// The stream reports both a width and a height.
pub open spec fn has_dims(s: StreamInfo) -> bool {
    s.width is Some && s.height is Some
}

/// A video stream from which a metric could be computed.
pub open spec fn is_metric_stream(s: StreamInfo) -> bool {
    is_video_type(s) && has_dims(s)
}

/// `i` indexes the first video stream.
pub open spec fn is_first_video(streams: Seq<StreamInfo>, i: int) -> bool {
    &&& 0 <= i < streams.len()
    &&& is_video_type(streams[i])
    &&& forall|j: int| 0 <= j < i ==> !is_video_type(streams[j])
}

/// `i` indexes the first video stream that reports both dimensions.
pub open spec fn is_first_metric_stream(streams: Seq<StreamInfo>, i: int) -> bool {
    &&& 0 <= i < streams.len()
    &&& is_metric_stream(streams[i])
    &&& forall|j: int| 0 <= j < i ==> !is_metric_stream(streams[j])
}

pub proof fn lemma_first_video_unique(streams: Seq<StreamInfo>, i: int, j: int)
    requires
        is_first_video(streams, i),
        is_first_video(streams, j),
    ensures
        i == j,
{
}

pub proof fn lemma_first_metric_unique(streams: Seq<StreamInfo>, i: int, j: int)
    requires
        is_first_metric_stream(streams, i),
        is_first_metric_stream(streams, j),
    ensures
        i == j,
{
}

/// The stream reports itself as a video stream.
pub fn stream_is_video(s: &StreamInfo) -> (r: bool)
    ensures
        r == is_video_type(*s),
{
    match &s.codec_type {
        Some(t) => {
            let v = String::from_str("video");
            *t == v
        },
        None => false,
    }
}

/// Codec identifier of the first video stream, whether or not it reports
/// dimensions; `None` when no video stream exists or it reports no codec.
pub fn get_codec_name(probe: &ProbeResult) -> (r: Option<String>)
    ensures
        (forall|i: int|
            0 <= i < probe.streams@.len() ==> !is_video_type(probe.streams@[i])) ==> r is None,
        forall|i: int|
            is_first_video(probe.streams@, i) ==> r == probe.streams@[i].codec_name,
{
    let n = probe.streams.len();
    let mut k: usize = 0;
    while k < n
        invariant
            n == probe.streams@.len(),
            0 <= k <= n,
            forall|j: int| 0 <= j < k ==> !is_video_type(probe.streams@[j]),
        decreases n - k,
    {
        if stream_is_video(&probe.streams[k]) {
            proof {
                assert(is_first_video(probe.streams@, k as int));
                assert forall|i: int| is_first_video(probe.streams@, i) implies i == k as int by {
                    lemma_first_video_unique(probe.streams@, i, k as int);
                }
            }
            return match &probe.streams[k].codec_name {
                Some(name) => Some(name.clone()),
                None => None,
            };
        }
        k += 1;
    }
    None
}

/// Index of the first video stream reporting both width and height; `None`
/// when no metric can be computed for this file.
pub fn select_video_stream(probe: &ProbeResult) -> (r: Option<usize>)
    ensures
        (match r {
            Some(i) => is_first_metric_stream(probe.streams@, i as int),
            None => forall|i: int|
                0 <= i < probe.streams@.len() ==> !is_metric_stream(probe.streams@[i]),
        }),
{
    let n = probe.streams.len();
    let mut k: usize = 0;
    while k < n
        invariant
            n == probe.streams@.len(),
            0 <= k <= n,
            forall|j: int| 0 <= j < k ==> !is_metric_stream(probe.streams@[j]),
        decreases n - k,
    {
        let s = &probe.streams[k];
        if stream_is_video(s) && s.width.is_some() && s.height.is_some() {
            return Some(k);
        }
        k += 1;
    }
    None
}

/// The probe shows a first video stream whose codec is the designated
/// "already efficient" one (AV1), compared case-insensitively.
pub open spec fn spec_codec_is_optimal(p: ProbeResult) -> bool {
    exists|i: int|
        is_first_video(p.streams@, i) && (match p.streams@[i].codec_name {
            Some(n) => seq_eq_ignore_case(n@, "av1"@),
            None => false,
        })
}

} // verus!
