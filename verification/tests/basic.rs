use bpp_scan::discover::{filter_eligible, natural_compare, sort_natural};
use bpp_scan::driver::{batch_may_proceed, decide_action, is_optimal_codec, plan_batch, FileAction};
use bpp_scan::metric::{compute_bpp, parse_frame_rate, severity_of, Bpp, Severity};
use bpp_scan::paths::{
    is_eligible, is_video_file, plan_rename, rename_target, should_skip_file, RenameError,
};
use bpp_scan::probe::{get_codec_name, select_video_stream, ProbeResult, StreamInfo};
use bpp_scan::report::{color_text, severity_color, Color};
use bpp_scan::text::{parse_number, str_ends_with_ignore_case, str_eq_ignore_case};

fn stream(
    codec_type: Option<&str>,
    codec_name: Option<&str>,
    width: Option<u32>,
    height: Option<u32>,
    r_frame_rate: Option<&str>,
    bit_rate: Option<&str>,
    tags: Option<Vec<(&str, &str)>>,
) -> StreamInfo {
    StreamInfo {
        codec_type: codec_type.map(|s| s.to_string()),
        codec_name: codec_name.map(|s| s.to_string()),
        width,
        height,
        r_frame_rate: r_frame_rate.map(|s| s.to_string()),
        bit_rate: bit_rate.map(|s| s.to_string()),
        tags: tags.map(|v| {
            v.into_iter().map(|(k, x)| (k.to_string(), x.to_string())).collect()
        }),
    }
}

fn video_stream(bit_rate: Option<&str>, fr: &str) -> StreamInfo {
    stream(Some("video"), Some("h264"), Some(1920), Some(1080), Some(fr), bit_rate, None)
}

#[test]
fn frame_rate_fraction_exact() {
    let f = parse_frame_rate("25/1").unwrap();
    assert!(!f.neg);
    assert_eq!(f.num, 25);
    assert_eq!(f.den, 1);
    let f = parse_frame_rate("24000/1001").unwrap();
    assert_eq!(f.num, 24000);
    assert_eq!(f.den, 1001);
}

#[test]
fn frame_rate_zero_denominator_rejected() {
    assert!(parse_frame_rate("25/0").is_none());
    assert!(parse_frame_rate("0/0").is_none());
}

#[test]
fn frame_rate_bare_integer() {
    let f = parse_frame_rate("30").unwrap();
    assert!(!f.neg);
    assert_eq!(f.num, 30);
    assert_eq!(f.den, 1);
}

#[test]
fn frame_rate_decimal_and_negative() {
    let f = parse_frame_rate("29.97").unwrap();
    assert_eq!(f.num, 2997);
    assert_eq!(f.den, 100);
    let f = parse_frame_rate("-25").unwrap();
    assert!(f.neg);
    assert_eq!(f.num, 25);
}

#[test]
fn frame_rate_malformed_rejected() {
    assert!(parse_frame_rate("abc").is_none());
    assert!(parse_frame_rate("").is_none());
    assert!(parse_frame_rate("1/2/3").is_none());
    assert!(parse_frame_rate("25.").is_none());
}

#[test]
fn parse_number_decimal() {
    let p = parse_number("12.5").unwrap();
    assert!(!p.neg);
    assert_eq!(p.num, 125);
    assert_eq!(p.den, 10);
    assert!(parse_number("1e5").is_none());
}

#[test]
fn bpp_without_video_stream_is_none() {
    let probe = ProbeResult { streams: vec![] };
    assert!(compute_bpp(&probe).is_none());
    let probe = ProbeResult {
        streams: vec![stream(Some("audio"), Some("aac"), None, None, None, Some("128000"), None)],
    };
    assert!(compute_bpp(&probe).is_none());
}

#[test]
fn bpp_without_dimensions_is_none() {
    let probe = ProbeResult {
        streams: vec![stream(Some("video"), Some("h264"), None, Some(1080), Some("25/1"), Some("1000"), None)],
    };
    assert!(select_video_stream(&probe).is_none());
    assert!(compute_bpp(&probe).is_none());
}

#[test]
fn bpp_degenerate_values_are_none() {
    // zero width
    let probe = ProbeResult {
        streams: vec![stream(Some("video"), None, Some(0), Some(1080), Some("25/1"), Some("1000"), None)],
    };
    assert!(compute_bpp(&probe).is_none());
    // zero frame rate
    let probe = ProbeResult { streams: vec![video_stream(Some("1000"), "0")] };
    assert!(compute_bpp(&probe).is_none());
    // negative frame rate
    let probe = ProbeResult { streams: vec![video_stream(Some("1000"), "-25")] };
    assert!(compute_bpp(&probe).is_none());
    // zero bitrate after fallback (no bit_rate, no tags)
    let probe = ProbeResult { streams: vec![video_stream(None, "25/1")] };
    assert!(compute_bpp(&probe).is_none());
    // negative bitrate
    let probe = ProbeResult { streams: vec![video_stream(Some("-8000"), "25/1")] };
    assert!(compute_bpp(&probe).is_none());
}

#[test]
fn bpp_exact_value() {
    // 8 Mb/s at 1920x1080, 25 fps: 8000000 / 51840000 = 0.15432...
    let probe = ProbeResult { streams: vec![video_stream(Some("8000000"), "25/1")] };
    let b = compute_bpp(&probe).unwrap();
    assert_eq!(b.num, 8_000_000);
    assert_eq!(b.den, 51_840_000);
    // as a percentage in hundredths: 15.43%
    assert_eq!(b.num * 10000 / b.den, 1543);
}

#[test]
fn bpp_uses_bps_tag_fallback() {
    let s = stream(
        Some("video"),
        Some("h264"),
        Some(1920),
        Some(1080),
        Some("25/1"),
        None,
        Some(vec![("BPS", "8000000")]),
    );
    let probe = ProbeResult { streams: vec![s] };
    let b = compute_bpp(&probe).unwrap();
    assert_eq!(b.num, 8_000_000);
    assert_eq!(b.den, 51_840_000);
}

#[test]
fn bpp_unparseable_bitrate_falls_back() {
    let s = stream(
        Some("video"),
        Some("h264"),
        Some(1920),
        Some(1080),
        Some("25/1"),
        Some("N/A"),
        Some(vec![("BPS", "8000000")]),
    );
    let probe = ProbeResult { streams: vec![s] };
    let b = compute_bpp(&probe).unwrap();
    assert_eq!(b.num, 8_000_000);
}

#[test]
fn bpp_selects_first_video_stream_with_dimensions() {
    let audio = stream(Some("audio"), Some("aac"), None, None, None, None, None);
    let bare = stream(Some("video"), Some("mjpeg"), None, None, None, None, None);
    let real = video_stream(Some("1000000"), "50/1");
    let probe = ProbeResult { streams: vec![audio, bare, real] };
    assert_eq!(select_video_stream(&probe), Some(2));
    let b = compute_bpp(&probe).unwrap();
    assert_eq!(b.num, 1_000_000);
    assert_eq!(b.den, 1920 * 1080 * 50);
}

#[test]
fn codec_name_comes_from_first_video_stream() {
    let audio = stream(Some("audio"), Some("aac"), None, None, None, None, None);
    let bare = stream(Some("video"), Some("av1"), None, None, None, None, None);
    let real = video_stream(Some("1000"), "25/1");
    let probe = ProbeResult { streams: vec![audio, bare, real] };
    assert_eq!(get_codec_name(&probe), Some("av1".to_string()));
    let probe = ProbeResult {
        streams: vec![stream(Some("audio"), Some("aac"), None, None, None, None, None)],
    };
    assert_eq!(get_codec_name(&probe), None);
}

#[test]
fn codec_classification_is_case_insensitive() {
    for name in ["av1", "AV1", "Av1"] {
        assert!(is_optimal_codec(&Some(name.to_string())), "{name}");
    }
    assert!(!is_optimal_codec(&Some("h264".to_string())));
    assert!(!is_optimal_codec(&Some("hevc".to_string())));
    assert!(!is_optimal_codec(&None));
}

#[test]
fn video_file_extension_classification() {
    assert!(is_video_file("a.mp4"));
    assert!(is_video_file("dir/b.MKV"));
    assert!(is_video_file("c.WebM"));
    assert!(!is_video_file("d.txt"));
    assert!(!is_video_file("noext"));
    assert!(!is_video_file(".hidden"));
    assert!(!is_video_file("trailingdot."));
}

#[test]
fn marker_detection_is_case_insensitive() {
    assert!(should_skip_file("movie_AV1.mp4"));
    assert!(should_skip_file("dir/movie_av1.mkv"));
    assert!(!should_skip_file("movie.mp4"));
    assert!(!should_skip_file("av1_movie.mp4"));
}

#[test]
fn marking_is_idempotent_for_discovery() {
    let original = "shows/episode 2.mp4";
    assert!(is_eligible(original));
    let marked = rename_target(original, "_AV1");
    assert_eq!(marked, "shows/episode 2_AV1.mp4");
    assert!(!is_eligible(&marked));
    let paths = vec![original.to_string(), marked.clone()];
    assert_eq!(filter_eligible(&paths), vec![original.to_string()]);
}

#[test]
fn rename_target_shapes() {
    assert_eq!(rename_target("dir/a.mp4", "_AV1"), "dir/a_AV1.mp4");
    assert_eq!(rename_target("dir/file", "_AV1"), "dir/file_AV1");
    assert_eq!(rename_target("a.b.mkv", "_AV1"), "a.b_AV1.mkv");
}

#[test]
fn rename_never_overwrites() {
    let r = plan_rename("dir/a.mp4", "_AV1", true);
    assert!(matches!(r, Err(RenameError::TargetExists)));
    let r = plan_rename("dir/a.mp4", "_AV1", false);
    assert_eq!(r.unwrap(), "dir/a_AV1.mp4");
}

#[test]
fn natural_ordering_of_numbered_names() {
    let input = vec!["a2.mp4".to_string(), "a10.mp4".to_string(), "a1.mp4".to_string()];
    let sorted = sort_natural(&input);
    assert_eq!(sorted, vec!["a1.mp4".to_string(), "a2.mp4".to_string(), "a10.mp4".to_string()]);
}

#[test]
fn natural_compare_rules() {
    assert!(natural_compare("file2", "file10") < 0);
    assert!(natural_compare("file10", "file2") > 0);
    assert!(natural_compare("a", "b") < 0);
    assert_eq!(natural_compare("same", "same"), 0);
    assert_eq!(natural_compare("a02", "a2"), 0);
    assert!(natural_compare("a2b", "a2c") < 0);
}

#[test]
fn discovery_filters_non_videos() {
    let paths = vec!["d/a.mp4".to_string(), "d/b.txt".to_string()];
    assert_eq!(filter_eligible(&paths), vec!["d/a.mp4".to_string()]);
}

#[test]
fn batch_isolates_failures() {
    let good = ProbeResult { streams: vec![video_stream(Some("8000000"), "25/1")] };
    let probes = vec![None, Some(good)];
    let actions = plan_batch(&probes);
    assert_eq!(actions.len(), 2);
    assert!(matches!(actions[0], FileAction::SkipFailed));
    match &actions[1] {
        FileAction::Report(Some(b)) => assert_eq!(b.num, 8_000_000),
        _ => panic!("unexpected action"),
    }
    assert!(batch_may_proceed(2));
    assert!(!batch_may_proceed(0));
}

#[test]
fn optimal_codec_is_marked() {
    let av1 = stream(Some("video"), Some("AV1"), Some(1920), Some(1080), Some("25/1"), Some("1"), None);
    let probe = ProbeResult { streams: vec![av1] };
    let a = decide_action(&Some(probe));
    assert!(matches!(a, FileAction::Mark));
}

#[test]
fn severity_thresholds() {
    let low = Bpp { num: 1, den: 20 };
    assert!(matches!(severity_of(&low), Some(Severity::Low)));
    let caution = Bpp { num: 12, den: 100 };
    assert!(matches!(severity_of(&caution), Some(Severity::Caution)));
    let high = Bpp { num: 1, den: 5 };
    assert!(matches!(severity_of(&high), Some(Severity::High)));
    // exactly ten percent is no longer "low"
    let edge = Bpp { num: 1, den: 10 };
    assert!(matches!(severity_of(&edge), Some(Severity::Caution)));
    // exactly fifteen percent is "high"
    let edge = Bpp { num: 3, den: 20 };
    assert!(matches!(severity_of(&edge), Some(Severity::High)));
}

#[test]
fn severity_colors() {
    assert!(matches!(severity_color(&Severity::Low), Color::Green));
    assert!(matches!(severity_color(&Severity::Caution), Color::Yellow));
    assert!(matches!(severity_color(&Severity::High), Color::Red));
}

#[test]
fn color_codes_and_text() {
    assert_eq!(Color::Red.code(), 31);
    assert_eq!(Color::Green.code(), 32);
    assert_eq!(Color::Blue.code(), 34);
    assert_eq!(Color::Yellow.code(), 33);
    assert_eq!(Color::Magenta.code(), 35);
    assert_eq!(Color::Cyan.code(), 36);
    assert_eq!(Color::Custom(97).code(), 97);
    assert_eq!(color_text("hi", Color::Red), "\x1b[31mhi\x1b[0m");
    assert_eq!(color_text("x", Color::Custom(7)), "\x1b[7mx\x1b[0m");
    assert_eq!(color_text("x", Color::Custom(123)), "\x1b[123mx\x1b[0m");
}

#[test]
fn case_insensitive_text_helpers() {
    assert!(str_eq_ignore_case("AV1", "av1"));
    assert!(!str_eq_ignore_case("av1", "av2"));
    assert!(str_ends_with_ignore_case("movie_av1", "_AV1"));
    assert!(!str_ends_with_ignore_case("movie", "_AV1"));
}
