//! The metric engine: frame-rate parsing, bitrate selection with its tag
//! fallback, and the exact bits-per-pixel ratio with its degenerate-value
//! rules.

use vstd::prelude::*;
use crate::text::{
    spec_parse_number, parse_number, ParsedNumber, lemma_parse_number_parts, all_digits,
    digits_val, is_digit,
};
use crate::probe::{
    StreamInfo, ProbeResult, is_first_metric_stream, is_metric_stream, select_video_stream,
    lemma_first_metric_unique,
};

verus! {

/// Index of the first `/` of `s`, or `s.len()` when there is none.
pub open spec fn first_slash(s: Seq<char>) -> int
    decreases s.len(),
{
    if s.len() == 0 {
        0
    } else if s[0] == '/' {
        0
    } else {
        1 + first_slash(s.skip(1))
    }
}

pub proof fn lemma_first_slash_props(s: Seq<char>)
    ensures
        0 <= first_slash(s) <= s.len(),
        first_slash(s) < s.len() ==> s[first_slash(s)] == '/',
        forall|m: int| 0 <= m < first_slash(s) ==> s[m] != '/',
    decreases s.len(),
{
    if s.len() > 0 && s[0] != '/' {
        lemma_first_slash_props(s.skip(1));
        assert forall|m: int| 0 <= m < first_slash(s) implies s[m] != '/' by {
            if m > 0 {
                assert(s.skip(1)[m - 1] == s[m]);
            }
        }
        if first_slash(s) < s.len() {
            assert(s.skip(1)[first_slash(s) - 1] == s[first_slash(s)]);
        }
    }
}

fn find_first_slash(s: &str) -> (r: usize)
    ensures
        r == first_slash(s@),
{
    let len = s.unicode_len();
    let mut i: usize = 0;
    while i < len
        invariant
            len == s@.len(),
            0 <= i <= len,
            forall|m: int| 0 <= m < i ==> s@[m] != '/',
        decreases len - i,
    {
        if s.get_char(i) == '/' {
            proof {
                lemma_first_slash_props(s@);
                if first_slash(s@) < i {
                    assert(s@[first_slash(s@)] == '/');
                }
            }
            return i;
        }
        i += 1;
    }
    proof {
        lemma_first_slash_props(s@);
        if first_slash(s@) < len {
            assert(s@[first_slash(s@)] == '/');
        }
    }
    len
}

/// A parsed decimal restricted to what the executable parser represents:
/// numerator and denominator at most `u64::MAX`.
pub open spec fn spec_parse_number_fit(s: Seq<char>) -> Option<(bool, int, int)> {
    match spec_parse_number(s) {
        Some(t) => if t.1 <= u64::MAX as int && t.2 <= u64::MAX as int {
            Some(t)
        } else {
            None
        },
        None => None,
    }
}

/// Exact value of a frame-rate expression: either a fraction "N/D"
/// (undefined when D is zero) or a bare decimal, as sign, numerator and
/// denominator.
pub open spec fn spec_parse_frame_rate(s: Seq<char>) -> Option<(bool, int, int)> {
    let k = first_slash(s);
    if k < s.len() {
        match (spec_parse_number_fit(s.take(k)), spec_parse_number_fit(s.skip(k + 1))) {
            (Some(a), Some(b)) => if b.1 == 0 {
                None
            } else {
                Some(((a.0 != b.0), a.1 * b.2, a.2 * b.1))
            },
            _ => None,
        }
    } else {
        spec_parse_number_fit(s)
    }
}

/// A frame rate as an exact signed rational.
pub struct FrameRate {
    pub neg: bool,
    pub num: u64,
    pub den: u64,
}

/// Parses a frame-rate expression: "N/D" yields N/D when D is not zero, a
/// bare decimal yields its value; anything else — and any value whose exact
/// numerator or denominator exceeds `u64::MAX` — yields nothing.
pub fn parse_frame_rate(s: &str) -> (r: Option<FrameRate>)
    ensures
        (match spec_parse_frame_rate(s@) {
            Option::None => r is None,
            Option::Some(t) => {
                if t.1 <= u64::MAX as int && t.2 <= u64::MAX as int {
                    r matches Some(f) && f.neg == t.0 && f.num == t.1 && f.den == t.2
                } else {
                    r is None
                }
            },
        }),
        r matches Some(f) ==> f.den >= 1,
{
    let len = s.unicode_len();
    let k = find_first_slash(s);
    proof {
        lemma_first_slash_props(s@);
    }
    if k < len {
        let nstr = s.substring_char(0, k);
        let dstr = s.substring_char(k + 1, len);
        proof {
            assert(nstr@ =~= s@.take(k as int));
            assert(dstr@ =~= s@.skip(k as int + 1));
        }
        let a = match parse_number(nstr) {
            Some(a) => a,
            None => {
                return None;
            },
        };
        let b = match parse_number(dstr) {
            Some(b) => b,
            None => {
                return None;
            },
        };
        if b.num == 0 {
            return None;
        }
        proof {
            lemma_parse_number_parts(nstr@);
            lemma_parse_number_parts(dstr@);
        }
        let num = match a.num.checked_mul(b.den) {
            Some(v) => v,
            None => {
                return None;
            },
        };
        let den = match a.den.checked_mul(b.num) {
            Some(v) => v,
            None => {
                return None;
            },
        };
        proof {
            assert(den >= 1) by (nonlinear_arith)
                requires
                    den == a.den * b.num,
                    a.den >= 1,
                    b.num >= 1,
            ;
        }
        Some(FrameRate { neg: a.neg != b.neg, num, den })
    } else {
        match parse_number(s) {
            Some(a) => {
                proof {
                    lemma_parse_number_parts(s@);
                }
                Some(FrameRate { neg: a.neg, num: a.num, den: a.den })
            },
            None => None,
        }
    }
}

/// First value of `tags` stored under `key` (exact match), if any.
pub open spec fn spec_tag_lookup(tags: Seq<(String, String)>, key: Seq<char>) -> Option<String>
    decreases tags.len(),
{
    if tags.len() == 0 {
        None
    } else if tags[0].0@ == key {
        Some(tags[0].1)
    } else {
        spec_tag_lookup(tags.skip(1), key)
    }
}

proof fn lemma_tag_lookup_skip(tags: Seq<(String, String)>, key: Seq<char>, i: int)
    requires
        0 <= i <= tags.len(),
        forall|j: int| 0 <= j < i ==> tags[j].0@ != key,
    ensures
        spec_tag_lookup(tags, key) == spec_tag_lookup(tags.skip(i), key),
    decreases i,
{
    if i == 0 {
        assert(tags.skip(0) =~= tags);
    } else {
        lemma_tag_lookup_skip(tags, key, i - 1);
        let u = tags.skip(i - 1);
        assert(u.len() > 0);
        assert(u[0] == tags[i - 1]);
        assert(u[0].0@ != key);
        assert(spec_tag_lookup(u, key) == spec_tag_lookup(u.skip(1), key));
        assert(u.skip(1) =~= tags.skip(i));
        assert(spec_tag_lookup(u.skip(1), key) == spec_tag_lookup(tags.skip(i), key));
        assert(spec_tag_lookup(tags, key) == spec_tag_lookup(u, key));
    }
}

fn tag_lookup<'a>(tags: &'a Vec<(String, String)>, key: &str) -> (r: Option<&'a String>)
    ensures
        (match r {
            Some(v) => spec_tag_lookup(tags@, key@) == Some(*v),
            None => spec_tag_lookup(tags@, key@) is None,
        }),
{
    let kq = String::from_str(key);
    let n = tags.len();
    let mut i: usize = 0;
    while i < n
        invariant
            n == tags@.len(),
            kq@ == key@,
            0 <= i <= n,
            forall|j: int| 0 <= j < i ==> tags@[j].0@ != key@,
        decreases n - i,
    {
        if tags[i].0 == kq {
            proof {
                lemma_tag_lookup_skip(tags@, key@, i as int);
                assert(tags@.skip(i as int)[0] == tags@[i as int]);
            }
            return Some(&tags[i].1);
        }
        i += 1;
    }
    proof {
        lemma_tag_lookup_skip(tags@, key@, n as int);
        assert(tags@.skip(n as int).len() == 0);
    }
    None
}

/// The bitrate recovered from the stream's tag map under key "BPS", or zero.
pub open spec fn spec_bitrate_tags(s: StreamInfo) -> (bool, int, int) {
    match s.tags {
        Some(tags) => match spec_tag_lookup(tags@, "BPS"@) {
            Some(v) => match spec_parse_number_fit(v@) {
                Some(t) => t,
                None => (false, 0int, 1int),
            },
            None => (false, 0int, 1int),
        },
        None => (false, 0int, 1int),
    }
}

/// The stream's bitrate: its direct bit-rate field when parseable, else the
/// "BPS" tag when present and parseable, else zero.
pub open spec fn spec_bitrate(s: StreamInfo) -> (bool, int, int) {
    match s.bit_rate {
        Some(b) => match spec_parse_number_fit(b@) {
            Some(t) => t,
            None => spec_bitrate_tags(s),
        },
        None => spec_bitrate_tags(s),
    }
}

fn bitrate_from_tags(s: &StreamInfo) -> (r: ParsedNumber)
    ensures
        ({
            let t = spec_bitrate_tags(*s);
            r.neg == t.0 && r.num == t.1 && r.den == t.2
        }),
        r.den >= 1,
{
    match &s.tags {
        Some(tags) => match tag_lookup(tags, "BPS") {
            Some(v) => match parse_number(v.as_str()) {
                Some(p) => {
                    proof {
                        lemma_parse_number_parts(v@);
                    }
                    p
                },
                None => ParsedNumber { neg: false, num: 0, den: 1 },
            },
            None => ParsedNumber { neg: false, num: 0, den: 1 },
        },
        None => ParsedNumber { neg: false, num: 0, den: 1 },
    }
}

fn bitrate_of(s: &StreamInfo) -> (r: ParsedNumber)
    ensures
        ({
            let t = spec_bitrate(*s);
            r.neg == t.0 && r.num == t.1 && r.den == t.2
        }),
        r.den >= 1,
{
    match &s.bit_rate {
        Some(b) => match parse_number(b.as_str()) {
            Some(p) => {
                proof {
                    lemma_parse_number_parts(b@);
                }
                p
            },
            None => bitrate_from_tags(s),
        },
        None => bitrate_from_tags(s),
    }
}

/// A frame rate restricted to what the executable parser represents.
pub open spec fn spec_frame_rate_fit(s: Seq<char>) -> Option<(bool, int, int)> {
    match spec_parse_frame_rate(s) {
        Some(t) => if t.1 <= u64::MAX as int && t.2 <= u64::MAX as int {
            Some(t)
        } else {
            None
        },
        None => None,
    }
}

/// An exact bits-per-pixel ratio; always strictly positive.
pub struct Bpp {
    pub num: u128,
    pub den: u128,
}

/// The exact BPP of one stream: bitrate / (width * height * fps), defined
/// only when the frame-rate expression is present and parses, and width,
/// height, frame rate and bitrate (after the tag fallback) are all strictly
/// positive.
pub open spec fn spec_stream_bpp(s: StreamInfo) -> Option<(int, int)> {
    match (s.width, s.height, s.r_frame_rate) {
        (Some(w), Some(h), Some(fr)) => match spec_frame_rate_fit(fr@) {
            Some(f) => {
                let br = spec_bitrate(s);
                if !f.0 && f.1 > 0 && !br.0 && br.1 > 0 && w > 0 && h > 0 {
                    Some((br.1 * f.2, br.2 * w * h * f.1))
                } else {
                    None
                }
            },
            None => None,
        },
        _ => None,
    }
}

/// The BPP of a probe: that of the first video stream reporting both
/// dimensions; nothing when no such stream exists.
pub open spec fn spec_compute_bpp(p: ProbeResult) -> Option<(int, int)> {
    if exists|i: int| is_first_metric_stream(p.streams@, i) {
        spec_stream_bpp(p.streams@[choose|i: int| is_first_metric_stream(p.streams@, i)])
    } else {
        None
    }
}

/// Computes the exact BPP ratio of the probed file, or nothing when no video
/// stream with both dimensions exists, the frame rate is absent, malformed
/// or not positive, the bitrate is not positive after its fallback, a
/// dimension is zero, or the exact denominator exceeds `u128::MAX`.
pub fn compute_bpp(probe: &ProbeResult) -> (r: Option<Bpp>)
    ensures
        (match spec_compute_bpp(*probe) {
            Option::None => r is None,
            Option::Some(nd) => {
                if nd.1 <= u128::MAX as int {
                    r matches Some(b) && b.num == nd.0 && b.den == nd.1
                } else {
                    r is None
                }
            },
        }),
        r matches Some(b) ==> b.num > 0 && b.den > 0,
{
    let idx = match select_video_stream(probe) {
        Some(i) => i,
        None => {
            proof {
                if exists|i: int| is_first_metric_stream(probe.streams@, i) {
                    let i = choose|i: int| is_first_metric_stream(probe.streams@, i);
                    assert(is_metric_stream(probe.streams@[i]));
                }
            }
            return None;
        },
    };
    proof {
        assert(exists|i: int| is_first_metric_stream(probe.streams@, i));
        let c = choose|i: int| is_first_metric_stream(probe.streams@, i);
        lemma_first_metric_unique(probe.streams@, c, idx as int);
    }
    let s = &probe.streams[idx];
    let w = match s.width {
        Some(w) => w,
        None => {
            return None;
        },
    };
    let h = match s.height {
        Some(h) => h,
        None => {
            return None;
        },
    };
    let frs = match &s.r_frame_rate {
        Some(x) => x,
        None => {
            return None;
        },
    };
    let f = match parse_frame_rate(frs.as_str()) {
        Some(f) => f,
        None => {
            return None;
        },
    };
    let br = bitrate_of(s);
    if f.neg || f.num == 0 {
        return None;
    }
    if br.neg || br.num == 0 {
        return None;
    }
    if w == 0 || h == 0 {
        return None;
    }
    proof {
        assert((br.num as int) * (f.den as int) <= u128::MAX as int) by (nonlinear_arith)
            requires
                br.num <= u64::MAX,
                f.den <= u64::MAX,
        ;
        assert((br.num as int) * (f.den as int) >= 1) by (nonlinear_arith)
            requires
                br.num >= 1,
                f.den >= 1,
        ;
    }
    let num: u128 = (br.num as u128) * (f.den as u128);
    proof {
        assert((br.den as int) * (w as int) <= u64::MAX as int * u32::MAX as int)
            by (nonlinear_arith)
            requires
                br.den <= u64::MAX,
                w <= u32::MAX,
        ;
        assert(u64::MAX as int * u32::MAX as int <= u128::MAX as int) by (nonlinear_arith);
    }
    let d1: u128 = (br.den as u128) * (w as u128);
    proof {
        assert((d1 as int) * (h as int) <= (u64::MAX as int * u32::MAX as int) * (
        u32::MAX as int)) by (nonlinear_arith)
            requires
                d1 <= u64::MAX as int * u32::MAX as int,
                h <= u32::MAX,
        ;
        assert((u64::MAX as int * u32::MAX as int) * (u32::MAX as int) <= u128::MAX as int)
            by (nonlinear_arith);
    }
    let d2: u128 = d1 * (h as u128);
    let den = match d2.checked_mul(f.num as u128) {
        Some(v) => v,
        None => {
            return None;
        },
    };
    proof {
        assert(den >= 1) by (nonlinear_arith)
            requires
                den == br.den as int * w as int * h as int * f.num as int,
                br.den >= 1,
                w >= 1,
                h >= 1,
                f.num >= 1,
        ;
    }
    Some(Bpp { num, den })
}

/// Severity of a BPP ratio for re-encoding advice.
pub enum Severity {
    /// Below ten percent: efficiently encoded.
    Low,
    /// At least ten and below fifteen percent.
    Caution,
    /// Fifteen percent or more: re-encoding recommended.
    High,
}

/// Severity of the ratio `num / den`: low below 1/10, caution below 3/20,
/// high from 3/20 on.
pub open spec fn spec_severity(num: int, den: int) -> Severity {
    if num * 10 < den {
        Severity::Low
    } else if num * 20 < den * 3 {
        Severity::Caution
    } else {
        Severity::High
    }
}

/// Classifies a BPP ratio whose parts fit in 64 bits; yields nothing for the
/// out-of-range ratios that no real stream produces.
pub fn severity_of(b: &Bpp) -> (r: Option<Severity>)
    ensures
        b.num <= u64::MAX && b.den <= u64::MAX ==> (r matches Some(sv) && sv == spec_severity(
            b.num as int,
            b.den as int,
        )),
        (b.num > u64::MAX || b.den > u64::MAX) ==> r is None,
{
    if b.num > u64::MAX as u128 || b.den > u64::MAX as u128 {
        return None;
    }
    if b.num * 10 < b.den {
        Some(Severity::Low)
    } else if b.num * 20 < b.den * 3 {
        Some(Severity::Caution)
    } else {
        Some(Severity::High)
    }
}

/// Law: a fraction "N/D" of plain digit runs parses to exactly N/D when D is
/// not zero, and to nothing when D is zero.
pub proof fn lemma_frame_rate_fraction(n: Seq<char>, d: Seq<char>)
    requires
        n.len() > 0,
        all_digits(n),
        digits_val(n) <= u64::MAX as int,
        d.len() > 0,
        all_digits(d),
        digits_val(d) <= u64::MAX as int,
    ensures
        digits_val(d) != 0 ==> spec_parse_frame_rate(n + seq!['/'] + d) == Some(
            (false, digits_val(n), digits_val(d)),
        ),
        digits_val(d) == 0 ==> spec_parse_frame_rate(n + seq!['/'] + d) is None,
{
    let s = n + seq!['/'] + d;
    lemma_first_slash_props(s);
    let k = first_slash(s);
    assert(s[n.len() as int] == '/');
    if k < n.len() {
        assert(s[k] == n[k]);
        assert(is_digit(n[k]));
    } else if k > n.len() {
        assert(k <= s.len());
    }
    assert(k == n.len());
    assert(s.take(k) =~= n);
    assert(s.skip(k + 1) =~= d);
    assert(n[0] != '-' && all_digits(n));
    assert(spec_parse_number(n) == Some((false, digits_val(n), 1int)));
    assert(d[0] != '-');
    assert(spec_parse_number(d) == Some((false, digits_val(d), 1int)));
    lemma_parse_number_parts(n);
    lemma_parse_number_parts(d);
    if digits_val(d) != 0 {
        assert(spec_parse_frame_rate(s) == Some(
            ((false != false), digits_val(n) * 1int, 1int * digits_val(d)),
        ));
    }
}

/// Law: a bare digit run "K" parses as the frame rate K exactly.
pub proof fn lemma_frame_rate_bare(k: Seq<char>)
    requires
        k.len() > 0,
        all_digits(k),
        digits_val(k) <= u64::MAX as int,
    ensures
        spec_parse_frame_rate(k) == Some((false, digits_val(k), 1int)),
{
    lemma_first_slash_props(k);
    if first_slash(k) < k.len() {
        assert(is_digit(k[first_slash(k)]));
    }
    assert(k[0] != '-');
    assert(spec_parse_number(k) == Some((false, digits_val(k), 1int)));
}

} // verus!
