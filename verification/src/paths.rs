//! Path classification and rename marking: which paths count as video files,
//! which already bear the "processed" marker, and how the marker is inserted
//! into a file name.

use vstd::prelude::*;
use crate::text::{
    seq_eq_ignore_case, seq_ends_with_ignore_case, str_eq_ignore_case, str_ends_with_ignore_case,
};

verus! {

/// Index of the first character of the file name: one past the last `/`
/// (0 when the path holds no `/`).
pub open spec fn file_name_start(p: Seq<char>) -> int
    decreases p.len(),
{
    if p.len() == 0 {
        0
    } else if p.last() == '/' {
        p.len() as int
    } else {
        file_name_start(p.drop_last())
    }
}

pub proof fn lemma_file_name_start_props(p: Seq<char>)
    ensures
        0 <= file_name_start(p) <= p.len(),
        file_name_start(p) > 0 ==> p[file_name_start(p) - 1] == '/',
        forall|m: int| file_name_start(p) <= m < p.len() ==> p[m] != '/',
    decreases p.len(),
{
    if p.len() > 0 && p.last() != '/' {
        lemma_file_name_start_props(p.drop_last());
        assert forall|m: int| file_name_start(p) <= m < p.len() implies p[m] != '/' by {
            if m < p.len() - 1 {
                assert(p.drop_last()[m] == p[m]);
            }
        }
        if file_name_start(p) > 0 {
            assert(p.drop_last()[file_name_start(p) - 1] == p[file_name_start(p) - 1]);
        }
    }
}

/// Index of the last `.` of `s`, or -1 when `s` holds none.
pub open spec fn last_dot(s: Seq<char>) -> int
    decreases s.len(),
{
    if s.len() == 0 {
        -1
    } else if s.last() == '.' {
        s.len() - 1
    } else {
        last_dot(s.drop_last())
    }
}

pub proof fn lemma_last_dot_props(s: Seq<char>)
    ensures
        -1 <= last_dot(s) < s.len(),
        last_dot(s) >= 0 ==> s[last_dot(s)] == '.',
        forall|m: int| last_dot(s) < m < s.len() ==> s[m] != '.',
    decreases s.len(),
{
    if s.len() > 0 && s.last() != '.' {
        lemma_last_dot_props(s.drop_last());
        assert forall|m: int| last_dot(s) < m < s.len() implies s[m] != '.' by {
            if m < s.len() - 1 {
                assert(s.drop_last()[m] == s[m]);
            }
        }
        if last_dot(s) >= 0 {
            assert(s.drop_last()[last_dot(s)] == s[last_dot(s)]);
        }
    }
}

/// The file-name part of a path: everything after the last `/`.
pub open spec fn spec_file_name(p: Seq<char>) -> Seq<char> {
    p.skip(file_name_start(p))
}

/// The base name: the file name up to its last dot, when that dot is not the
/// first character; else the whole file name.
pub open spec fn spec_stem(p: Seq<char>) -> Seq<char> {
    let n = spec_file_name(p);
    if last_dot(n) > 0 {
        n.take(last_dot(n))
    } else {
        n
    }
}

/// The file name splits into a base name and an extension.
pub open spec fn spec_has_ext(p: Seq<char>) -> bool {
    last_dot(spec_file_name(p)) > 0
}

/// The extension: what follows the last dot of the file name (empty when
/// there is none).
pub open spec fn spec_ext(p: Seq<char>) -> Seq<char> {
    let n = spec_file_name(p);
    if last_dot(n) > 0 {
        n.skip(last_dot(n) + 1)
    } else {
        Seq::<char>::empty()
    }
}

/// The fixed set of recognized video-container extensions, case-insensitive.
pub open spec fn is_video_ext(e: Seq<char>) -> bool {
    ||| seq_eq_ignore_case(e, "mp4"@)
    ||| seq_eq_ignore_case(e, "mkv"@)
    ||| seq_eq_ignore_case(e, "avi"@)
    ||| seq_eq_ignore_case(e, "mov"@)
    ||| seq_eq_ignore_case(e, "wmv"@)
    ||| seq_eq_ignore_case(e, "flv"@)
    ||| seq_eq_ignore_case(e, "webm"@)
    ||| seq_eq_ignore_case(e, "m4v"@)
    ||| seq_eq_ignore_case(e, "ts"@)
    ||| seq_eq_ignore_case(e, "mts"@)
    ||| seq_eq_ignore_case(e, "m2ts"@)
    ||| seq_eq_ignore_case(e, "mpg"@)
    ||| seq_eq_ignore_case(e, "mpeg"@)
    ||| seq_eq_ignore_case(e, "3gp"@)
    ||| seq_eq_ignore_case(e, "ogv"@)
    ||| seq_eq_ignore_case(e, "rmvb"@)
    ||| seq_eq_ignore_case(e, "vob"@)
}

/// The path names a file with a recognized video extension.
pub open spec fn spec_is_video_file(p: Seq<char>) -> bool {
    spec_has_ext(p) && is_video_ext(spec_ext(p))
}

/// The base name already ends with the "processed" marker suffix.
pub open spec fn spec_should_skip(p: Seq<char>) -> bool {
    seq_ends_with_ignore_case(spec_stem(p), "_AV1"@)
}

/// A path takes part in a run: a video file not yet marked as processed.
pub open spec fn spec_eligible(p: Seq<char>) -> bool {
    spec_is_video_file(p) && !spec_should_skip(p)
}

/// Finds where the file name starts: one past the last `/`.
fn find_name_start(p: &str) -> (r: usize)
    ensures
        r == file_name_start(p@),
{
    let len = p.unicode_len();
    let mut i: usize = len;
    loop
        invariant
            len == p@.len(),
            0 <= i <= len,
            forall|m: int| i <= m < len ==> p@[m] != '/',
        decreases i,
    {
        if i == 0 {
            proof {
                lemma_file_name_start_props(p@);
            }
            return 0;
        }
        if p.get_char(i - 1) == '/' {
            proof {
                lemma_file_name_start_props(p@);
                if file_name_start(p@) < i {
                    assert(p@[i - 1] != '/');
                }
            }
            return i;
        }
        i -= 1;
    }
}

/// Finds the last `.` of `s`, if any.
fn find_last_dot(s: &str) -> (r: Option<usize>)
    ensures
        (match r {
            Some(k) => last_dot(s@) == k,
            None => last_dot(s@) == -1,
        }),
{
    let len = s.unicode_len();
    let mut i: usize = len;
    loop
        invariant
            len == s@.len(),
            0 <= i <= len,
            forall|m: int| i <= m < len ==> s@[m] != '.',
        decreases i,
    {
        if i == 0 {
            proof {
                lemma_last_dot_props(s@);
            }
            return None;
        }
        if s.get_char(i - 1) == '.' {
            proof {
                lemma_last_dot_props(s@);
                if last_dot(s@) < i - 1 {
                    assert(s@[i - 1] != '.');
                }
            }
            return Some(i - 1);
        }
        i -= 1;
    }
}

/// The extension is one of the recognized video-container extensions.
fn ext_is_video(e: &str) -> (r: bool)
    ensures
        r == is_video_ext(e@),
{
    str_eq_ignore_case(e, "mp4") || str_eq_ignore_case(e, "mkv") || str_eq_ignore_case(e, "avi")
        || str_eq_ignore_case(e, "mov") || str_eq_ignore_case(e, "wmv") || str_eq_ignore_case(
        e,
        "flv",
    ) || str_eq_ignore_case(e, "webm") || str_eq_ignore_case(e, "m4v") || str_eq_ignore_case(
        e,
        "ts",
    ) || str_eq_ignore_case(e, "mts") || str_eq_ignore_case(e, "m2ts") || str_eq_ignore_case(
        e,
        "mpg",
    ) || str_eq_ignore_case(e, "mpeg") || str_eq_ignore_case(e, "3gp") || str_eq_ignore_case(
        e,
        "ogv",
    ) || str_eq_ignore_case(e, "rmvb") || str_eq_ignore_case(e, "vob")
}

/// True iff the path has a recognized video extension (case-insensitive).
pub fn is_video_file(path: &str) -> (r: bool)
    ensures
        r == spec_is_video_file(path@),
{
    let len = path.unicode_len();
    let ns = find_name_start(path);
    proof {
        lemma_file_name_start_props(path@);
    }
    let name = path.substring_char(ns, len);
    proof {
        assert(name@ =~= spec_file_name(path@));
    }
    let nlen = name.unicode_len();
    match find_last_dot(name) {
        Some(ld) => {
            proof {
                lemma_last_dot_props(name@);
            }
            if ld > 0 {
                let ext = name.substring_char(ld + 1, nlen);
                proof {
                    assert(ext@ =~= spec_ext(path@));
                }
                ext_is_video(ext)
            } else {
                false
            }
        },
        None => false,
    }
}

/// True iff the base name already carries the marker suffix
/// (case-insensitive).
pub fn should_skip_file(path: &str) -> (r: bool)
    ensures
        r == spec_should_skip(path@),
{
    let len = path.unicode_len();
    let ns = find_name_start(path);
    proof {
        lemma_file_name_start_props(path@);
    }
    let name = path.substring_char(ns, len);
    proof {
        assert(name@ =~= spec_file_name(path@));
    }
    match find_last_dot(name) {
        Some(ld) => {
            proof {
                lemma_last_dot_props(name@);
            }
            if ld > 0 {
                let stem = name.substring_char(0, ld);
                proof {
                    assert(stem@ =~= spec_stem(path@));
                    lemma_last_dot_props(name@);
                }
                str_ends_with_ignore_case(stem, "_AV1")
            } else {
                proof {
                    assert(name@ =~= spec_stem(path@));
                }
                str_ends_with_ignore_case(name, "_AV1")
            }
        },
        None => {
            proof {
                assert(name@ =~= spec_stem(path@));
            }
            str_ends_with_ignore_case(name, "_AV1")
        },
    }
}

/// Eligibility for a run: a video file that is not yet marked.
pub fn is_eligible(path: &str) -> (r: bool)
    ensures
        r == spec_eligible(path@),
{
    is_video_file(path) && !should_skip_file(path)
}

/// The marked name: the suffix goes between the base name and the extension;
/// with an empty or missing extension it is simply appended to the base name.
pub open spec fn spec_rename_target(p: Seq<char>, suf: Seq<char>) -> Seq<char> {
    let ns = file_name_start(p);
    let n = p.skip(ns);
    let ld = last_dot(n);
    if ld > 0 && ld < n.len() - 1 {
        p.take(ns + ld) + suf + p.skip(ns + ld)
    } else if ld > 0 {
        p.take(ns + ld) + suf
    } else {
        p + suf
    }
}

/// Builds the marked file name for `path`.
pub fn rename_target(path: &str, suffix: &str) -> (r: String)
    ensures
        r@ == spec_rename_target(path@, suffix@),
{
    let len = path.unicode_len();
    let ns = find_name_start(path);
    proof {
        lemma_file_name_start_props(path@);
    }
    let name = path.substring_char(ns, len);
    proof {
        assert(name@ =~= spec_file_name(path@));
    }
    let nlen = name.unicode_len();
    match find_last_dot(name) {
        Some(ld) => {
            proof {
                lemma_last_dot_props(name@);
            }
            if ld > 0 && ld + 1 < nlen {
                let head = path.substring_char(0, ns + ld);
                let tail = path.substring_char(ns + ld, len);
                proof {
                    assert(head@ =~= path@.take(ns + ld));
                    assert(tail@ =~= path@.skip(ns + ld));
                }
                String::from_str(head).concat(suffix).concat(tail)
            } else if ld > 0 {
                let head = path.substring_char(0, ns + ld);
                proof {
                    assert(head@ =~= path@.take(ns + ld));
                }
                String::from_str(head).concat(suffix)
            } else {
                String::from_str(path).concat(suffix)
            }
        },
        None => String::from_str(path).concat(suffix),
    }
}

/// Why a rename is refused.
#[derive(Debug)]
pub enum RenameError {
    /// A file already occupies the computed target name; renaming would
    /// overwrite it.
    TargetExists,
}

/// Decides a marking rename. `target_exists` reports whether the computed
/// target name is already taken; in that case the rename is refused and the
/// original file is to be left untouched.
pub fn plan_rename(path: &str, suffix: &str, target_exists: bool) -> (r: Result<
    String,
    RenameError,
>)
    ensures
        target_exists ==> (r matches Err(RenameError::TargetExists)),
        !target_exists ==> (r matches Ok(t) && t@ == spec_rename_target(path@, suffix@)),
{
    if target_exists {
        Err(RenameError::TargetExists)
    } else {
        Ok(rename_target(path, suffix))
    }
}

} // verus!

verus! {

/// Law: marking is idempotent in effect. The marked name of an eligible
/// video file bears the marker in its base name, so discovery excludes it on
/// a subsequent run.
pub proof fn lemma_marking_idempotent(p: Seq<char>)
    requires
        spec_eligible(p),
    ensures
        spec_should_skip(spec_rename_target(p, "_AV1"@)),
        !spec_eligible(spec_rename_target(p, "_AV1"@)),
{
    reveal_strlit("_AV1");
    reveal_strlit("mp4");
    reveal_strlit("mkv");
    reveal_strlit("avi");
    reveal_strlit("mov");
    reveal_strlit("wmv");
    reveal_strlit("flv");
    reveal_strlit("webm");
    reveal_strlit("m4v");
    reveal_strlit("ts");
    reveal_strlit("mts");
    reveal_strlit("m2ts");
    reveal_strlit("mpg");
    reveal_strlit("mpeg");
    reveal_strlit("3gp");
    reveal_strlit("ogv");
    reveal_strlit("rmvb");
    reveal_strlit("vob");
    let suf = "_AV1"@;
    assert(suf.len() == 4);
    let ns = file_name_start(p);
    let n = spec_file_name(p);
    let ld = last_dot(n);
    lemma_file_name_start_props(p);
    lemma_last_dot_props(n);
    // an eligible file has a non-empty extension
    assert(ld > 0);
    assert(spec_ext(p).len() > 0);
    assert(ld < n.len() - 1);
    let t = p.take(ns + ld) + suf + p.skip(ns + ld);
    assert(spec_rename_target(p, suf) == t);
    assert(t.len() == p.len() + 4);
    // the file name of the target starts where it did in `p`
    assert(forall|m: int| 0 <= m < ns + ld ==> t[m] == p[m]);
    assert(forall|m: int| 0 <= m < 4 ==> t[ns + ld + m] == suf[m]);
    assert(forall|m: int| ns + ld <= m < p.len() ==> t[m + 4] == p[m]);
    assert forall|m: int| ns <= m < t.len() implies t[m] != '/' by {
        if m < ns + ld {
            assert(t[m] == p[m]);
        } else if m < ns + ld + 4 {
            assert(t[m] == suf[m - ns - ld]);
        } else {
            assert(t[m] == p[m - 4]);
        }
    }
    lemma_file_name_start_props(t);
    let nst = file_name_start(t);
    if nst > ns {
        assert(t[nst - 1] == '/');
    }
    if nst < ns {
        assert(p[ns - 1] == '/');
        assert(t[ns - 1] == p[ns - 1]);
    }
    assert(nst == ns);
    let nt = spec_file_name(t);
    assert(nt.len() == n.len() + 4);
    // the last dot of the marked name is the one before the extension
    lemma_last_dot_props(nt);
    let ldt = last_dot(nt);
    assert(nt[ld + 4] == t[ns + ld + 4]);
    assert(t[ns + ld + 4] == p[ns + ld]);
    assert(p[ns + ld] == n[ld]);
    assert(nt[ld + 4] == '.');
    assert(ldt >= ld + 4);
    if ldt > ld + 4 {
        assert(nt[ldt] == t[ns + ldt]);
        assert(t[ns + ldt] == p[ns + ldt - 4]);
        assert(p[ns + ldt - 4] == n[ldt - 4]);
        assert(n[ldt - 4] != '.');
        assert(nt[ldt] == '.');
    }
    assert(ldt == ld + 4);
    // the base name of the marked name ends with the marker
    let st = spec_stem(t);
    assert(st == nt.take(ld + 4));
    assert(st.len() == ld + 4);
    assert forall|m: int| 0 <= m < 4 implies st[st.len() - 4 + m] == suf[m] by {
        assert(st[ld + m] == nt[ld + m]);
        assert(nt[ld + m] == t[ns + ld + m]);
        assert(t[ns + ld + m] == suf[m]);
    }
    assert(st.skip(st.len() - 4) =~= suf);
    assert(crate::text::seq_eq_ignore_case(st.skip(st.len() - 4), suf));
    assert(spec_should_skip(t));
}

} // verus!
