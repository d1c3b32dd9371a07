//! File discovery: filtering walked entries down to eligible video files and
//! ordering them naturally, so that embedded numeric runs compare by value
//! ("file2" before "file10") while other characters compare by code point.

use vstd::prelude::*;
use crate::paths::{spec_eligible, is_eligible};
use crate::text::{
    is_digit, all_digits, digits_val, digit_val, pow10, lemma_digits_val_nonneg,
    lemma_digits_val_concat, lemma_pow10_pos, lemma_pow10_mono,
};

verus! {

/// Keeps, in order, exactly the eligible video files of `paths`.
pub fn filter_eligible(paths: &Vec<String>) -> (r: Vec<String>)
    ensures
        r@ == paths@.filter(|p: String| spec_eligible(p@)),
{
    let n = paths.len();
    let mut out: Vec<String> = Vec::new();
    let mut i: usize = 0;
    proof {
        reveal(Seq::filter);
        assert(paths@.take(0) =~= Seq::<String>::empty());
    }
    while i < n
        invariant
            n == paths@.len(),
            0 <= i <= n,
            out@ == paths@.take(i as int).filter(|p: String| spec_eligible(p@)),
        decreases n - i,
    {
        let keep = is_eligible(paths[i].as_str());
        proof {
            reveal(Seq::filter);
            assert(paths@.take(i as int + 1).drop_last() =~= paths@.take(i as int));
            assert(paths@.take(i as int + 1).last() == paths@[i as int]);
        }
        if keep {
            out.push(paths[i].clone());
        }
        i += 1;
    }
    proof {
        assert(paths@.take(n as int) =~= paths@);
    }
    out
}

/// Length of the leading digit run of `s`.
pub open spec fn run_len(s: Seq<char>) -> int
    decreases s.len(),
{
    if s.len() == 0 || !is_digit(s[0]) {
        0
    } else {
        1 + run_len(s.skip(1))
    }
}

pub proof fn lemma_run_len_props(s: Seq<char>)
    ensures
        0 <= run_len(s) <= s.len(),
        s.len() > 0 && is_digit(s[0]) ==> run_len(s) >= 1,
        all_digits(s.take(run_len(s))),
        run_len(s) < s.len() ==> !is_digit(s[run_len(s)]),
    decreases s.len(),
{
    if s.len() > 0 && is_digit(s[0]) {
        lemma_run_len_props(s.skip(1));
        let r = run_len(s);
        assert(all_digits(s.take(r))) by {
            assert forall|i: int| 0 <= i < r implies is_digit(s.take(r)[i]) by {
                if i > 0 {
                    assert(s[i] == s.skip(1)[i - 1]);
                    assert(s.skip(1).take(run_len(s.skip(1)))[i - 1] == s.skip(1)[i - 1]);
                }
            }
        }
        if r < s.len() {
            assert(s[r] == s.skip(1)[r - 1]);
        }
    }
}

/// Natural comparison of two strings: a shared leading digit run compares by
/// numeric value, other positions by code point. Negative for "before", zero
/// for "same", positive for "after".
pub open spec fn nat_cmp(a: Seq<char>, b: Seq<char>) -> int
    decreases a.len() + b.len() via nat_cmp_decreases
{
    if a.len() == 0 && b.len() == 0 {
        0
    } else if a.len() == 0 {
        -1
    } else if b.len() == 0 {
        1
    } else if is_digit(a[0]) && is_digit(b[0]) {
        let va = digits_val(a.take(run_len(a)));
        let vb = digits_val(b.take(run_len(b)));
        if va < vb {
            -1
        } else if va > vb {
            1
        } else {
            nat_cmp(a.skip(run_len(a)), b.skip(run_len(b)))
        }
    } else if a[0] as u32 == b[0] as u32 {
        nat_cmp(a.skip(1), b.skip(1))
    } else if (a[0] as u32) < (b[0] as u32) {
        -1
    } else {
        1
    }
}

#[via_fn]
proof fn nat_cmp_decreases(a: Seq<char>, b: Seq<char>) {
    if a.len() > 0 && b.len() > 0 && is_digit(a[0]) && is_digit(b[0]) {
        lemma_run_len_props(a);
        lemma_run_len_props(b);
    }
}

/// The comparison is antisymmetric: swapping the arguments flips the sign.
pub proof fn lemma_nat_cmp_antisym(a: Seq<char>, b: Seq<char>)
    ensures
        nat_cmp(b, a) == -nat_cmp(a, b),
    decreases a.len() + b.len(),
{
    if a.len() > 0 && b.len() > 0 {
        if is_digit(a[0]) && is_digit(b[0]) {
            lemma_run_len_props(a);
            lemma_run_len_props(b);
            let va = digits_val(a.take(run_len(a)));
            let vb = digits_val(b.take(run_len(b)));
            if va == vb {
                lemma_nat_cmp_antisym(a.skip(run_len(a)), b.skip(run_len(b)));
            }
        } else if a[0] as u32 == b[0] as u32 {
            lemma_nat_cmp_antisym(a.skip(1), b.skip(1));
        }
    }
}

/// A digit string reads below ten to its length.
pub proof fn lemma_digits_val_upper(s: Seq<char>)
    requires
        all_digits(s),
    ensures
        digits_val(s) < pow10(s.len()),
    decreases s.len(),
{
    if s.len() == 0 {
    } else {
        assert(all_digits(s.drop_last()));
        lemma_digits_val_upper(s.drop_last());
        assert(is_digit(s.last()));
        assert(digit_val(s.last()) <= 9);
        assert(digits_val(s.drop_last()) <= pow10((s.len() - 1) as nat) - 1);
        assert(digits_val(s) <= (pow10((s.len() - 1) as nat) - 1) * 10 + 9) by (nonlinear_arith)
            requires
                digits_val(s) == digits_val(s.drop_last()) * 10 + digit_val(s.last()),
                digits_val(s.drop_last()) <= pow10((s.len() - 1) as nat) - 1,
                digit_val(s.last()) <= 9,
        ;
        assert(pow10(s.len()) == 10 * pow10((s.len() - 1) as nat));
    }
}

/// A digit string whose first digit is not zero reads at least ten to one
/// less than its length.
pub proof fn lemma_digits_val_lower(s: Seq<char>)
    requires
        all_digits(s),
        s.len() > 0,
        digit_val(s[0]) >= 1,
    ensures
        digits_val(s) >= pow10((s.len() - 1) as nat),
{
    let hd = seq![s[0]];
    let t = s.skip(1);
    assert(s =~= hd + t);
    lemma_digits_val_concat(hd, t);
    assert(all_digits(t));
    lemma_digits_val_nonneg(t);
    assert(hd.drop_last() =~= Seq::<char>::empty());
    assert(hd.last() == s[0]);
    assert(digits_val(Seq::<char>::empty()) == 0);
    assert(digits_val(hd) == digits_val(hd.drop_last()) * 10 + digit_val(hd.last()));
    assert(digits_val(hd) == digit_val(s[0]));
    lemma_pow10_pos(t.len());
    assert(digits_val(s) >= 1 * pow10(t.len()) + 0) by (nonlinear_arith)
        requires
            digits_val(s) == digits_val(hd) * pow10(t.len()) + digits_val(t),
            digits_val(hd) >= 1,
            digits_val(t) >= 0,
            pow10(t.len()) >= 1,
    ;
}

/// Leading zero digits do not change what a digit string reads as.
pub proof fn lemma_zeros_prefix(s: Seq<char>, k: int)
    requires
        all_digits(s),
        0 <= k <= s.len(),
        forall|j: int| 0 <= j < k ==> digit_val(s[j]) == 0,
    ensures
        digits_val(s) == digits_val(s.skip(k)),
{
    assert(s =~= s.take(k) + s.skip(k));
    lemma_digits_val_concat(s.take(k), s.skip(k));
    assert(digits_val(s.take(k)) == 0) by {
        lemma_zeros_val(s.take(k));
    }
}

proof fn lemma_zeros_val(s: Seq<char>)
    requires
        forall|j: int| 0 <= j < s.len() ==> digit_val(s[j]) == 0,
    ensures
        digits_val(s) == 0,
    decreases s.len(),
{
    if s.len() > 0 {
        lemma_zeros_val(s.drop_last());
    }
}

/// Equal-length digit strings compare by their first differing digit.
pub proof fn lemma_digits_val_lex(a: Seq<char>, b: Seq<char>)
    requires
        all_digits(a),
        all_digits(b),
        a.len() == b.len(),
        a.len() > 0,
        digit_val(a[0]) < digit_val(b[0]),
    ensures
        digits_val(a) < digits_val(b),
{
    let ha = seq![a[0]];
    let hb = seq![b[0]];
    let ta = a.skip(1);
    let tb = b.skip(1);
    assert(a =~= ha + ta);
    assert(b =~= hb + tb);
    lemma_digits_val_concat(ha, ta);
    lemma_digits_val_concat(hb, tb);
    assert(all_digits(ta));
    assert(all_digits(tb));
    assert(ha.drop_last() =~= Seq::<char>::empty());
    assert(ha.last() == a[0]);
    assert(hb.drop_last() =~= Seq::<char>::empty());
    assert(hb.last() == b[0]);
    assert(digits_val(Seq::<char>::empty()) == 0);
    assert(digits_val(ha) == digits_val(ha.drop_last()) * 10 + digit_val(ha.last()));
    assert(digits_val(hb) == digits_val(hb.drop_last()) * 10 + digit_val(hb.last()));
    assert(digits_val(ha) == digit_val(a[0]));
    assert(digits_val(hb) == digit_val(b[0]));
    lemma_digits_val_upper(ta);
    lemma_digits_val_nonneg(tb);
    let p = pow10(ta.len());
    lemma_pow10_pos(ta.len());
    assert(digits_val(a) < digits_val(b)) by (nonlinear_arith)
        requires
            digits_val(a) == digit_val(a[0]) * p + digits_val(ta),
            digits_val(b) == digit_val(b[0]) * p + digits_val(tb),
            digits_val(ta) < p,
            digits_val(tb) >= 0,
            digit_val(a[0]) + 1 <= digit_val(b[0]),
            p >= 1,
    ;
}

/// Length of the run of `'0'` characters at the front of `s`.
fn scan_zero_run(s: &str) -> (r: usize)
    ensures
        0 <= r <= s@.len(),
        forall|m: int| 0 <= m < r ==> digit_val(s@[m]) == 0,
        r < s@.len() ==> digit_val(s@[r as int]) != 0,
{
    let len = s.unicode_len();
    let mut r: usize = 0;
    let mut go = true;
    while go
        invariant
            len == s@.len(),
            0 <= r <= len,
            forall|m: int| 0 <= m < r ==> digit_val(s@[m]) == 0,
            !go ==> (r == len || digit_val(s@[r as int]) != 0),
        decreases len - r + (if go {
            1int
        } else {
            0int
        }),
    {
        if r < len {
            let c = s.get_char(r);
            if c as u32 == 48 {
                r += 1;
            } else {
                go = false;
            }
        } else {
            go = false;
        }
    }
    r
}

/// Compares two digit runs by numeric value: negative, zero or positive as
/// the first reads below, equal to or above the second.
fn cmp_digit_runs(a: &str, b: &str) -> (r: i32)
    requires
        all_digits(a@),
        all_digits(b@),
    ensures
        r < 0 <==> digits_val(a@) < digits_val(b@),
        r == 0 <==> digits_val(a@) == digits_val(b@),
        r > 0 <==> digits_val(a@) > digits_val(b@),
{
    let la = a.unicode_len();
    let lb = b.unicode_len();
    let i = scan_zero_run(a);
    let j = scan_zero_run(b);
    proof {
        lemma_zeros_prefix(a@, i as int);
        lemma_zeros_prefix(b@, j as int);
        assert(all_digits(a@.skip(i as int)));
        assert(all_digits(b@.skip(j as int)));
    }
    let ea = la - i;
    let eb = lb - j;
    if ea == 0 && eb == 0 {
        return 0;
    }
    if ea == 0 {
        proof {
            assert(b@.skip(j as int)[0] == b@[j as int]);
            lemma_digits_val_lower(b@.skip(j as int));
            lemma_pow10_pos(((eb - 1)) as nat);
        }
        return -1;
    }
    if eb == 0 {
        proof {
            assert(a@.skip(i as int)[0] == a@[i as int]);
            lemma_digits_val_lower(a@.skip(i as int));
            lemma_pow10_pos(((ea - 1)) as nat);
        }
        return 1;
    }
    proof {
        assert(a@.skip(i as int)[0] == a@[i as int]);
        assert(b@.skip(j as int)[0] == b@[j as int]);
    }
    if ea < eb {
        proof {
            lemma_digits_val_upper(a@.skip(i as int));
            lemma_digits_val_lower(b@.skip(j as int));
            lemma_pow10_mono(ea as nat, ((eb - 1)) as nat);
        }
        return -1;
    }
    if eb < ea {
        proof {
            lemma_digits_val_upper(b@.skip(j as int));
            lemma_digits_val_lower(a@.skip(i as int));
            lemma_pow10_mono(eb as nat, ((ea - 1)) as nat);
        }
        return 1;
    }
    // equal effective length: compare digit by digit
    let mut k: usize = 0;
    while k < ea
        invariant
            la == a@.len(),
            lb == b@.len(),
            all_digits(a@),
            all_digits(b@),
            i <= la,
            j <= lb,
            ea == la - i,
            eb == lb - j,
            ea == eb,
            ea > 0,
            digits_val(a@) == digits_val(a@.skip(i as int)),
            digits_val(b@) == digits_val(b@.skip(j as int)),
            0 <= k <= ea,
            forall|m: int| 0 <= m < k ==> a@.skip(i as int)[m] == b@.skip(j as int)[m],
        decreases ea - k,
    {
        let ca = a.get_char(i + k);
        let cb = b.get_char(j + k);
        proof {
            assert(a@[i + k] == a@.skip(i as int)[k as int]);
            assert(b@[j + k] == b@.skip(j as int)[k as int]);
        }
        if (ca as u32) != (cb as u32) {
            proof {
                let sa = a@.skip(i as int);
                let sb = b@.skip(j as int);
                let ra = sa.skip(k as int);
                let rb = sb.skip(k as int);
                assert(sa =~= sa.take(k as int) + ra);
                assert(sb =~= sb.take(k as int) + rb);
                assert(sa.take(k as int) =~= sb.take(k as int));
                lemma_digits_val_concat(sa.take(k as int), ra);
                lemma_digits_val_concat(sb.take(k as int), rb);
                assert(all_digits(ra));
                assert(all_digits(rb));
                assert(ra[0] == sa[k as int]);
                assert(rb[0] == sb[k as int]);
                assert(ra.len() == rb.len());
                if (ca as u32) < (cb as u32) {
                    lemma_digits_val_lex(ra, rb);
                } else {
                    lemma_digits_val_lex(rb, ra);
                }
            }
            if (ca as u32) < (cb as u32) {
                return -1;
            } else {
                return 1;
            }
        }
        k += 1;
    }
    proof {
        assert(a@.skip(i as int) =~= b@.skip(j as int));
    }
    0
}

/// Length of the leading digit run of `s`, by scanning.
fn scan_digit_run(s: &str) -> (r: usize)
    ensures
        0 <= r <= s@.len(),
        forall|m: int| 0 <= m < r ==> is_digit(s@[m]),
        r < s@.len() ==> !is_digit(s@[r as int]),
{
    let len = s.unicode_len();
    let mut r: usize = 0;
    let mut go = true;
    while go
        invariant
            len == s@.len(),
            0 <= r <= len,
            forall|m: int| 0 <= m < r ==> is_digit(s@[m]),
            !go ==> (r == len || !is_digit(s@[r as int])),
        decreases len - r + (if go {
            1int
        } else {
            0int
        }),
    {
        if r < len {
            let c = s.get_char(r);
            if 48 <= c as u32 && c as u32 <= 57 {
                r += 1;
            } else {
                go = false;
            }
        } else {
            go = false;
        }
    }
    r
}

/// A scanned digit-run length equals `run_len`.
proof fn lemma_run_len_exact(s: Seq<char>, k: int)
    requires
        0 <= k <= s.len(),
        forall|m: int| 0 <= m < k ==> is_digit(s[m]),
        k < s.len() ==> !is_digit(s[k]),
    ensures
        run_len(s) == k,
    decreases k,
{
    if k == 0 {
    } else {
        assert(is_digit(s[0]));
        lemma_run_len_exact(s.skip(1), k - 1);
        assert forall|m: int| 0 <= m < k - 1 implies is_digit(s.skip(1)[m]) by {
            assert(s.skip(1)[m] == s[m + 1]);
        }
    }
}

/// Natural comparison of two path strings, per `nat_cmp`.
pub fn natural_compare(a: &str, b: &str) -> (r: i32)
    ensures
        r < 0 <==> nat_cmp(a@, b@) < 0,
        r == 0 <==> nat_cmp(a@, b@) == 0,
        r > 0 <==> nat_cmp(a@, b@) > 0,
    decreases a@.len() + b@.len(),
{
    let la = a.unicode_len();
    let lb = b.unicode_len();
    if la == 0 && lb == 0 {
        return 0;
    }
    if la == 0 {
        return -1;
    }
    if lb == 0 {
        return 1;
    }
    let ca = a.get_char(0);
    let cb = b.get_char(0);
    let da = 48 <= ca as u32 && ca as u32 <= 57;
    let db = 48 <= cb as u32 && cb as u32 <= 57;
    if da && db {
        let ra = scan_digit_run(a);
        let rb = scan_digit_run(b);
        proof {
            lemma_run_len_exact(a@, ra as int);
            lemma_run_len_exact(b@, rb as int);
        }
        let runa = a.substring_char(0, ra);
        let runb = b.substring_char(0, rb);
        proof {
            assert(runa@ =~= a@.take(ra as int));
            assert(runb@ =~= b@.take(rb as int));
            lemma_run_len_props(a@);
            lemma_run_len_props(b@);
        }
        let c = cmp_digit_runs(runa, runb);
        if c != 0 {
            return c;
        }
        let resta = a.substring_char(ra, la);
        let restb = b.substring_char(rb, lb);
        proof {
            assert(resta@ =~= a@.skip(ra as int));
            assert(restb@ =~= b@.skip(rb as int));
        }
        natural_compare(resta, restb)
    } else if (ca as u32) == (cb as u32) {
        let resta = a.substring_char(1, la);
        let restb = b.substring_char(1, lb);
        proof {
            assert(resta@ =~= a@.skip(1));
            assert(restb@ =~= b@.skip(1));
        }
        natural_compare(resta, restb)
    } else if (ca as u32) < (cb as u32) {
        -1
    } else {
        1
    }
}

/// The batch order: adjacent entries stand in natural order.
pub open spec fn nat_sorted(s: Seq<String>) -> bool {
    forall|i: int| 0 <= i && i + 1 < s.len() ==> #[trigger] nat_cmp(s[i]@, s[i + 1]@) <= 0
}

/// Sorts paths into natural order (adjacent entries ordered, same contents).
pub fn sort_natural(paths: &Vec<String>) -> (r: Vec<String>)
    ensures
        nat_sorted(r@),
        r@.to_multiset() == paths@.to_multiset(),
{
    let n = paths.len();
    let mut out: Vec<String> = Vec::new();
    let mut i: usize = 0;
    proof {
        assert(paths@.take(0) =~= Seq::<String>::empty());
    }
    while i < n
        invariant
            n == paths@.len(),
            0 <= i <= n,
            nat_sorted(out@),
            out@.to_multiset() == paths@.take(i as int).to_multiset(),
        decreases n - i,
    {
        let x = paths[i].clone();
        let ghost before = out@;
        let mut j: usize = out.len();
        let mut searching = true;
        while searching && j > 0
            invariant
                out@ == before,
                0 <= j <= out@.len(),
                forall|k: int| j <= k < out@.len() ==> nat_cmp(x@, #[trigger] out@[k]@) <= 0,
                !searching ==> j > 0 && nat_cmp(out@[j - 1]@, x@) <= 0,
            decreases j + (if searching {
                1int
            } else {
                0int
            }),
        {
            if natural_compare(out[j - 1].as_str(), x.as_str()) <= 0 {
                searching = false;
            } else {
                proof {
                    lemma_nat_cmp_antisym(out@[j - 1]@, x@);
                }
                j -= 1;
            }
        }
        proof {
            assert(out@.insert(j as int, x) =~= out@.take(j as int).push(x) + out@.skip(j as int));
        }
        out.insert(j, x);
        proof {
            let newv = before.take(j as int).push(x) + before.skip(j as int);
            assert(out@ == newv);
            assert forall|k: int| 0 <= k && k + 1 < newv.len() implies #[trigger] nat_cmp(
                newv[k]@,
                newv[k + 1]@,
            ) <= 0 by {
                if k + 1 < j {
                    assert(newv[k] == before[k]);
                    assert(newv[k + 1] == before[k + 1]);
                    assert(nat_cmp(before[k]@, before[k + 1]@) <= 0);
                } else if k + 1 == j {
                    assert(newv[k] == before[k]);
                    assert(newv[k + 1] == x);
                    assert(nat_cmp(before[k]@, x@) <= 0);
                } else if k == j {
                    assert(newv[k] == x);
                    assert(newv[k + 1] == before[k]);
                    assert(nat_cmp(x@, before[k]@) <= 0);
                } else {
                    let m = k - 1;
                    assert(newv[k] == before[m]);
                    assert(newv[k + 1] == before[m + 1]);
                    assert(nat_cmp(before[m]@, before[m + 1]@) <= 0);
                }
            }
            // contents: inserting adds exactly one occurrence of x
            before.take(j as int).to_multiset_ensures();
            paths@.take(i as int).to_multiset_ensures();
            assert(before =~= before.take(j as int) + before.skip(j as int));
            vstd::seq_lib::lemma_multiset_commutative(before.take(j as int), before.skip(j as int));
            vstd::seq_lib::lemma_multiset_commutative(
                before.take(j as int).push(x),
                before.skip(j as int),
            );
            assert(before.take(j as int).push(x).to_multiset() =~= before.take(
                j as int,
            ).to_multiset().insert(x));
            assert(paths@.take(i as int + 1).drop_last() =~= paths@.take(i as int));
            assert(paths@.take(i as int + 1) =~= paths@.take(i as int).push(paths@[i as int]));
            assert(paths@.take(i as int + 1).to_multiset() =~= paths@.take(
                i as int,
            ).to_multiset().insert(paths@[i as int]));
            assert(out@.to_multiset() =~= paths@.take(i as int + 1).to_multiset());
        }
        i += 1;
    }
    proof {
        assert(paths@.take(n as int) =~= paths@);
    }
    out
}

} // verus!
