//! Character-level utilities: ASCII case folding and exact decimal parsing.
//!
//! Numbers are modelled as exact rationals: a parsed decimal string yields a
//! numerator and a power-of-ten denominator, so every contract can speak of
//! the value `num / den` without floating point.

use vstd::prelude::*;

verus! {

/// Code point of `c` after ASCII upper-casing (non-ASCII-lowercase characters
/// are left as they are).
pub open spec fn upper_u32(c: char) -> u32 {
    if 97 <= c as u32 && c as u32 <= 122 {
        (c as u32 - 32) as u32
    } else {
        c as u32
    }
}

/// The two character sequences are equal up to ASCII case.
pub open spec fn seq_eq_ignore_case(a: Seq<char>, b: Seq<char>) -> bool {
    a.len() == b.len() && forall|i: int| 0 <= i < a.len() ==> upper_u32(a[i]) == upper_u32(b[i])
}

/// `s` ends with `suffix`, up to ASCII case.
pub open spec fn seq_ends_with_ignore_case(s: Seq<char>, suffix: Seq<char>) -> bool {
    s.len() >= suffix.len() && seq_eq_ignore_case(s.skip(s.len() - suffix.len()), suffix)
}

fn upper_code(c: char) -> (r: u32)
    ensures
        r == upper_u32(c),
{
    let u = c as u32;
    if 97 <= u && u <= 122 {
        u - 32
    } else {
        u
    }
}

/// Case-insensitive (ASCII) string equality.
pub fn str_eq_ignore_case(a: &str, b: &str) -> (r: bool)
    ensures
        r == seq_eq_ignore_case(a@, b@),
{
    let alen = a.unicode_len();
    let blen = b.unicode_len();
    if alen != blen {
        return false;
    }
    let mut i: usize = 0;
    while i < alen
        invariant
            alen == a@.len(),
            blen == b@.len(),
            alen == blen,
            0 <= i <= alen,
            forall|j: int| 0 <= j < i ==> upper_u32(a@[j]) == upper_u32(b@[j]),
        decreases alen - i,
    {
        if upper_code(a.get_char(i)) != upper_code(b.get_char(i)) {
            return false;
        }
        i += 1;
    }
    true
}

/// Case-insensitive (ASCII) suffix test.
pub fn str_ends_with_ignore_case(s: &str, suffix: &str) -> (r: bool)
    ensures
        r == seq_ends_with_ignore_case(s@, suffix@),
{
    let slen = s.unicode_len();
    let xlen = suffix.unicode_len();
    if slen < xlen {
        return false;
    }
    let off: usize = slen - xlen;
    let mut i: usize = 0;
    while i < xlen
        invariant
            slen == s@.len(),
            xlen == suffix@.len(),
            off == slen - xlen,
            0 <= i <= xlen,
            forall|j: int| 0 <= j < i ==> upper_u32(s@[off + j]) == upper_u32(suffix@[j]),
        decreases xlen - i,
    {
        if upper_code(s.get_char(off + i)) != upper_code(suffix.get_char(i)) {
            assert(s@.skip(off as int)[i as int] == s@[off + i]);
            return false;
        }
        i += 1;
    }
    assert forall|j: int| 0 <= j < xlen implies upper_u32(s@.skip(off as int)[j]) == upper_u32(
        suffix@[j],
    ) by {
        assert(s@.skip(off as int)[j] == s@[off + j]);
    }
    true
}

/// `c` is a decimal digit.
pub open spec fn is_digit(c: char) -> bool {
    48 <= c as u32 && c as u32 <= 57
}

/// Numeric value of a digit character.
pub open spec fn digit_val(c: char) -> int {
    c as u32 - 48
}

/// Every character of `s` is a decimal digit.
pub open spec fn all_digits(s: Seq<char>) -> bool {
    forall|i: int| 0 <= i < s.len() ==> is_digit(s[i])
}

/// Value of a digit string read in base ten.
pub open spec fn digits_val(s: Seq<char>) -> int
    decreases s.len(),
{
    if s.len() == 0 {
        0
    } else {
        digits_val(s.drop_last()) * 10 + digit_val(s.last())
    }
}

/// Ten to the `k`.
pub open spec fn pow10(k: nat) -> int
    decreases k,
{
    if k == 0 {
        1
    } else {
        10 * pow10((k - 1) as nat)
    }
}

pub proof fn lemma_pow10_pos(k: nat)
    ensures
        pow10(k) >= 1,
    decreases k,
{
    if k > 0 {
        lemma_pow10_pos((k - 1) as nat);
    }
}

pub proof fn lemma_digits_val_nonneg(s: Seq<char>)
    requires
        all_digits(s),
    ensures
        digits_val(s) >= 0,
    decreases s.len(),
{
    if s.len() > 0 {
        assert(all_digits(s.drop_last()));
        lemma_digits_val_nonneg(s.drop_last());
    }
}

/// Reading a concatenation of digit strings: the left part is scaled by ten
/// to the length of the right part.
pub proof fn lemma_digits_val_concat(a: Seq<char>, b: Seq<char>)
    ensures
        digits_val(a + b) == digits_val(a) * pow10(b.len()) + digits_val(b),
    decreases b.len(),
{
    if b.len() == 0 {
        assert(a + b =~= a);
    } else {
        lemma_digits_val_concat(a, b.drop_last());
        assert((a + b).drop_last() =~= a + b.drop_last());
        assert((a + b).last() == b.last());
        assert(digits_val(a + b) == (digits_val(a) * pow10((b.len() - 1) as nat) + digits_val(
            b.drop_last(),
        )) * 10 + digit_val(b.last()));
        assert(digits_val(a) * pow10((b.len() - 1) as nat) * 10 == digits_val(a) * pow10(b.len()))
            by (nonlinear_arith)
            requires
                pow10(b.len()) == 10 * pow10((b.len() - 1) as nat),
        ;
        assert(digits_val(a + b) == digits_val(a) * pow10(b.len()) + digits_val(b))
            by (nonlinear_arith)
            requires
                digits_val(a + b) == (digits_val(a) * pow10((b.len() - 1) as nat) + digits_val(
                    b.drop_last(),
                )) * 10 + digit_val(b.last()),
                digits_val(a) * pow10((b.len() - 1) as nat) * 10 == digits_val(a) * pow10(b.len()),
                digits_val(b) == digits_val(b.drop_last()) * 10 + digit_val(b.last()),
        ;
    }
}

/// A prefix of a digit string never reads as more than the whole string.
pub proof fn lemma_digits_val_prefix(s: Seq<char>, i: int)
    requires
        all_digits(s),
        0 <= i <= s.len(),
    ensures
        digits_val(s.take(i)) <= digits_val(s),
{
    let a = s.take(i);
    let b = s.skip(i);
    assert(s =~= a + b);
    lemma_digits_val_concat(a, b);
    assert(all_digits(a));
    assert(all_digits(b));
    lemma_digits_val_nonneg(a);
    lemma_digits_val_nonneg(b);
    lemma_pow10_pos(b.len());
    assert(digits_val(a) * pow10(b.len()) >= digits_val(a)) by (nonlinear_arith)
        requires
            digits_val(a) >= 0,
            pow10(b.len()) >= 1,
    ;
}

/// A valid split of a decimal string at a dot: non-empty digit runs on both
/// sides of position `i`, which holds the only dot.
pub open spec fn split_ok(s: Seq<char>, i: int) -> bool {
    &&& 0 < i < s.len() - 1
    &&& s[i] == '.'
    &&& all_digits(s.take(i))
    &&& all_digits(s.skip(i + 1))
}

/// Exact value of an unsigned decimal string as a rational
/// numerator/denominator pair; `None` when the string is not a plain decimal
/// (digits with at most one interior dot).
pub open spec fn spec_parse_unsigned(s: Seq<char>) -> Option<(int, int)> {
    if s.len() > 0 && all_digits(s) {
        Some((digits_val(s), 1int))
    } else if exists|i: int| split_ok(s, i) {
        let i = choose|i: int| split_ok(s, i);
        Some((digits_val(s.take(i) + s.skip(i + 1)), pow10(s.skip(i + 1).len())))
    } else {
        None
    }
}

/// Exact signed value of a decimal string, as sign, numerator and
/// denominator.
pub open spec fn spec_parse_number(s: Seq<char>) -> Option<(bool, int, int)> {
    if s.len() > 0 && s[0] == '-' {
        match spec_parse_unsigned(s.skip(1)) {
            Some((n, d)) => Some((true, n, d)),
            None => None,
        }
    } else {
        match spec_parse_unsigned(s) {
            Some((n, d)) => Some((false, n, d)),
            None => None,
        }
    }
}

pub proof fn lemma_pow10_mono(a: nat, b: nat)
    requires
        a <= b,
    ensures
        pow10(a) <= pow10(b),
    decreases b,
{
    if a < b {
        lemma_pow10_mono(a, (b - 1) as nat);
        lemma_pow10_pos((b - 1) as nat);
    }
}

/// A parsed decimal's numerator is non-negative and its denominator at
/// least one.
pub proof fn lemma_parse_number_parts(s: Seq<char>)
    ensures
        spec_parse_number(s) matches Some(t) ==> t.1 >= 0 && t.2 >= 1,
{
    let u = if s.len() > 0 && s[0] == '-' {
        s.skip(1)
    } else {
        s
    };
    if u.len() > 0 && all_digits(u) {
        lemma_digits_val_nonneg(u);
    } else if exists|i: int| split_ok(u, i) {
        let i = choose|i: int| split_ok(u, i);
        let dd = u.take(i) + u.skip(i + 1);
        assert(all_digits(dd)) by {
            assert forall|t: int| 0 <= t < dd.len() implies is_digit(dd[t]) by {
                if t < i {
                    assert(dd[t] == u.take(i)[t]);
                } else {
                    assert(dd[t] == u.skip(i + 1)[t - i]);
                }
            }
        }
        lemma_digits_val_nonneg(dd);
        lemma_pow10_pos(u.skip(i + 1).len());
    }
}

/// Any dot of a string admitting a valid split stands at the split position.
pub proof fn lemma_split_dot(s: Seq<char>, i: int, j: int)
    requires
        split_ok(s, i),
        0 <= j < s.len(),
        s[j] == '.',
    ensures
        j == i,
{
    if j < i {
        assert(is_digit(s.take(i)[j]));
    } else if j > i {
        assert(is_digit(s.skip(i + 1)[j - i - 1]));
    }
}

} // verus!

verus! {

/// No position of `s` admits a valid split when `s` holds a character that is
/// neither a digit nor a dot.
proof fn lemma_bad_char_no_split(s: Seq<char>, j: int)
    requires
        0 <= j < s.len(),
        s[j] != '.',
        !is_digit(s[j]),
    ensures
        forall|k: int| !split_ok(s, k),
{
    assert forall|k: int| !split_ok(s, k) by {
        if split_ok(s, k) {
            if j < k {
                assert(is_digit(s.take(k)[j]));
            } else if j > k {
                assert(is_digit(s.skip(k + 1)[j - k - 1]));
            } else {
                assert(s[k] == '.');
            }
        }
    }
}

/// The whole digit string of a validly split decimal reads at least as much
/// as any prefix of its digits.
proof fn lemma_partial_bound(a: Seq<char>, b: Seq<char>)
    requires
        all_digits(a),
        all_digits(b),
    ensures
        digits_val(a + b) >= digits_val(a),
        digits_val(a + b) >= 0,
{
    lemma_digits_val_concat(a, b);
    lemma_digits_val_nonneg(a);
    lemma_digits_val_nonneg(b);
    lemma_pow10_pos(b.len());
    assert(digits_val(a) * pow10(b.len()) >= digits_val(a)) by (nonlinear_arith)
        requires
            digits_val(a) >= 0,
            pow10(b.len()) >= 1,
    ;
}

/// Parses an unsigned decimal string (digits with at most one interior dot)
/// exactly, as numerator and power-of-ten denominator. Yields `None` when the
/// string is malformed, or when numerator or denominator exceeds `u64::MAX`.
pub fn parse_unsigned(s: &str) -> (r: Option<(u64, u64)>)
    ensures
        (match spec_parse_unsigned(s@) {
            Option::None => r is None,
            Option::Some(nd) => {
                if nd.0 <= u64::MAX as int && nd.1 <= u64::MAX as int {
                    r matches Some(p) && p.0 == nd.0 && p.1 == nd.1
                } else {
                    r is None
                }
            },
        }),
{
    let len = s.unicode_len();
    if len == 0 {
        return None;
    }
    let mut dot: usize = 0;
    let mut has_dot = false;
    let mut i: usize = 0;
    while i < len
        invariant
            len == s@.len(),
            0 <= i <= len,
            has_dot ==> dot < i && s@[dot as int] == '.' && all_digits(s@.take(dot as int))
                && all_digits(s@.subrange(dot as int + 1, i as int)),
            !has_dot ==> all_digits(s@.take(i as int)),
        decreases len - i,
    {
        let c = s.get_char(i);
        if c == '.' {
            if has_dot {
                proof {
                    assert forall|k: int| !split_ok(s@, k) by {
                        if split_ok(s@, k) {
                            lemma_split_dot(s@, k, dot as int);
                            lemma_split_dot(s@, k, i as int);
                        }
                    }
                    assert(!all_digits(s@)) by {
                        assert(!is_digit(s@[dot as int]));
                    }
                }
                return None;
            }
            has_dot = true;
            dot = i;
        } else {
            let u = c as u32;
            if !(48 <= u && u <= 57) {
                proof {
                    lemma_bad_char_no_split(s@, i as int);
                    assert(!is_digit(s@[i as int]));
                }
                return None;
            }
            proof {
                if has_dot {
                    assert(s@.subrange(dot as int + 1, i as int + 1) =~= s@.subrange(
                        dot as int + 1,
                        i as int,
                    ).push(s@[i as int]));
                } else {
                    assert(s@.take(i as int + 1) =~= s@.take(i as int).push(s@[i as int]));
                }
            }
        }
        i += 1;
    }
    if has_dot && (dot == 0 || dot + 1 == len) {
        proof {
            assert forall|k: int| !split_ok(s@, k) by {
                if split_ok(s@, k) {
                    lemma_split_dot(s@, k, dot as int);
                }
            }
            assert(!is_digit(s@[dot as int]));
        }
        return None;
    }
    let int_end: usize = if has_dot {
        dot
    } else {
        len
    };
    let ghost dd: Seq<char> = if has_dot {
        s@.take(dot as int) + s@.skip(dot as int + 1)
    } else {
        s@
    };
    let ghost sden: int = if has_dot {
        pow10(s@.skip(dot as int + 1).len())
    } else {
        1int
    };
    proof {
        if has_dot {
            assert(all_digits(s@.skip(dot as int + 1))) by {
                assert(s@.skip(dot as int + 1) =~= s@.subrange(dot as int + 1, len as int));
            }
            assert(split_ok(s@, dot as int));
            assert(!is_digit(s@[dot as int]));
            let k = choose|k: int| split_ok(s@, k);
            lemma_split_dot(s@, k, dot as int);
            assert(spec_parse_unsigned(s@) == Some((digits_val(dd), sden)));
        } else {
            assert(s@.take(len as int) =~= s@);
            assert(spec_parse_unsigned(s@) == Some((digits_val(dd), sden)));
        }
    }
    // accumulate the integer-part digits
    let mut num: u64 = 0;
    let mut i: usize = 0;
    while i < int_end
        invariant
            len == s@.len(),
            int_end <= len,
            has_dot ==> int_end == dot < len && dd == s@.take(dot as int) + s@.skip(dot as int + 1)
                && all_digits(s@.skip(dot as int + 1)),
            !has_dot ==> int_end == len && dd == s@,
            all_digits(s@.take(int_end as int)),
            all_digits(dd),
            dd.take(int_end as int) =~= s@.take(int_end as int),
            spec_parse_unsigned(s@) == Some((digits_val(dd), sden)),
            has_dot ==> sden == pow10(s@.skip(dot as int + 1).len()),
            !has_dot ==> sden == 1int,
            0 <= i <= int_end,
            num == digits_val(s@.take(i as int)),
        decreases int_end - i,
    {
        let c = s.get_char(i);
        proof {
            assert(is_digit(s@.take(int_end as int)[i as int]));
            assert(s@.take(i as int + 1).drop_last() =~= s@.take(i as int));
            assert(s@.take(i as int + 1).last() == s@[i as int]);
        }
        let d: u32 = (c as u32) - 48;
        let step = match num.checked_mul(10) {
            Some(m) => m.checked_add(d as u64),
            None => None,
        };
        match step {
            Some(v) => {
                num = v;
            },
            None => {
                proof {
                    // the value already read exceeds u64::MAX, so the whole
                    // numerator does too
                    let part = s@.take(i as int + 1);
                    assert(digits_val(part) == num * 10 + d);
                    assert(digits_val(part) > u64::MAX);
                    assert(part =~= s@.take(int_end as int).take(i as int + 1));
                    lemma_digits_val_prefix(s@.take(int_end as int), i as int + 1);
                    lemma_partial_bound(dd.take(int_end as int), dd.skip(int_end as int));
                    assert(dd =~= dd.take(int_end as int) + dd.skip(int_end as int));
                }
                return None;
            },
        }
        proof {
            assert(digits_val(s@.take(i as int + 1)) == num);
        }
        i += 1;
    }
    proof {
        assert(s@.take(int_end as int) =~= dd.take(int_end as int));
    }
    if !has_dot {
        proof {
            assert(s@.take(len as int) =~= s@);
        }
        return Some((num, 1));
    }
    // accumulate the fractional digits and the power-of-ten denominator
    let mut den: u64 = 1;
    let mut j: usize = dot + 1;
    while j < len
        invariant
            len == s@.len(),
            0 < dot + 1 <= j <= len,
            dd == s@.take(dot as int) + s@.skip(dot as int + 1),
            all_digits(s@.take(dot as int)),
            all_digits(s@.skip(dot as int + 1)),
            all_digits(dd),
            spec_parse_unsigned(s@) == Some((digits_val(dd), sden)),
            sden == pow10(s@.skip(dot as int + 1).len()),
            num == digits_val(s@.take(dot as int) + s@.subrange(dot as int + 1, j as int)),
            den == pow10((j - dot - 1) as nat),
        decreases len - j,
    {
        let c = s.get_char(j);
        proof {
            assert(is_digit(s@.skip(dot as int + 1)[j - dot - 1]));
            assert(s@[j as int] == s@.skip(dot as int + 1)[j - dot - 1]);
        }
        let d: u32 = (c as u32) - 48;
        let ghost g = s@.take(dot as int) + s@.subrange(dot as int + 1, j as int);
        let ghost gp = s@.take(dot as int) + s@.subrange(dot as int + 1, j as int + 1);
        proof {
            assert(gp =~= g.push(s@[j as int]));
            assert(gp.drop_last() =~= g);
            assert(all_digits(gp)) by {
                assert forall|t: int| 0 <= t < gp.len() implies is_digit(gp[t]) by {
                    if t < dot {
                        assert(gp[t] == s@.take(dot as int)[t]);
                    } else {
                        assert(gp[t] == s@.skip(dot as int + 1)[t - dot]);
                    }
                }
            }
        }
        let step = match num.checked_mul(10) {
            Some(m) => m.checked_add(d as u64),
            None => None,
        };
        match step {
            Some(v) => {
                num = v;
            },
            None => {
                proof {
                    let rest = s@.subrange(j as int + 1, len as int);
                    assert(digits_val(gp) == num * 10 + d);
                    assert(digits_val(gp) > u64::MAX);
                    assert(dd =~= gp + rest);
                    assert(all_digits(rest)) by {
                        assert forall|t: int| 0 <= t < rest.len() implies is_digit(rest[t]) by {
                            assert(rest[t] == s@.skip(dot as int + 1)[j + t - dot]);
                        }
                    }
                    lemma_partial_bound(gp, rest);
                }
                return None;
            },
        }
        match den.checked_mul(10) {
            Some(v) => {
                den = v;
            },
            None => {
                proof {
                    // the denominator pow10(len - dot - 1) exceeds u64::MAX
                    assert(pow10((j - dot) as nat) > u64::MAX);
                    lemma_pow10_mono((j - dot) as nat, (len - dot - 1) as nat);
                    assert(s@.skip(dot as int + 1).len() == len - dot - 1);
                }
                return None;
            },
        }
        j += 1;
    }
    proof {
        assert(s@.subrange(dot as int + 1, len as int) =~= s@.skip(dot as int + 1));
        assert(num == digits_val(dd));
        assert(den == pow10(s@.skip(dot as int + 1).len()));
    }
    Some((num, den))
}

/// A parsed decimal number: sign with exact magnitude `num / den`.
pub struct ParsedNumber {
    pub neg: bool,
    pub num: u64,
    pub den: u64,
}

/// Parses a decimal string with an optional leading minus sign, exactly.
/// Yields `None` when the string is malformed or its parts exceed `u64::MAX`.
pub fn parse_number(s: &str) -> (r: Option<ParsedNumber>)
    ensures
        (match spec_parse_number(s@) {
            Option::None => r is None,
            Option::Some(t) => {
                if t.1 <= u64::MAX as int && t.2 <= u64::MAX as int {
                    r matches Some(p) && p.neg == t.0 && p.num == t.1 && p.den == t.2
                } else {
                    r is None
                }
            },
        }),
{
    let len = s.unicode_len();
    if len > 0 && s.get_char(0) == '-' {
        let rest = s.substring_char(1, len);
        proof {
            assert(rest@ =~= s@.skip(1));
        }
        match parse_unsigned(rest) {
            Some((n, d)) => Some(ParsedNumber { neg: true, num: n, den: d }),
            None => None,
        }
    } else {
        match parse_unsigned(s) {
            Some((n, d)) => Some(ParsedNumber { neg: false, num: n, den: d }),
            None => None,
        }
    }
}

} // verus!
