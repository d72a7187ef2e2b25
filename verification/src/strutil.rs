//! Character-sequence searching and decimal parsing.
//!
//! The engine recognises process-name markers case-insensitively and reads
//! profile numbers out of command-line strings; this module holds the
//! underlying substring and digit-run primitives, each proved against a
//! spec-level definition.

use vstd::prelude::*;

verus! {

/// Code point of `c` with ASCII upper-case letters folded to lower case.
pub open spec fn lower_val(c: char) -> int {
    if 65 <= c as int && c as int <= 90 {
        c as int + 32
    } else {
        c as int
    }
}

/// `pat` (given in lower case) occurs at index `i` of `s`, ignoring ASCII case.
pub open spec fn match_at_ci(s: Seq<char>, pat: Seq<char>, i: int) -> bool {
    &&& 0 <= i
    &&& i + pat.len() <= s.len()
    &&& forall|k: int| 0 <= k < pat.len() ==> lower_val(s[i + k]) == pat[k] as int
}

/// `s` contains `pat` (given in lower case), ignoring ASCII case.
pub open spec fn contains_ci(s: Seq<char>, pat: Seq<char>) -> bool {
    exists|i: int| match_at_ci(s, pat, i)
}

/// `pat` occurs at index `i` of `s`, case-sensitively.
pub open spec fn match_at(s: Seq<char>, pat: Seq<char>, i: int) -> bool {
    &&& 0 <= i
    &&& i + pat.len() <= s.len()
    &&& s.subrange(i, i + pat.len() as int) == pat
}

/// `s` contains `pat`, case-sensitively.
pub open spec fn contains_seq(s: Seq<char>, pat: Seq<char>) -> bool {
    exists|i: int| match_at(s, pat, i)
}

/// Index of the first occurrence of `pat` in `s`, if any.
pub open spec fn find_first(s: Seq<char>, pat: Seq<char>) -> Option<int>
    decreases s.len(),
{
    if pat.len() == 0 {
        Some(0)
    } else if s.len() < pat.len() {
        None
    } else if s.subrange(0, pat.len() as int) == pat {
        Some(0)
    } else {
        match find_first(s.drop_first(), pat) {
            None => None,
            Some(k) => Some(k + 1),
        }
    }
}

proof fn lemma_match_at_shift(s: Seq<char>, pat: Seq<char>, k: int)
    requires
        s.len() >= 1,
        0 <= k,
    ensures
        match_at(s.drop_first(), pat, k) <==> match_at(s, pat, k + 1),
{
    if k + pat.len() <= s.len() - 1 {
        assert(s.drop_first().subrange(k, k + pat.len() as int) =~= s.subrange(
            k + 1,
            k + 1 + pat.len() as int,
        ));
    }
}

/// `find_first` returns the least index of a match, and `None` exactly when
/// there is no match at all.
pub proof fn lemma_find_first_correct(s: Seq<char>, pat: Seq<char>)
    ensures
        match find_first(s, pat) {
            Some(i) => match_at(s, pat, i) && (forall|j: int|
                0 <= j < i ==> !match_at(s, pat, j)),
            None => forall|j: int| !match_at(s, pat, j),
        },
    decreases s.len(),
{
    if pat.len() == 0 {
        assert(s.subrange(0, 0) =~= pat);
        assert(match_at(s, pat, 0));
    } else if s.len() < pat.len() {
        assert(forall|j: int| !match_at(s, pat, j));
    } else if s.subrange(0, pat.len() as int) == pat {
    } else {
        lemma_find_first_correct(s.drop_first(), pat);
        assert forall|k: int| 0 <= k implies (match_at(s.drop_first(), pat, k) <==> match_at(
            s,
            pat,
            k + 1,
        )) by {
            lemma_match_at_shift(s, pat, k);
        }
        match find_first(s.drop_first(), pat) {
            None => {
                assert forall|j: int| !match_at(s, pat, j) by {
                    if j >= 1 {
                        assert(!match_at(s.drop_first(), pat, j - 1));
                    }
                }
            },
            Some(k) => {
                assert(match_at(s, pat, k + 1));
                assert forall|j: int| 0 <= j < k + 1 implies !match_at(s, pat, j) by {
                    if j >= 1 {
                        assert(!match_at(s.drop_first(), pat, j - 1));
                    }
                }
            },
        }
    }
}

/// Folded code point of a character, executably.
fn lower_val_exec(c: char) -> (r: u32)
    ensures
        r as int == lower_val(c),
{
    let ci = c as u32;
    if 65 <= ci && ci <= 90 {
        ci + 32
    } else {
        ci
    }
}

/// Whether `pat` (a lower-case needle) matches at index `i` of `s`, ignoring
/// ASCII case.
fn match_at_ci_exec(s: &str, pat: &str, i: usize, n: usize, m: usize) -> (r: bool)
    requires
        n == s@.len(),
        m == pat@.len(),
        i + m <= n,
    ensures
        r == match_at_ci(s@, pat@, i as int),
{
    let mut k: usize = 0;
    while k < m
        invariant
            n == s@.len(),
            m == pat@.len(),
            i + m <= n,
            k <= m,
            forall|t: int| 0 <= t < k ==> lower_val(s@[i + t]) == pat@[t] as int,
        decreases m - k,
    {
        let sc = lower_val_exec(s.get_char(i + k));
        let pc = pat.get_char(k) as u32;
        if sc != pc {
            return false;
        }
        k += 1;
    }
    true
}

/// Case-insensitive containment check; `pat` must be a lower-case needle.
pub fn str_contains_ci(s: &str, pat: &str) -> (r: bool)
    ensures
        r == contains_ci(s@, pat@),
{
    let n = s.unicode_len();
    let m = pat.unicode_len();
    if m > n {
        proof {
            assert(forall|i: int| !match_at_ci(s@, pat@, i));
        }
        return false;
    }
    if m == 0 {
        assert(match_at_ci(s@, pat@, 0));
        return true;
    }
    let mut i: usize = 0;
    while i <= n - m
        invariant
            n == s@.len(),
            m == pat@.len(),
            1 <= m <= n,
            i <= n - m + 1,
            forall|j: int| 0 <= j < i ==> !match_at_ci(s@, pat@, j),
        decreases n - i,
    {
        if match_at_ci_exec(s, pat, i, n, m) {
            return true;
        }
        i += 1;
    }
    proof {
        assert(forall|j: int| j > n - m ==> !match_at_ci(s@, pat@, j));
    }
    false
}

/// Whether `pat` matches at index `i` of `s`, case-sensitively.
pub fn match_at_exec(s: &str, pat: &str, i: usize, n: usize, m: usize) -> (r: bool)
    requires
        n == s@.len(),
        m == pat@.len(),
        i + m <= n,
    ensures
        r == match_at(s@, pat@, i as int),
{
    let mut k: usize = 0;
    while k < m
        invariant
            n == s@.len(),
            m == pat@.len(),
            i + m <= n,
            k <= m,
            forall|t: int| 0 <= t < k ==> s@[i + t] == pat@[t],
        decreases m - k,
    {
        if s.get_char(i + k) != pat.get_char(k) {
            assert(s@.subrange(i as int, i + m) != pat@);
            return false;
        }
        k += 1;
    }
    assert(s@.subrange(i as int, i + m) =~= pat@);
    true
}

/// Index of the first case-sensitive occurrence of `pat` in `s`, if any.
pub fn find_first_str(s: &str, pat: &str) -> (r: Option<usize>)
    ensures
        match r {
            Some(i) => i + pat@.len() <= s@.len() && match_at(s@, pat@, i as int) && (forall|
                j: int,
            | 0 <= j < i ==> !match_at(s@, pat@, j)),
            None => !contains_seq(s@, pat@),
        },
{
    let n = s.unicode_len();
    let m = pat.unicode_len();
    if m > n {
        proof {
            assert(forall|i: int| !match_at(s@, pat@, i));
        }
        return None;
    }
    if m == 0 {
        proof {
            assert(s@.subrange(0, 0) =~= pat@);
        }
        return Some(0);
    }
    let mut i: usize = 0;
    while i <= n - m
        invariant
            n == s@.len(),
            m == pat@.len(),
            1 <= m <= n,
            i <= n - m + 1,
            forall|j: int| 0 <= j < i ==> !match_at(s@, pat@, j),
        decreases n - i,
    {
        if match_at_exec(s, pat, i, n, m) {
            return Some(i);
        }
        i += 1;
    }
    proof {
        assert(forall|j: int| j > n - m ==> !match_at(s@, pat@, j));
    }
    None
}

/// `c` is a decimal digit.
pub open spec fn is_digit(c: char) -> bool {
    48 <= c as int && c as int <= 57
}

/// Numeric value of a digit character.
pub open spec fn digit_val(c: char) -> int {
    c as int - 48
}

/// Every character of `t` is a decimal digit.
pub open spec fn all_digits(t: Seq<char>) -> bool {
    forall|i: int| 0 <= i < t.len() ==> is_digit(t[i])
}

/// Value of a digit run, most significant digit first.
pub open spec fn digits_val(t: Seq<char>) -> int
    decreases t.len(),
{
    if t.len() == 0 {
        0
    } else {
        digits_val(t.drop_last()) * 10 + digit_val(t.last())
    }
}

/// `t` with one optional leading plus sign removed.
pub open spec fn strip_plus(t: Seq<char>) -> Seq<char> {
    if t.len() > 0 && t[0] == '+' {
        t.drop_first()
    } else {
        t
    }
}

/// The number denoted by `t`: an optional plus sign, then a nonempty digit
/// run whose value fits in a `u32`; anything else denotes nothing.
pub open spec fn parse_u32(t: Seq<char>) -> Option<u32> {
    let d = strip_plus(t);
    if d.len() == 0 || !all_digits(d) || digits_val(d) > u32::MAX {
        None
    } else {
        Some(digits_val(d) as u32)
    }
}

/// Index of the first space at or after `from`, or the end of `s`.
pub open spec fn token_end(s: Seq<char>, from: int) -> int
    decreases s.len() - from,
{
    if from < 0 || from >= s.len() {
        s.len() as int
    } else if s[from] == ' ' {
        from
    } else {
        token_end(s, from + 1)
    }
}

/// The number denoted by the space-delimited token of `s` starting at `from`.
pub open spec fn parse_run(s: Seq<char>, from: int) -> Option<u32> {
    parse_u32(s.subrange(from, token_end(s, from)))
}

pub proof fn lemma_token_end_at(s: Seq<char>, from: int, e: int)
    requires
        0 <= from <= e <= s.len(),
        forall|t: int| from <= t < e ==> s[t] != ' ',
        e == s.len() || s[e] == ' ',
    ensures
        token_end(s, from) == e,
    decreases e - from,
{
    if from < e {
        lemma_token_end_at(s, from + 1, e);
    }
}

/// Digit runs are nonnegative and grow with every appended digit, so the
/// value of a run is at least the value of any of its prefixes.
proof fn lemma_digits_val_prefix(t: Seq<char>, i: int)
    requires
        0 <= i <= t.len(),
        all_digits(t),
    ensures
        digits_val(t) >= digits_val(t.subrange(0, i)) >= 0,
    decreases t.len() - i,
{
    if i == 0 {
        assert(t.subrange(0, 0).len() == 0);
        lemma_digits_val_nonneg(t);
    } else if i == t.len() {
        assert(t.subrange(0, i) =~= t);
        lemma_digits_val_nonneg(t);
    } else {
        lemma_digits_val_prefix(t, i + 1);
        let a = t.subrange(0, i + 1);
        let b = t.subrange(0, i);
        assert(a.drop_last() =~= b);
        assert(all_digits(b));
        lemma_digits_val_nonneg(b);
        assert(digits_val(a) == digits_val(b) * 10 + digit_val(a.last()));
        assert(digits_val(a) >= digits_val(b));
    }
}

proof fn lemma_digits_val_nonneg(t: Seq<char>)
    requires
        all_digits(t),
    ensures
        digits_val(t) >= 0,
    decreases t.len(),
{
    if t.len() > 0 {
        assert(all_digits(t.drop_last()));
        lemma_digits_val_nonneg(t.drop_last());
    }
}

/// Reads the number denoted by the space-delimited token of `s` that starts
/// at character index `from`.
pub fn parse_run_str(s: &str, from: usize, n: usize) -> (r: Option<u32>)
    requires
        n == s@.len(),
        from <= n,
    ensures
        r == parse_run(s@, from as int),
{
    let mut e = from;
    while e < n && s.get_char(e) != ' '
        invariant
            n == s@.len(),
            from <= e <= n,
            forall|t: int| from <= t < e ==> s@[t] != ' ',
        decreases n - e,
    {
        e += 1;
    }
    proof {
        lemma_token_end_at(s@, from as int, e as int);
    }
    let ghost tok = s@.subrange(from as int, e as int);
    let mut idx = from;
    if idx < e && s.get_char(idx) == '+' {
        idx += 1;
    }
    let ghost d = strip_plus(tok);
    proof {
        assert(d =~= s@.subrange(idx as int, e as int));
    }
    if idx == e {
        return None;
    }
    let mut val: u64 = 0;
    let mut j = idx;
    while j < e
        invariant
            n == s@.len(),
            idx <= j <= e <= n,
            idx < e,
            from <= idx,
            tok == s@.subrange(from as int, e as int),
            token_end(s@, from as int) == e as int,
            d == strip_plus(tok),
            d == s@.subrange(idx as int, e as int),
            all_digits(s@.subrange(idx as int, j as int)),
            val <= u32::MAX as u64,
            val as int == digits_val(s@.subrange(idx as int, j as int)),
        decreases e - j,
    {
        let c = s.get_char(j);
        let ci = c as u32;
        let ghost pre = s@.subrange(idx as int, j as int);
        let ghost pre1 = s@.subrange(idx as int, j + 1);
        proof {
            assert(pre1.drop_last() =~= pre);
            assert(pre1.last() == s@[j as int]);
        }
        if ci < 48 || ci > 57 {
            proof {
                assert(!is_digit(d[j - idx]));
            }
            return None;
        }
        let dv = (ci - 48) as u64;
        let newval = val * 10 + dv;
        if newval > u32::MAX as u64 {
            proof {
                if all_digits(d) {
                    assert(all_digits(pre1));
                    assert(digits_val(pre1) == newval as int);
                    lemma_digits_val_prefix(d, j + 1 - idx);
                    assert(d.subrange(0, j + 1 - idx) =~= pre1);
                    assert(digits_val(d) > u32::MAX);
                }
            }
            return None;
        }
        val = newval;
        j += 1;
    }
    proof {
        assert(d =~= s@.subrange(idx as int, e as int));
        assert(all_digits(d));
        assert(val as int == digits_val(d));
    }
    Some(val as u32)
}

} // verus!
