//! Profile extraction from command-line strings.
//!
//! A worker process advertises its profile through a `--profile=<N>` token on
//! its command line.  Extraction locates the first occurrence of the marker,
//! takes the run of characters up to the next space, and reads it as a
//! nonnegative decimal number; any other shape yields nothing.

use vstd::prelude::*;

use crate::strutil::{
    all_digits, contains_seq, digit_val, digits_val, find_first, is_digit,
    lemma_find_first_correct, lemma_token_end_at, match_at, parse_run, parse_u32, strip_plus,
    token_end, find_first_str, parse_run_str,
};

verus! {

/// The marker that precedes a profile number on a worker command line.
pub open spec fn profile_pat() -> Seq<char> {
    "--profile="@
}

/// The profile number a command line carries: the space-delimited token after
/// the first `--profile=` marker, read as a decimal number, if it is one.
pub open spec fn extract_spec(s: Seq<char>) -> Option<u32> {
    match find_first(s, profile_pat()) {
        None => None,
        Some(i) => parse_run(s, i + profile_pat().len()),
    }
}

/// Extracts an optional profile number from a command-line string.
///
/// Total and effect-free: a missing marker or a malformed number is an
/// ordinary `None`, never an error.
pub fn extract_profile_from_cmd(cmd_line: &str) -> (r: Option<u32>)
    ensures
        r == extract_spec(cmd_line@),
{
    let pat = "--profile=";
    proof {
        reveal_strlit("--profile=");
        lemma_find_first_correct(cmd_line@, profile_pat());
    }
    match find_first_str(cmd_line, pat) {
        None => {
            proof {
                if let Some(i) = find_first(cmd_line@, profile_pat()) {
                    assert(match_at(cmd_line@, profile_pat(), i));
                    assert(contains_seq(cmd_line@, profile_pat()));
                }
            }
            None
        },
        Some(i) => {
            proof {
                match find_first(cmd_line@, profile_pat()) {
                    None => {
                        assert(!match_at(cmd_line@, profile_pat(), i as int));
                    },
                    Some(i2) => {
                        assert(!(i2 < i));
                        assert(!(i < i2));
                    },
                }
            }
            let n = cmd_line.unicode_len();
            parse_run_str(cmd_line, i + 10, n)
        },
    }
}

/// A command line without the marker carries no profile.
pub proof fn lemma_extract_absent(s: Seq<char>)
    requires
        !contains_seq(s, profile_pat()),
    ensures
        extract_spec(s) == None::<u32>,
{
    lemma_find_first_correct(s, profile_pat());
    if let Some(i) = find_first(s, profile_pat()) {
        assert(match_at(s, profile_pat(), i));
        assert(contains_seq(s, profile_pat()));
    }
}

/// Extraction correctness on a tagged command line: wherever the marker first
/// occurs followed by a digit run `t` and then a space (or the end of the
/// line), extraction returns exactly the number `t` denotes.
pub proof fn lemma_extract_tagged(pre: Seq<char>, t: Seq<char>, rest: Seq<char>)
    requires
        all_digits(t),
        t.len() > 0,
        digits_val(t) <= u32::MAX,
        rest.len() == 0 || rest[0] == ' ',
        forall|j: int|
            0 <= j < pre.len() ==> !match_at(pre + profile_pat() + t + rest, profile_pat(), j),
    ensures
        extract_spec(pre + profile_pat() + t + rest) == Some(digits_val(t) as u32),
{
    reveal_strlit("--profile=");
    let s = pre + profile_pat() + t + rest;
    let i = pre.len() as int;
    let from = i + profile_pat().len() as int;
    let e = from + t.len() as int;
    assert(s.subrange(i, from) =~= profile_pat());
    assert(match_at(s, profile_pat(), i));
    lemma_find_first_correct(s, profile_pat());
    match find_first(s, profile_pat()) {
        None => {
            assert(!match_at(s, profile_pat(), i));
        },
        Some(i2) => {
            assert(!(i2 < i));
            assert(!(i < i2));
            assert(i2 == i);
            assert forall|u: int| from <= u < e implies s[u] != ' ' by {
                assert(is_digit(t[u - from]));
                assert(s[u] == t[u - from]);
            }
            if rest.len() > 0 {
                assert(s[e] == rest[0]);
            }
            lemma_token_end_at(s, from, e);
            let tok = s.subrange(from, e);
            assert(tok =~= t);
            assert(is_digit(t[0]));
            assert(t[0] != '+') by {
                if t[0] == '+' {
                    assert(t[0] as int == 43);
                }
            }
            assert(strip_plus(t) == t);
            assert(parse_u32(t) == Some(digits_val(t) as u32));
        },
    }
}

} // verus!
