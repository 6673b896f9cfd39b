use vstd::prelude::*;
use vstd::string::StrSliceExecFns;

use crate::errors::StribotError;
use crate::temp::{dec_spec, is_digit, is_digit_exec, parse_decimal_chars, Temp};

verus! {

/// The characters of a string, as a vector sharing the string's view.
pub fn to_chars(s: &str) -> (v: Vec<char>)
    ensures
        v@ == s@,
{
    let n = s.unicode_len();
    let mut v: Vec<char> = Vec::new();
    let mut i: usize = 0;
    while i < n
        invariant
            i <= n,
            n == s@.len(),
            v@ == s@.subrange(0, i as int),
        decreases n - i,
    {
        v.push(s.get_char(i));
        proof {
            assert(s@.subrange(0, i + 1) =~= s@.subrange(0, i as int).push(s@[i as int]));
        }
        i += 1;
    }
    proof {
        assert(v@ =~= s@);
    }
    v
}

/// `pat` occurs in `s` starting at position `i`.
pub open spec fn matches_at(s: Seq<char>, i: int, pat: Seq<char>) -> bool {
    0 <= i && i + pat.len() <= s.len() && s.subrange(i, i + pat.len() as int) == pat
}

/// Executable check that `pat` occurs in `s` at `i`.
pub fn matches_at_exec(s: &Vec<char>, i: usize, pat: &Vec<char>) -> (r: bool)
    ensures
        r == matches_at(s@, i as int, pat@),
{
    if i > s.len() || pat.len() > s.len() - i {
        proof {
            assert(!matches_at(s@, i as int, pat@));
        }
        return false;
    }
    let mut k: usize = 0;
    while k < pat.len()
        invariant
            k <= pat.len(),
            i + pat.len() <= s.len(),
            forall|j: int| 0 <= j < k ==> s@[i + j] == pat@[j],
        decreases pat.len() - k,
    {
        if s[i + k] != pat[k] {
            proof {
                assert(s@.subrange(i as int, i + pat@.len()) != pat@) by {
                    assert(s@.subrange(i as int, i + pat@.len())[k as int] != pat@[k as int]);
                }
            }
            return false;
        }
        k += 1;
    }
    proof {
        assert(s@.subrange(i as int, i + pat@.len()) =~= pat@);
    }
    true
}

/// Position of the first occurrence of the nonempty pattern `pat` in `s` at
/// or after `i`, if any.
pub open spec fn find_pat(s: Seq<char>, pat: Seq<char>, i: int) -> Option<int>
    decreases s.len() - i,
{
    if i < 0 || i + pat.len() > s.len() || pat.len() == 0 {
        None
    } else if matches_at(s, i, pat) {
        Some(i)
    } else {
        find_pat(s, pat, i + 1)
    }
}

/// A found occurrence lies at or after the search start and fits in `s`.
pub proof fn lemma_find_pat_bounds(s: Seq<char>, pat: Seq<char>, i: int)
    ensures
        find_pat(s, pat, i) matches Some(r) ==> i <= r && r + pat.len() <= s.len(),
    decreases s.len() - i,
{
    if !(i < 0 || i + pat.len() > s.len() || pat.len() == 0) && !matches_at(s, i, pat) {
        lemma_find_pat_bounds(s, pat, i + 1);
    }
}

/// Executable leftmost search for `pat` in `s` at or after `i`.
pub fn find_pat_exec(s: &Vec<char>, pat: &Vec<char>, i: usize) -> (r: Option<usize>)
    ensures
        match r {
            Some(k) => find_pat(s@, pat@, i as int) == Some(k as int) && i <= k && k + pat.len()
                <= s.len(),
            None => find_pat(s@, pat@, i as int) is None,
        },
    decreases s.len() - i,
{
    if i > s.len() || pat.len() > s.len() - i || pat.len() == 0 {
        None
    } else if matches_at_exec(s, i, pat) {
        Some(i)
    } else {
        find_pat_exec(s, pat, i + 1)
    }
}

/// A copy of the characters `s[a..b]`.
pub fn copy_range(s: &Vec<char>, a: usize, b: usize) -> (v: Vec<char>)
    requires
        a <= b <= s.len(),
    ensures
        v@ == s@.subrange(a as int, b as int),
{
    let mut v: Vec<char> = Vec::new();
    let mut i: usize = a;
    while i < b
        invariant
            a <= i <= b <= s.len(),
            v@ == s@.subrange(a as int, i as int),
        decreases b - i,
    {
        v.push(s[i]);
        proof {
            assert(s@.subrange(a as int, i + 1) =~= s@.subrange(a as int, i as int).push(
                s@[i as int],
            ));
        }
        i += 1;
    }
    v
}

/// A character the number pattern admits: a digit, a dot or a comma.
pub open spec fn numchar(c: char) -> bool {
    is_digit(c) || c == '.' || c == ','
}

/// Executable number-character test.
pub fn numchar_exec(c: char) -> (r: bool)
    ensures
        r == numchar(c),
{
    is_digit_exec(c) || c == '.' || c == ','
}

/// End of the maximal run of number characters starting at `i`.
pub open spec fn run_end(s: Seq<char>, i: int) -> int
    decreases s.len() - i,
{
    if 0 <= i < s.len() && numchar(s[i]) {
        run_end(s, i + 1)
    } else {
        i
    }
}

/// Executable maximal-run scan.
pub fn run_end_exec(s: &Vec<char>, i: usize) -> (r: usize)
    requires
        i <= s.len(),
    ensures
        r as int == run_end(s@, i as int),
        i <= r <= s.len(),
    decreases s.len() - i,
{
    if i < s.len() && numchar_exec(s[i]) {
        run_end_exec(s, i + 1)
    } else {
        i
    }
}

/// Where the number pattern's run begins at position `i`: one further if an
/// optional leading minus sign stands there.
pub open spec fn num_start(s: Seq<char>, i: int) -> int {
    if 0 <= i < s.len() && s[i] == '-' {
        i + 1
    } else {
        i
    }
}

/// The number pattern — an optional minus sign, then a nonempty maximal run
/// of digits, dots and commas — stands at position `i` and is followed
/// immediately by `suffix`.
pub open spec fn num_match_at(s: Seq<char>, i: int, suffix: Seq<char>) -> bool {
    let j = num_start(s, i);
    j < s.len() && numchar(s[j]) && matches_at(s, run_end(s, j), suffix)
}

/// Executable number-pattern match at one position.
pub fn num_match_exec(s: &Vec<char>, i: usize, suffix: &Vec<char>) -> (r: bool)
    requires
        i <= s.len(),
    ensures
        r == num_match_at(s@, i as int, suffix@),
{
    let j = if i < s.len() && s[i] == '-' {
        i + 1
    } else {
        i
    };
    if j < s.len() && numchar_exec(s[j]) {
        let e = run_end_exec(s, j);
        matches_at_exec(s, e, suffix)
    } else {
        false
    }
}

/// A source grammar stands at position `i`: its fixed `prefix`, then the
/// number pattern, then its `suffix`.
pub open spec fn grammar_match_at(s: Seq<char>, i: int, prefix: Seq<char>, suffix: Seq<char>) -> bool {
    matches_at(s, i, prefix) && num_match_at(s, i + prefix.len(), suffix)
}

/// Bounds of the numeric capture (sign included) of a grammar match at `i`.
pub open spec fn capture_at(s: Seq<char>, i: int, prefix: Seq<char>) -> (int, int) {
    let a = i + prefix.len();
    (a, run_end(s, num_start(s, a)))
}

/// Capture bounds of the leftmost grammar match at or after `i`, if any.
pub open spec fn find_grammar(s: Seq<char>, prefix: Seq<char>, suffix: Seq<char>, i: int) -> Option<
    (int, int),
>
    decreases s.len() - i,
{
    if i < 0 || i >= s.len() {
        None
    } else if grammar_match_at(s, i, prefix, suffix) {
        Some(capture_at(s, i, prefix))
    } else {
        find_grammar(s, prefix, suffix, i + 1)
    }
}

/// Executable leftmost grammar search.
pub fn find_grammar_exec(s: &Vec<char>, prefix: &Vec<char>, suffix: &Vec<char>, i: usize) -> (r:
    Option<(usize, usize)>)
    requires
        i <= s.len(),
    ensures
        match r {
            Some((a, b)) => find_grammar(s@, prefix@, suffix@, i as int) == Some(
                (a as int, b as int),
            ) && a <= b <= s.len(),
            None => find_grammar(s@, prefix@, suffix@, i as int) is None,
        },
    decreases s.len() - i,
{
    if i >= s.len() {
        None
    } else if matches_at_exec(s, i, prefix) && num_match_exec(s, i + prefix.len(), suffix) {
        let a = i + prefix.len();
        let j = if a < s.len() && s[a] == '-' {
            a + 1
        } else {
            a
        };
        let e = run_end_exec(s, j);
        Some((a, e))
    } else {
        find_grammar_exec(s, prefix, suffix, i + 1)
    }
}

/// What extraction by a (prefix, suffix) grammar yields on a body: the
/// normalized value of the leftmost match's numeric capture; `NotFound` when
/// the grammar matches nowhere; the normalizer's `ParseError` when the
/// captured text does not normalize.
pub open spec fn extract_spec(s: Seq<char>, prefix: Seq<char>, suffix: Seq<char>) -> Result<
    Temp,
    StribotError,
> {
    match find_grammar(s, prefix, suffix, 0) {
        None => Err(StribotError::NotFound),
        Some((a, b)) => dec_spec(s.subrange(a, b)),
    }
}

/// Executable extraction by a (prefix, suffix) grammar.
pub fn extract_exec(s: &Vec<char>, prefix: &Vec<char>, suffix: &Vec<char>) -> (r: Result<
    Temp,
    StribotError,
>)
    ensures
        r == extract_spec(s@, prefix@, suffix@),
{
    match find_grammar_exec(s, prefix, suffix, 0) {
        None => Err(StribotError::NotFound),
        Some((a, b)) => {
            let cap = copy_range(s, a, b);
            parse_decimal_chars(&cap)
        },
    }
}

} // verus!
