//! Character classes, whitespace normalization and trimming.
use vstd::prelude::*;

verus! {

/// Unicode `White_Space`, the set that `char::is_whitespace` and the regex class `\s` test.
pub open spec fn white_space(c: char) -> bool {
    let u = c as u32;
    (0x9 <= u && u <= 0xd) || u == 0x20 || u == 0x85 || u == 0xa0 || u == 0x1680 || (0x2000 <= u
        && u <= 0x200a) || u == 0x2028 || u == 0x2029 || u == 0x202f || u == 0x205f || u == 0x3000
}

/// Whether `char::is_uppercase` holds of `c`.
pub uninterp spec fn uppercase(c: char) -> bool;

/// Whether `char::is_numeric` holds of `c`.
pub uninterp spec fn numeric(c: char) -> bool;

/// Whether `c` is in the Unicode general category `Lu`, the class `\p{Lu}` of the regex crate.
pub uninterp spec fn letter_uppercase(c: char) -> bool;

/// Whether `c` is whitespace.
pub fn is_ws(c: char) -> (r: bool)
    ensures
        r == white_space(c),
{
    let u = c as u32;
    (0x9 <= u && u <= 0xd) || u == 0x20 || u == 0x85 || u == 0xa0 || u == 0x1680 || (0x2000 <= u
        && u <= 0x200a) || u == 0x2028 || u == 0x2029 || u == 0x202f || u == 0x205f || u == 0x3000
}

/// Relies on `char::is_uppercase`.
#[verifier::external_body]
pub(crate) fn is_upper(c: char) -> (r: bool)
    ensures
        r == uppercase(c),
{
    c.is_uppercase()
}

/// Relies on `char::is_numeric`.
#[verifier::external_body]
pub(crate) fn is_num(c: char) -> (r: bool)
    ensures
        r == numeric(c),
{
    c.is_numeric()
}

/// Relies on collecting `str::chars` into a `Vec`: the characters in order.
#[verifier::external_body]
pub(crate) fn chars_of(s: &str) -> (r: Vec<char>)
    ensures
        r@ == s@,
{
    s.chars().collect()
}

/// Relies on collecting characters into a `String`: the same characters in order.
#[verifier::external_body]
pub(crate) fn string_of(cs: &[char]) -> (r: String)
    ensures
        r@ == cs@,
{
    cs.iter().collect()
}

/// Length of the run of whitespace at the start of `s`.
pub open spec fn ws_run(s: Seq<char>) -> nat
    decreases s.len(),
{
    if s.len() > 0 && white_space(s[0]) {
        1 + ws_run(s.drop_first())
    } else {
        0
    }
}

/// `s` with every maximal run of two or more whitespace characters replaced by one space.
pub open spec fn collapse(s: Seq<char>) -> Seq<char>
    decreases s.len(),
    via collapse_decreases
{
    if s.len() == 0 {
        s
    } else if s.len() >= 2 && white_space(s[0]) && white_space(s[1]) {
        seq![' '] + collapse(s.skip(ws_run(s) as int))
    } else {
        seq![s[0]] + collapse(s.drop_first())
    }
}

proof fn lemma_ws_run(s: Seq<char>)
    ensures
        ws_run(s) <= s.len(),
        s.len() > 0 && white_space(s[0]) ==> ws_run(s) >= 1,
    decreases s.len(),
{
    if s.len() > 0 && white_space(s[0]) {
        lemma_ws_run(s.drop_first());
    }
}

#[via_fn]
proof fn collapse_decreases(s: Seq<char>) {
    lemma_ws_run(s);
}

/// Relies on `regex::Regex::replace_all` with the pattern `\s{2,}` and replacement `" "`:
/// scanning left to right, each leftmost run of two or more whitespace characters, taken
/// whole, becomes one space (the regex crate's `\s` is Unicode `White_Space`).
#[verifier::external_body]
fn replace_space_runs(s: &str) -> (r: String)
    ensures
        r@ == collapse(s@),
{
    regex::Regex::new(r"\s{2,}").unwrap().replace_all(s, " ").into_owned()
}

/// `s[p..q]` is an optional dot followed by one or more characters that are hyphens or
/// satisfy `upper`.
pub open spec fn acronym_body(s: Seq<char>, p: int, q: int, upper: spec_fn(char) -> bool) -> bool {
    (p < q && forall|k: int| p <= k < q ==> (upper(#[trigger] s[k]) || s[k] == '-')) || (s[p]
        == '.' && p + 1 < q && forall|k: int| p + 1 <= k < q ==> (upper(#[trigger] s[k]) || s[k]
        == '-'))
}

/// Somewhere in `s`, at its start or after a whitespace character, stands an optional dot,
/// a run of uppercase letters (as `upper` tells them) and hyphens, and a dot (`.NATO.`, `U.`).
pub open spec fn has_acronym(s: Seq<char>, upper: spec_fn(char) -> bool) -> bool {
    exists|p: int, q: int|
        0 <= p < q < s.len() && (p == 0 || white_space(s[p - 1])) && s[q] == '.'
            && #[trigger] acronym_body(s, p, q, upper)
}

/// Relies on `regex::Regex::is_match` with the pattern `(?:^|\s)\.?[\p{Lu}\-]+\.`: true
/// exactly when the pattern matches somewhere in the text.
#[verifier::external_body]
pub(crate) fn contains_acronym(cs: &[char]) -> (r: bool)
    ensures
        r == has_acronym(cs@, |c: char| letter_uppercase(c)),
{
    let s: String = cs.iter().collect();
    regex::Regex::new(r"(?:^|\s)\.?[\p{Lu}\-]+\.").unwrap().is_match(&s)
}

/// Index of the first character of `s` at or after `k` that is not whitespace.
pub open spec fn skip_ws(s: Seq<char>, k: int) -> int
    decreases s.len() - k,
{
    if k < 0 || k >= s.len() {
        k
    } else if white_space(s[k]) {
        skip_ws(s, k + 1)
    } else {
        k
    }
}

/// End of `s` once whitespace at or before `k - 1` is dropped from the back.
pub open spec fn trim_back(s: Seq<char>, k: int) -> int
    decreases k,
{
    if k <= 0 || k > s.len() {
        k
    } else if white_space(s[k - 1]) {
        trim_back(s, k - 1)
    } else {
        k
    }
}

/// `s` without leading and trailing whitespace, as `str::trim` gives it.
pub open spec fn trim(s: Seq<char>) -> Seq<char> {
    let b = skip_ws(s, 0);
    let e = trim_back(s, s.len() as int);
    if b < e {
        s.subrange(b, e)
    } else {
        Seq::empty()
    }
}

/// The text that sentence detection works on: whitespace runs collapsed, then trimmed.
pub open spec fn normalize(s: Seq<char>) -> Seq<char> {
    trim(collapse(s))
}

pub proof fn lemma_skip_ws_bounds(s: Seq<char>, k: int)
    requires
        0 <= k <= s.len(),
    ensures
        k <= skip_ws(s, k) <= s.len(),
        skip_ws(s, k) < s.len() ==> !white_space(s[skip_ws(s, k)]),
        forall|m: int| k <= m < skip_ws(s, k) ==> white_space(s[m]),
    decreases s.len() - k,
{
    if k < s.len() && white_space(s[k]) {
        lemma_skip_ws_bounds(s, k + 1);
    }
}

pub proof fn lemma_trim_back_bounds(s: Seq<char>, k: int)
    requires
        0 <= k <= s.len(),
    ensures
        0 <= trim_back(s, k) <= k,
        trim_back(s, k) > 0 ==> !white_space(s[trim_back(s, k) - 1]),
        forall|m: int| trim_back(s, k) <= m < k ==> white_space(s[m]),
    decreases k,
{
    if k > 0 && white_space(s[k - 1]) {
        lemma_trim_back_bounds(s, k - 1);
    }
}

/// The characters of `s` from `b` up to `e`.
pub fn sub_chars(s: &[char], b: usize, e: usize) -> (r: Vec<char>)
    requires
        b <= e <= s@.len(),
    ensures
        r@ == s@.subrange(b as int, e as int),
{
    let mut r: Vec<char> = Vec::new();
    let mut k: usize = b;
    while k < e
        invariant
            b <= k <= e <= s@.len(),
            r@ == s@.subrange(b as int, k as int),
        decreases e - k,
    {
        r.push(s[k]);
        k = k + 1;
        assert(r@ =~= s@.subrange(b as int, k as int));
    }
    r
}

/// The characters of `s` without leading and trailing whitespace.
pub fn trim_chars(s: &[char]) -> (r: Vec<char>)
    ensures
        r@ == trim(s@),
{
    let n = s.len();
    let mut b: usize = 0;
    while b < n && is_ws(s[b])
        invariant
            0 <= b <= n == s@.len(),
            skip_ws(s@, b as int) == skip_ws(s@, 0),
        decreases n - b,
    {
        b = b + 1;
    }
    let mut e: usize = n;
    while e > 0 && is_ws(s[e - 1])
        invariant
            0 <= e <= n == s@.len(),
            trim_back(s@, e as int) == trim_back(s@, n as int),
        decreases e,
    {
        e = e - 1;
    }
    let r = if b < e {
        sub_chars(s, b, e)
    } else {
        Vec::new()
    };
    assert(r@ =~= trim(s@));
    r
}

/// The characters of `text` with whitespace runs collapsed and the ends trimmed.
pub fn normalized_chars(text: &str) -> (r: Vec<char>)
    ensures
        r@ == normalize(text@),
{
    let collapsed = replace_space_runs(text);
    let cs = chars_of(collapsed.as_str());
    trim_chars(cs.as_slice())
}

} // verus!
