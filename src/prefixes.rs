//! Non-breaking prefixes: their kinds, the line format they are listed in, and lookup.
use crate::text::{chars_of, sub_chars, trim, trim_chars};
use vstd::prelude::*;

verus! {

/// How a non-breaking prefix keeps a following period from ending a sentence.
#[derive(Debug, Clone, Copy, PartialEq, Eq, Structural)]
pub enum PrefixType {
    /// The period after the prefix never ends a sentence.
    Default,
    /// The period after the prefix ends no sentence only when a number follows.
    NumericOnly,
}

/// One prefix of a table: its text, without the trailing period, and its kind.
#[derive(Debug)]
pub struct PrefixEntry {
    pub text: Vec<char>,
    pub kind: PrefixType,
}

impl PrefixEntry {
    pub open spec fn view(&self) -> (Seq<char>, PrefixType) {
        (self.text@, self.kind)
    }
}

/// The kind that a table gives to `w`; a later entry overrides an earlier one.
pub open spec fn lookup(tab: Seq<(Seq<char>, PrefixType)>, w: Seq<char>) -> Option<PrefixType>
    decreases tab.len(),
{
    if tab.len() == 0 {
        None
    } else if tab.last().0 == w {
        Some(tab.last().1)
    } else {
        lookup(tab.drop_last(), w)
    }
}

/// Index of the first `c` in `s` at or after `p`, or the length of `s` if there is none.
pub open spec fn find_char(s: Seq<char>, c: char, p: int) -> int
    decreases s.len() - p,
{
    if p < 0 || p >= s.len() {
        s.len() as int
    } else if s[p] == c {
        p
    } else {
        find_char(s, c, p + 1)
    }
}

pub proof fn lemma_find_char_bounds(s: Seq<char>, c: char, p: int)
    requires
        0 <= p <= s.len(),
    ensures
        p <= find_char(s, c, p) <= s.len(),
        find_char(s, c, p) < s.len() ==> s[find_char(s, c, p)] == c,
    decreases s.len() - p,
{
    if p < s.len() && s[p] != c {
        lemma_find_char_bounds(s, c, p + 1);
    }
}

/// The marker that makes a listed prefix numeric-only.
pub open spec fn numeric_marker() -> Seq<char> {
    seq!['#', 'N', 'U', 'M', 'E', 'R', 'I', 'C', '_', 'O', 'N', 'L', 'Y', '#']
}

/// `line` holds `m` somewhere.
pub open spec fn holds_seq(line: Seq<char>, m: Seq<char>) -> bool {
    exists|i: int| 0 <= i && i + m.len() <= line.len() && #[trigger] line.subrange(i, i + m.len()) == m
}

/// The entry that one line of a prefix list gives: the text before any `#`, trimmed, if it
/// is not empty; numeric-only when the line holds the marker.
pub open spec fn entry_of(line: Seq<char>) -> Option<(Seq<char>, PrefixType)> {
    let key = trim(line.subrange(0, find_char(line, '#', 0)));
    if key.len() == 0 {
        None
    } else if holds_seq(line, numeric_marker()) {
        Some((key, PrefixType::NumericOnly))
    } else {
        Some((key, PrefixType::Default))
    }
}

/// The entries of the lines of `s` that start at or after `p`, in order.
pub open spec fn parse_from(s: Seq<char>, p: int) -> Seq<(Seq<char>, PrefixType)>
    decreases s.len() + 1 - p,
    via parse_from_decreases
{
    if p < 0 || p > s.len() {
        Seq::empty()
    } else {
        let e = find_char(s, '\n', p);
        let rest = parse_from(s, e + 1);
        match entry_of(s.subrange(p, e)) {
            Some(x) => seq![x] + rest,
            None => rest,
        }
    }
}

#[via_fn]
proof fn parse_from_decreases(s: Seq<char>, p: int) {
    if 0 <= p <= s.len() {
        lemma_find_char_bounds(s, '\n', p);
    }
}

/// The table that a prefix list gives, line by line.
pub open spec fn parse_prefix_list(s: Seq<char>) -> Seq<(Seq<char>, PrefixType)> {
    parse_from(s, 0)
}

/// Index of the first `c` in `s` at or after `p`.
fn find_char_exec(s: &[char], c: char, p: usize) -> (r: usize)
    requires
        p <= s@.len(),
    ensures
        r == find_char(s@, c, p as int),
        p <= r <= s@.len(),
{
    let mut k = p;
    while k < s.len() && s[k] != c
        invariant
            p <= k <= s@.len(),
            find_char(s@, c, k as int) == find_char(s@, c, p as int),
        decreases s@.len() - k,
    {
        k = k + 1;
    }
    proof {
        lemma_find_char_bounds(s@, c, p as int);
    }
    k
}

/// Whether `line` holds the numeric-only marker.
fn holds_numeric_marker(line: &[char]) -> (r: bool)
    ensures
        r == holds_seq(line@, numeric_marker()),
{
    let m: Vec<char> = vec!['#', 'N', 'U', 'M', 'E', 'R', 'I', 'C', '_', 'O', 'N', 'L', 'Y', '#'];
    assert(m@ =~= numeric_marker());
    let ml = m.len();
    if line.len() < ml {
        assert(!holds_seq(line@, numeric_marker()));
        return false;
    }
    let len = line.len();
    let mut i: usize = 0;
    while i <= len - ml
        invariant
            ml == m@.len() == 14,
            m@ == numeric_marker(),
            ml <= line@.len(),
            len == line@.len(),
            i <= line@.len() - ml + 1,
            forall|a: int| 0 <= a < i ==> #[trigger] line@.subrange(a, a + 14) != numeric_marker(),
        decreases line@.len() - i,
    {
        let mut k: usize = 0;
        while k < ml && line[i + k] == m[k]
            invariant
                ml == m@.len() == 14,
                i + ml <= line@.len(),
                len == line@.len(),
                k <= ml,
                forall|b: int| 0 <= b < k ==> line@[i + b] == m@[b],
            decreases ml - k,
        {
            k = k + 1;
        }
        if k == ml {
            assert(line@.subrange(i as int, i + 14) =~= numeric_marker());
            return true;
        }
        assert(line@.subrange(i as int, i + 14)[k as int] != numeric_marker()[k as int]);
        i = i + 1;
    }
    proof {
        assert forall|a: int|
            0 <= a && a + numeric_marker().len() <= line@.len() implies #[trigger] line@.subrange(
            a,
            a + numeric_marker().len(),
        ) != numeric_marker() by {
            assert(a < i);
        }
    }
    false
}

/// The entry that one line of a prefix list gives, if any.
fn entry_of_line(line: &[char]) -> (r: Option<PrefixEntry>)
    ensures
        match r {
            Some(e) => entry_of(line@) == Some(e@),
            None => entry_of(line@) is None,
        },
{
    let h = find_char_exec(line, '#', 0);
    let before = sub_chars(line, 0, h);
    let key = trim_chars(before.as_slice());
    if key.len() == 0 {
        None
    } else if holds_numeric_marker(line) {
        Some(PrefixEntry { text: key, kind: PrefixType::NumericOnly })
    } else {
        Some(PrefixEntry { text: key, kind: PrefixType::Default })
    }
}

/// The table that a prefix list gives: one entry for each line that holds a prefix.
pub fn parse_prefixes(contents: &str) -> (r: Vec<PrefixEntry>)
    ensures
        r@.map_values(|e: PrefixEntry| e@) == parse_prefix_list(contents@),
{
    let s = chars_of(contents);
    let n = s.len();
    let mut out: Vec<PrefixEntry> = Vec::new();
    let mut p: usize = 0;
    loop
        invariant
            n == s@.len(),
            s@ == contents@,
            p <= n,
            out@.map_values(|e: PrefixEntry| e@) + parse_from(s@, p as int) == parse_from(s@, 0),
        decreases n + 1 - p,
    {
        let e = find_char_exec(s.as_slice(), '\n', p);
        let line = sub_chars(s.as_slice(), p, e);
        let ent = entry_of_line(line.as_slice());
        let ghost before = out@.map_values(|e: PrefixEntry| e@);
        match ent {
            Some(x) => {
                out.push(x);
                assert(out@.map_values(|e: PrefixEntry| e@) =~= before.push(x@));
            },
            None => {},
        }
        assert(out@.map_values(|e: PrefixEntry| e@) + parse_from(s@, e + 1) =~= before
            + parse_from(s@, p as int));
        if e == n {
            assert(out@.map_values(|e: PrefixEntry| e@) =~= out@.map_values(|e: PrefixEntry| e@)
                + parse_from(s@, e + 1));
            return out;
        }
        p = e + 1;
    }
}

/// Whether two character sequences are equal.
fn same_chars(a: &[char], b: &[char]) -> (r: bool)
    ensures
        r == (a@ == b@),
{
    if a.len() != b.len() {
        return false;
    }
    let mut k: usize = 0;
    while k < a.len()
        invariant
            a@.len() == b@.len(),
            k <= a@.len(),
            forall|m: int| 0 <= m < k ==> a@[m] == b@[m],
        decreases a@.len() - k,
    {
        if a[k] != b[k] {
            return false;
        }
        k = k + 1;
    }
    assert(a@ =~= b@);
    true
}

/// The kind that `tab` gives to `w`, the last entry for `w` deciding.
pub fn lookup_kind(tab: &Vec<PrefixEntry>, w: &[char]) -> (r: Option<PrefixType>)
    ensures
        r == lookup(tab@.map_values(|e: PrefixEntry| e@), w@),
{
    let mut k: usize = tab.len();
    assert(tab@.map_values(|e: PrefixEntry| e@).subrange(0, k as int) =~= tab@.map_values(
        |e: PrefixEntry| e@,
    ));
    while k > 0
        invariant
            k <= tab@.len(),
            lookup(tab@.map_values(|e: PrefixEntry| e@).subrange(0, k as int), w@) == lookup(
                tab@.map_values(|e: PrefixEntry| e@),
                w@,
            ),
        decreases k,
    {
        let ghost sub = tab@.map_values(|e: PrefixEntry| e@).subrange(0, k as int);
        assert(sub.drop_last() =~= tab@.map_values(|e: PrefixEntry| e@).subrange(0, k - 1));
        if same_chars(tab[k - 1].text.as_slice(), w) {
            return Some(tab[k - 1].kind);
        }
        k = k - 1;
    }
    None
}

} // verus!
