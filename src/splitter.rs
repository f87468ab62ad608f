//! The sentence boundary scanner.
use crate::bundled::{bundled_list, bundled_prefixes};
use crate::prefixes::{lookup, lookup_kind, parse_prefix_list, parse_prefixes, PrefixEntry, PrefixType};
use crate::text::{
    chars_of, contains_acronym, has_acronym, is_num, is_upper, is_ws, letter_uppercase, normalize,
    normalized_chars, numeric, skip_ws, string_of, trim, trim_chars, uppercase, white_space,
    lemma_skip_ws_bounds,
};
use vstd::prelude::*;

verus! {

/// A character that may end a sentence.
pub open spec fn is_terminator(c: char) -> bool {
    c == '.' || c == '?' || c == '!'
}

/// A character that may begin a sentence: an uppercase letter, a numeral, a double quote,
/// an opening parenthesis or an opening guillemet.
pub open spec fn is_starter(c: char) -> bool {
    uppercase(c) || c == '"' || c == '(' || numeric(c) || c == '\u{ab}'
}

/// The fragment holds an acronym, which holds back every boundary while it is being built.
pub open spec fn acronym_in(s: Seq<char>) -> bool {
    has_acronym(s, |c: char| letter_uppercase(c))
}

/// Start of the word that ends at `k`: after the last whitespace character before `k`.
pub open spec fn word_start(s: Seq<char>, k: int) -> int
    decreases k,
{
    if k <= 0 || k > s.len() {
        k
    } else if white_space(s[k - 1]) {
        k
    } else {
        word_start(s, k - 1)
    }
}

/// End of `s[b..e]` once terminators are dropped from its back.
pub open spec fn strip_terminators(s: Seq<char>, b: int, e: int) -> int
    decreases e - b,
{
    if b < e && 0 < e <= s.len() && is_terminator(s[e - 1]) {
        strip_terminators(s, b, e - 1)
    } else {
        e
    }
}

/// The last word of a fragment that ends in a terminator, without its trailing terminators:
/// the text that is looked up among the non-breaking prefixes.
pub open spec fn prefix_key(s: Seq<char>) -> Seq<char> {
    let b = word_start(s, s.len() as int);
    s.subrange(b, strip_terminators(s, b, s.len() as int))
}

/// Whether the terminator at `i` of `t` ends the sentence, `j` being the first character after
/// it that is not whitespace, `frag` the fragment up to and with the terminator, and `in_quotes`
/// whether a double quote is open.
pub open spec fn boundary(
    tab: Seq<(Seq<char>, PrefixType)>,
    t: Seq<char>,
    i: int,
    j: int,
    frag: Seq<char>,
    in_quotes: bool,
) -> bool {
    let tentative = if in_quotes {
        false
    } else if i > 0 && t[i - 1] == ')' {
        true
    } else {
        is_starter(t[j])
    };
    tentative && match lookup(tab, prefix_key(frag)) {
        None => true,
        Some(PrefixType::Default) => false,
        Some(PrefixType::NumericOnly) => !numeric(t[j]),
    }
}

/// Whether the terminator at `i` ends the sentence that `frag` has begun.
pub open spec fn splits_at(
    tab: Seq<(Seq<char>, PrefixType)>,
    t: Seq<char>,
    i: int,
    frag: Seq<char>,
    in_quotes: bool,
) -> bool {
    let f2 = frag.push(t[i]);
    let q2 = if t[i] == '"' {
        !in_quotes
    } else {
        in_quotes
    };
    let j = skip_ws(t, i + 1);
    is_terminator(t[i]) && !acronym_in(f2) && i < j < t.len() && boundary(tab, t, i, j, f2, q2)
}

/// The sentence that a fragment gives: the fragment trimmed, unless nothing is left.
pub open spec fn emit(frag: Seq<char>) -> Seq<Seq<char>> {
    if trim(frag).len() > 0 {
        seq![trim(frag)]
    } else {
        Seq::empty()
    }
}

/// The sentences that scanning `t` from `i` gives, `frag` being the fragment built since
/// the last boundary and `in_quotes` whether a double quote is open.
pub open spec fn scan(
    tab: Seq<(Seq<char>, PrefixType)>,
    t: Seq<char>,
    i: int,
    frag: Seq<char>,
    in_quotes: bool,
) -> Seq<Seq<char>>
    decreases t.len() - i,
{
    if i < 0 || i >= t.len() {
        emit(frag)
    } else {
        let c = t[i];
        let f2 = frag.push(c);
        let q2 = if c == '"' {
            !in_quotes
        } else {
            in_quotes
        };
        if splits_at(tab, t, i, frag, in_quotes) {
            emit(f2) + scan(tab, t, skip_ws(t, i + 1), Seq::empty(), q2)
        } else {
            scan(tab, t, i + 1, f2, q2)
        }
    }
}

/// The sentences of `text` under the prefix table `tab`.
pub open spec fn sentences(tab: Seq<(Seq<char>, PrefixType)>, text: Seq<char>) -> Seq<Seq<char>> {
    scan(tab, normalize(text), 0, Seq::empty(), false)
}

/// Why a splitter could not be built.
#[derive(Debug)]
pub enum SentenceSplitterError {
    /// The language code is not two lowercase ASCII letters.
    InvalidLanguageCode(String),
    /// A prefix file was named that does not exist.
    PrefixFileNotFound(String),
    /// Reading a prefix file failed.
    IoError(String),
    /// A pattern failed to compile.
    RegexError(String),
}

/// A lowercase ASCII letter.
pub open spec fn is_lower_ascii(c: char) -> bool {
    'a' <= c && c <= 'z'
}

/// A language code is exactly two lowercase ASCII letters.
pub open spec fn valid_language(language: Seq<char>) -> bool {
    language.len() == 2 && is_lower_ascii(language[0]) && is_lower_ascii(language[1])
}

/// Whether `language` is a well-formed language code: two lowercase ASCII letters.
pub fn is_valid_language(language: &str) -> (r: bool)
    ensures
        r == valid_language(language@),
{
    let code = chars_of(language);
    code.len() == 2 && 'a' <= code[0] && code[0] <= 'z' && 'a' <= code[1] && code[1] <= 'z'
}

/// The prefix list a splitter is built from: the one given, else the bundled one.
pub open spec fn chosen_list(language: Seq<char>, prefix_list: Option<&str>) -> Seq<char> {
    match prefix_list {
        Some(l) => l@,
        None => bundled_list(language),
    }
}

/// Splits text into sentences, with a table of non-breaking prefixes.
pub struct SentenceSplitter {
    non_breaking_prefixes: Vec<PrefixEntry>,
}

impl SentenceSplitter {
    /// The prefix table, entry by entry.
    pub closed spec fn table(&self) -> Seq<(Seq<char>, PrefixType)> {
        self.non_breaking_prefixes@.map_values(|e: PrefixEntry| e@)
    }

    /// Builds a splitter for a language. Its prefix table comes from `prefix_list`, the text of
    /// a prefix list, where one is given, and from the list bundled for the language otherwise;
    /// a language without a bundled list gets an empty table.
    pub fn new(language: &str, prefix_list: Option<&str>) -> (r: Result<
        SentenceSplitter,
        SentenceSplitterError,
    >)
        ensures
            r is Ok <==> valid_language(language@),
            match r {
                Ok(sp) => sp.table() == parse_prefix_list(
                    chosen_list(language@, prefix_list),
                ),
                Err(SentenceSplitterError::InvalidLanguageCode(code)) => code@ == language@,
                Err(_) => false,
            },
    {
        if !is_valid_language(language) {
            return Err(SentenceSplitterError::InvalidLanguageCode(language.to_owned()));
        }
        let code = chars_of(language);
        let list = match prefix_list {
            Some(l) => l,
            None => bundled_prefixes(code.as_slice()),
        };
        let non_breaking_prefixes = parse_prefixes(list);
        Ok(SentenceSplitter { non_breaking_prefixes })
    }

    /// Whether the terminator at `i` ends the sentence (see `boundary`).
    fn breaks_at(&self, t: &Vec<char>, i: usize, j: usize, frag: &Vec<char>, in_quotes: bool) -> (r:
        bool)
        requires
            i < j < t@.len(),
            frag@.len() > 0,
            is_terminator(frag@.last()),
        ensures
            r == boundary(self.table(), t@, i as int, j as int, frag@, in_quotes),
    {
        let tentative = if in_quotes {
            false
        } else if i > 0 && t[i - 1] == ')' {
            true
        } else {
            let nc = t[j];
            is_upper(nc) || nc == '"' || nc == '(' || is_num(nc) || nc == '\u{ab}'
        };
        if !tentative {
            return false;
        }
        let n = frag.len();
        let mut b: usize = n;
        while b > 0 && !is_ws(frag[b - 1])
            invariant
                b <= n == frag@.len(),
                word_start(frag@, b as int) == word_start(frag@, n as int),
            decreases b,
        {
            b = b - 1;
        }
        let mut e: usize = n;
        while e > b && is_terminator_char(frag[e - 1])
            invariant
                b <= e <= n == frag@.len(),
                strip_terminators(frag@, b as int, e as int) == strip_terminators(
                    frag@,
                    b as int,
                    n as int,
                ),
            decreases e,
        {
            e = e - 1;
        }
        let key = crate::text::sub_chars(frag.as_slice(), b, e);
        match lookup_kind(&self.non_breaking_prefixes, key.as_slice()) {
            None => true,
            Some(PrefixType::Default) => false,
            Some(PrefixType::NumericOnly) => !is_num(t[j]),
        }
    }

    /// Splits `text` into sentences: whitespace runs are collapsed and the text trimmed, then
    /// each terminator is judged in one pass from left to right.
    pub fn split(&self, text: &str) -> (r: Vec<String>)
        ensures
            r@.map_values(|s: String| s@) == sentences(self.table(), text@),
    {
        let t = normalized_chars(text);
        let n = t.len();
        let mut out: Vec<String> = Vec::new();
        let mut cur: Vec<char> = Vec::new();
        let mut in_quotes = false;
        let mut i: usize = 0;
        assert(out@.map_values(|s: String| s@) =~= Seq::<Seq<char>>::empty());
        while i < n
            invariant
                n == t@.len(),
                t@ == normalize(text@),
                i <= n,
                out@.map_values(|s: String| s@) + scan(self.table(), t@, i as int, cur@, in_quotes)
                    == scan(self.table(), t@, 0, Seq::empty(), false),
            decreases n - i,
        {
            let ghost before = out@.map_values(|s: String| s@);
            let ghost frag = cur@;
            let ghost q = in_quotes;
            let c = t[i];
            cur.push(c);
            if c == '"' {
                in_quotes = !in_quotes;
            }
            proof {
                lemma_skip_ws_bounds(t@, i + 1);
            }
            let mut next = i + 1;
            if is_terminator_char(c) && !contains_acronym(cur.as_slice()) {
                let mut j: usize = i + 1;
                while j < n && is_ws(t[j])
                    invariant
                        i < j <= n == t@.len(),
                        skip_ws(t@, j as int) == skip_ws(t@, i + 1),
                    decreases n - j,
                {
                    j = j + 1;
                }
                if j < n && self.breaks_at(&t, i, j, &cur, in_quotes) {
                    self.emit_into(&mut out, &cur);
                    cur = Vec::new();
                    next = j;
                }
            }
            assert(out@.map_values(|s: String| s@) + scan(self.table(), t@, next as int, cur@, in_quotes)
                == before + scan(self.table(), t@, i as int, frag, q));
            i = next;
        }
        self.emit_into(&mut out, &cur);
        out
    }

    /// Appends the sentence that `frag` gives, if any.
    fn emit_into(&self, out: &mut Vec<String>, frag: &Vec<char>)
        ensures
            final(out)@.map_values(|s: String| s@) == old(out)@.map_values(|s: String| s@) + emit(
                frag@,
            ),
    {
        let s = trim_chars(frag.as_slice());
        let ghost before = out@.map_values(|s: String| s@);
        if s.len() > 0 {
            out.push(string_of(s.as_slice()));
            assert(out@.map_values(|s: String| s@) =~= before + emit(frag@));
        } else {
            assert(before =~= before + emit(frag@));
        }
    }
}

/// Splits `text` into sentences with a splitter built for `language` (see
/// `SentenceSplitter::new`).
pub fn split_text_into_sentences(text: &str, language: &str, prefix_list: Option<&str>) -> (r:
    Result<Vec<String>, SentenceSplitterError>)
    ensures
        r is Ok <==> valid_language(language@),
        match r {
            Ok(v) => v@.map_values(|s: String| s@) == sentences(
                parse_prefix_list(chosen_list(language@, prefix_list)),
                text@,
            ),
            Err(SentenceSplitterError::InvalidLanguageCode(code)) => code@ == language@,
            Err(_) => false,
        },
{
    let splitter = SentenceSplitter::new(language, prefix_list)?;
    Ok(splitter.split(text))
}

/// Whether `c` may end a sentence.
fn is_terminator_char(c: char) -> (r: bool)
    ensures
        r == is_terminator(c),
{
    c == '.' || c == '?' || c == '!'
}

} // verus!
