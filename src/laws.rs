//! Properties that hold of every text and every prefix table.
use crate::bundled::bundled_list;
use crate::prefixes::{entry_of, find_char, parse_from, parse_prefix_list, PrefixType};
use crate::splitter::{acronym_in, emit, is_terminator, scan, sentences, splits_at, valid_language};
use crate::text::{
    collapse, lemma_skip_ws_bounds, ws_run, lemma_trim_back_bounds, normalize, skip_ws, trim, trim_back,
    white_space,
};
use vstd::prelude::*;

verus! {

/// The characters of `s` that are not whitespace, in order.
pub open spec fn visible(s: Seq<char>) -> Seq<char>
    decreases s.len(),
{
    if s.len() == 0 {
        s
    } else if white_space(s.last()) {
        visible(s.drop_last())
    } else {
        visible(s.drop_last()).push(s.last())
    }
}

/// The sentences written one after another.
pub open spec fn concat(ss: Seq<Seq<char>>) -> Seq<char>
    decreases ss.len(),
{
    if ss.len() == 0 {
        Seq::empty()
    } else {
        ss[0] + concat(ss.drop_first())
    }
}

proof fn lemma_visible_add(a: Seq<char>, b: Seq<char>)
    ensures
        visible(a + b) == visible(a) + visible(b),
    decreases b.len(),
{
    if b.len() == 0 {
        assert(a + b =~= a);
        assert(visible(a) + visible(b) =~= visible(a));
    } else {
        lemma_visible_add(a, b.drop_last());
        assert((a + b).drop_last() =~= a + b.drop_last());
        assert((a + b).last() == b.last());
        if white_space(b.last()) {
        } else {
            assert(visible(a) + visible(b.drop_last()).push(b.last()) =~= (visible(a) + visible(
                b.drop_last(),
            )).push(b.last()));
        }
    }
}

proof fn lemma_visible_blank(s: Seq<char>)
    requires
        forall|k: int| 0 <= k < s.len() ==> white_space(#[trigger] s[k]),
    ensures
        visible(s) == Seq::<char>::empty(),
    decreases s.len(),
{
    if s.len() > 0 {
        lemma_visible_blank(s.drop_last());
    }
}

proof fn lemma_visible_trim(s: Seq<char>)
    ensures
        visible(trim(s)) == visible(s),
{
    let b = skip_ws(s, 0);
    let e = trim_back(s, s.len() as int);
    lemma_skip_ws_bounds(s, 0);
    lemma_trim_back_bounds(s, s.len() as int);
    if b < e {
        assert(s =~= s.subrange(0, b) + s.subrange(b, e) + s.subrange(e, s.len() as int));
        lemma_visible_add(s.subrange(0, b) + s.subrange(b, e), s.subrange(e, s.len() as int));
        lemma_visible_add(s.subrange(0, b), s.subrange(b, e));
        lemma_visible_blank(s.subrange(0, b));
        lemma_visible_blank(s.subrange(e, s.len() as int));
        assert(visible(s.subrange(b, e)) + Seq::<char>::empty() =~= visible(s.subrange(b, e)));
        assert(Seq::<char>::empty() + visible(s.subrange(b, e)) =~= visible(s.subrange(b, e)));
    } else {
        assert forall|k: int| 0 <= k < s.len() implies white_space(#[trigger] s[k]) by {
            if k >= b {
                assert(k >= e);
            }
        }
        lemma_visible_blank(s);
        lemma_visible_blank(trim(s));
    }
}

proof fn lemma_emit(f: Seq<char>, rest: Seq<Seq<char>>)
    ensures
        visible(concat(emit(f) + rest)) == visible(f) + visible(concat(rest)),
{
    lemma_visible_trim(f);
    if trim(f).len() > 0 {
        assert((emit(f) + rest).drop_first() =~= rest);
        lemma_visible_add(trim(f), concat(rest));
    } else {
        assert(emit(f) + rest =~= rest);
        lemma_visible_blank(trim(f));
        assert(visible(f) + visible(concat(rest)) =~= visible(concat(rest)));
    }
}

proof fn lemma_scan_keeps_visible(
    tab: Seq<(Seq<char>, PrefixType)>,
    t: Seq<char>,
    i: int,
    frag: Seq<char>,
    in_quotes: bool,
)
    requires
        0 <= i <= t.len(),
    ensures
        visible(concat(scan(tab, t, i, frag, in_quotes))) == visible(frag) + visible(
            t.subrange(i, t.len() as int),
        ),
    decreases t.len() - i,
{
    if i == t.len() {
        lemma_emit(frag, Seq::empty());
        assert(visible(t.subrange(i, t.len() as int)) =~= Seq::<char>::empty());
    } else {
        let c = t[i];
        let f2 = frag.push(c);
        let q2 = if c == '"' {
            !in_quotes
        } else {
            in_quotes
        };
        let j = skip_ws(t, i + 1);
        lemma_skip_ws_bounds(t, i + 1);
        assert(t.subrange(i, t.len() as int) =~= seq![c] + t.subrange(i + 1, t.len() as int));
        lemma_visible_add(seq![c], t.subrange(i + 1, t.len() as int));
        assert(f2 =~= frag + seq![c]);
        lemma_visible_add(frag, seq![c]);
        lemma_scan_keeps_visible(tab, t, i + 1, f2, q2);
        if scan(tab, t, i, frag, in_quotes) != scan(tab, t, i + 1, f2, q2) {
            lemma_scan_keeps_visible(tab, t, j, Seq::empty(), q2);
            lemma_emit(f2, scan(tab, t, j, Seq::empty(), q2));
            assert(t.subrange(i + 1, t.len() as int) =~= t.subrange(i + 1, j) + t.subrange(
                j,
                t.len() as int,
            ));
            lemma_visible_add(t.subrange(i + 1, j), t.subrange(j, t.len() as int));
            lemma_visible_blank(t.subrange(i + 1, j));
            assert(visible(Seq::<char>::empty()) =~= Seq::<char>::empty());
            assert(Seq::<char>::empty() + visible(t.subrange(j, t.len() as int)) =~= visible(
                t.subrange(j, t.len() as int),
            ));
        }
    }
}

proof fn lemma_visible_collapse(s: Seq<char>)
    ensures
        visible(collapse(s)) == visible(s),
    decreases s.len(),
{
    if s.len() > 0 {
        if s.len() >= 2 && white_space(s[0]) && white_space(s[1]) {
            lemma_ws_run_stops(s);
            let k = ws_run(s) as int;
            lemma_visible_collapse(s.skip(k));
            assert(s =~= s.subrange(0, k) + s.skip(k));
            lemma_visible_add(s.subrange(0, k), s.skip(k));
            lemma_visible_blank(s.subrange(0, k));
            lemma_visible_add(seq![' '], collapse(s.skip(k)));
            lemma_visible_blank(seq![' ']);
            assert(Seq::<char>::empty() + visible(s.skip(k)) =~= visible(s.skip(k)));
        } else {
            lemma_visible_collapse(s.drop_first());
            assert(s =~= seq![s[0]] + s.drop_first());
            lemma_visible_add(seq![s[0]], s.drop_first());
            lemma_visible_add(seq![s[0]], collapse(s.drop_first()));
        }
    }
}

/// Nothing is lost: the characters that are not whitespace in the sentences, read one
/// sentence after the other, are those of the normalized text, which are those of the text,
/// in the same order.
pub proof fn lemma_no_loss(tab: Seq<(Seq<char>, PrefixType)>, text: Seq<char>)
    ensures
        visible(concat(sentences(tab, text))) == visible(normalize(text)),
        visible(normalize(text)) == visible(text),
{
    lemma_visible_collapse(text);
    lemma_visible_trim(collapse(text));
    let t = normalize(text);
    lemma_scan_keeps_visible(tab, t, 0, Seq::empty(), false);
    assert(t.subrange(0, t.len() as int) =~= t);
    assert(visible(Seq::<char>::empty()) + visible(t) =~= visible(t));
}

/// An empty text has no sentences.
pub proof fn lemma_empty_text(tab: Seq<(Seq<char>, PrefixType)>)
    ensures
        sentences(tab, Seq::empty()) == Seq::<Seq<char>>::empty(),
{
    let e = Seq::<char>::empty();
    assert(collapse(e) == e);
    assert(trim(e) =~= e);
    assert(normalize(e) =~= e);
    assert(trim(Seq::<char>::empty()).len() == 0);
}

/// A well-formed language code without a bundled list gets an empty prefix table.
pub proof fn lemma_unlisted_language(language: Seq<char>)
    requires
        valid_language(language),
        language != seq!['e', 'n'],
        language != seq!['d', 'e'],
        language != seq!['f', 'r'],
    ensures
        parse_prefix_list(bundled_list(language)) == Seq::<(Seq<char>, PrefixType)>::empty(),
{
    let e = Seq::<char>::empty();
    assert(bundled_list(language) == e);
    assert(find_char(e, '\n', 0) == 0);
    assert(e.subrange(0, 0) =~= e);
    assert(find_char(e, '#', 0) == 0);
    assert(trim(e) =~= e);
    assert(entry_of(e) is None);
    assert(parse_from(e, 1) == Seq::<(Seq<char>, PrefixType)>::empty());
}

/// The sentences joined by single spaces.
pub open spec fn join(ss: Seq<Seq<char>>) -> Seq<char>
    decreases ss.len(),
{
    if ss.len() == 0 {
        Seq::empty()
    } else if ss.len() == 1 {
        ss[0]
    } else {
        ss[0] + seq![' '] + join(ss.drop_first())
    }
}

/// Where the sentence that `frag` has begun at `i` ends.
pub open spec fn end_of(
    tab: Seq<(Seq<char>, PrefixType)>,
    t: Seq<char>,
    i: int,
    frag: Seq<char>,
    in_quotes: bool,
) -> int
    decreases t.len() - i,
{
    if i < 0 || i >= t.len() {
        t.len() as int
    } else if splits_at(tab, t, i, frag, in_quotes) {
        i + 1
    } else {
        end_of(
            tab,
            t,
            i + 1,
            frag.push(t[i]),
            if t[i] == '"' {
                !in_quotes
            } else {
                in_quotes
            },
        )
    }
}

/// Starts and ends with a character that is not whitespace.
pub open spec fn solid_ends(s: Seq<char>) -> bool {
    s.len() > 0 && !white_space(s[0]) && !white_space(s.last())
}

proof fn lemma_trim_solid(s: Seq<char>)
    requires
        solid_ends(s),
    ensures
        trim(s) == s,
{
    assert(skip_ws(s, 0) == 0);
    assert(trim_back(s, s.len() as int) == s.len());
    assert(s.subrange(0, s.len() as int) =~= s);
}

proof fn lemma_skip_ws_unique(s: Seq<char>, k: int, m: int)
    requires
        0 <= k <= m <= s.len(),
        forall|x: int| k <= x < m ==> white_space(#[trigger] s[x]),
        m < s.len() ==> !white_space(s[m]),
    ensures
        skip_ws(s, k) == m,
    decreases m - k,
{
    if k < m {
        lemma_skip_ws_unique(s, k + 1, m);
    }
}

/// The conditions under which the fragment `frag`, begun before `i`, is scanned alike in two
/// texts: it begins with a character that is not whitespace and ends with `t[i - 1]`.
pub open spec fn fragment_fits(t: Seq<char>, i: int, frag: Seq<char>) -> bool {
    0 <= i <= t.len() && (frag.len() > 0 ==> !white_space(frag[0]) && i > 0 && frag.last() == t[i
        - 1]) && (frag.len() == 0 && i < t.len() ==> !white_space(t[i]))
}

proof fn lemma_first_sentence(
    tab: Seq<(Seq<char>, PrefixType)>,
    t: Seq<char>,
    i: int,
    frag: Seq<char>,
    in_quotes: bool,
)
    requires
        fragment_fits(t, i, frag),
        t.len() == 0 || !white_space(t.last()),
    ensures
        i <= end_of(tab, t, i, frag, in_quotes) <= t.len(),
        i < t.len() ==> end_of(tab, t, i, frag, in_quotes) > i,
        end_of(tab, t, i, frag, in_quotes) > 0 ==> !white_space(
            t[end_of(tab, t, i, frag, in_quotes) - 1],
        ),
        frag.len() > 0 || i < t.len() ==> scan(tab, t, i, frag, in_quotes).len() > 0 && scan(
            tab,
            t,
            i,
            frag,
            in_quotes,
        )[0] == frag + t.subrange(i, end_of(tab, t, i, frag, in_quotes)),
    decreases t.len() - i,
{
    if i == t.len() {
        if frag.len() > 0 {
            lemma_trim_solid(frag);
        }
        assert(frag + t.subrange(i, i) =~= frag);
    } else {
        let c = t[i];
        let f2 = frag.push(c);
        let q2 = if c == '"' {
            !in_quotes
        } else {
            in_quotes
        };
        if splits_at(tab, t, i, frag, in_quotes) {
            lemma_trim_solid(f2);
            assert(f2 =~= frag + t.subrange(i, i + 1));
        } else {
            lemma_first_sentence(tab, t, i + 1, f2, q2);
            assert(f2 + t.subrange(i + 1, end_of(tab, t, i + 1, f2, q2)) =~= frag + t.subrange(
                i,
                end_of(tab, t, i + 1, f2, q2),
            ));
        }
    }
}

proof fn lemma_join_head(ss: Seq<Seq<char>>)
    requires
        ss.len() > 0,
    ensures
        ss.len() == 1 ==> join(ss) == ss[0],
        ss.len() > 1 ==> join(ss) == ss[0] + seq![' '] + join(ss.drop_first()),
        join(ss).subrange(0, ss[0].len() as int) == ss[0],
        ss[0].len() <= join(ss).len(),
{
    if ss.len() > 1 {
        assert((ss[0] + seq![' '] + join(ss.drop_first())).subrange(0, ss[0].len() as int)
            =~= ss[0]);
    } else {
        assert(ss[0].subrange(0, ss[0].len() as int) =~= ss[0]);
    }
}

/// Scanning `u` from `i2` gives what scanning `t` from `i` gives, where `u` from `i2` holds the
/// joined sentences of `t` from `i`, with the fragment taken off their front.
proof fn lemma_rescan(
    tab: Seq<(Seq<char>, PrefixType)>,
    t: Seq<char>,
    i: int,
    u: Seq<char>,
    i2: int,
    frag: Seq<char>,
    in_quotes: bool,
)
    requires
        fragment_fits(t, i, frag),
        t.len() == 0 || !white_space(t.last()),
        frag.len() == 0 && i > 0 ==> t[i - 1] != ')',
        0 <= i2 <= u.len(),
        frag + u.subrange(i2, u.len() as int) == join(scan(tab, t, i, frag, in_quotes)),
        frag.len() > 0 ==> i2 > 0 && u[i2 - 1] == frag.last(),
        frag.len() == 0 && i2 > 0 ==> u[i2 - 1] != ')',
    ensures
        scan(tab, u, i2, frag, in_quotes) == scan(tab, t, i, frag, in_quotes),
    decreases t.len() - i,
{
    let ss = scan(tab, t, i, frag, in_quotes);
    let rest = u.subrange(i2, u.len() as int);
    if i == t.len() {
        if frag.len() > 0 {
            lemma_trim_solid(frag);
            assert(ss =~= seq![frag]);
        } else {
            assert(trim(frag) =~= frag);
            assert(ss =~= Seq::<Seq<char>>::empty());
        }
        assert(rest.len() == 0);
        assert(scan(tab, u, i2, frag, in_quotes) == emit(frag));
    } else {
        let c = t[i];
        let f2 = frag.push(c);
        let q2 = if c == '"' {
            !in_quotes
        } else {
            in_quotes
        };
        let j = skip_ws(t, i + 1);
        lemma_skip_ws_bounds(t, i + 1);
        lemma_first_sentence(tab, t, i, frag, in_quotes);
        let e = end_of(tab, t, i, frag, in_quotes);
        lemma_join_head(ss);
        // `u` from `i2` begins with the rest of the first sentence
        assert forall|d: int| 0 <= d < e - i implies i2 + d < u.len() && #[trigger] u[i2 + d] == t[i
            + d] by {
            assert((frag + rest)[frag.len() + d] == join(ss)[frag.len() + d]);
            assert(join(ss).subrange(0, ss[0].len() as int)[frag.len() + d] == ss[0][frag.len()
                + d]);
        }
        assert(u[i2 + 0] == t[i + 0]);
        assert(u[i2] == c);
        let j2 = skip_ws(u, i2 + 1);
        if splits_at(tab, t, i, frag, in_quotes) {
            let tail = scan(tab, t, j, Seq::empty(), q2);
            lemma_first_sentence(tab, t, j, Seq::empty(), q2);
            lemma_trim_solid(f2);
            assert(ss == seq![f2] + tail);
            assert(ss.drop_first() =~= tail);
            assert(frag + rest == f2 + seq![' '] + join(tail));
            assert(rest =~= seq![c, ' '] + join(tail)) by {
                assert((frag + rest).subrange(frag.len() as int, (frag + rest).len() as int)
                    =~= rest);
                assert((f2 + seq![' '] + join(tail)).subrange(
                    frag.len() as int,
                    (frag + rest).len() as int,
                ) =~= seq![c, ' '] + join(tail));
            }
            lemma_join_head(tail);
            assert(tail[0][0] == t[j]);
            assert(u[i2 + 1] == rest[1]);
            assert(u[i2 + 1] == ' ');
            assert(u[i2 + 2] == t[j]) by {
                assert(u[i2 + 2] == rest[2]);
                assert(rest[2] == join(tail)[0]);
                assert(join(tail).subrange(0, tail[0].len() as int)[0] == tail[0][0]);
            }
            lemma_skip_ws_unique(u, i2 + 1, i2 + 2);
            assert(splits_at(tab, u, i2, frag, in_quotes));
            assert(u.subrange(i2 + 2, u.len() as int) =~= rest.subrange(2, rest.len() as int));
            assert(rest.subrange(2, rest.len() as int) =~= join(tail));
            assert(Seq::<char>::empty() + join(tail) =~= join(tail));
            assert(j == i + 1 || white_space(t[j - 1]));
            lemma_rescan(tab, t, j, u, i2 + 2, Seq::empty(), q2);
        } else {
            assert(ss == scan(tab, t, i + 1, f2, q2));
            assert(f2 + u.subrange(i2 + 1, u.len() as int) =~= frag + rest);
            if is_terminator(c) && !acronym_in(f2) {
                if j < t.len() {
                    lemma_first_sentence(tab, t, i + 1, f2, q2);
                    assert(e == end_of(tab, t, i + 1, f2, q2));
                    assert(j <= e - 1) by {
                        if j > e - 1 {
                            assert(white_space(t[e - 1]));
                        }
                    }
                    assert forall|x: int| i2 + 1 <= x < i2 + (j - i) implies white_space(
                        #[trigger] u[x],
                    ) by {
                        assert(u[i2 + (x - i2)] == t[i + (x - i2)]);
                    }
                    assert(u[i2 + (j - i)] == t[i + (j - i)]);
                    lemma_skip_ws_unique(u, i2 + 1, i2 + (j - i));
                    assert(!splits_at(tab, u, i2, frag, in_quotes));
                } else {
                    assert(i == t.len() - 1);
                    lemma_trim_solid(f2);
                    assert(ss =~= seq![f2]);
                    assert(rest =~= seq![c]) by {
                        assert((frag + rest).subrange(frag.len() as int, (frag + rest).len() as int)
                            =~= rest);
                        assert(f2.subrange(frag.len() as int, f2.len() as int) =~= seq![c]);
                    }
                    assert(!splits_at(tab, u, i2, frag, in_quotes));
                }
            }
            lemma_rescan(tab, t, i + 1, u, i2 + 1, f2, q2);
        }
    }
}

/// No two whitespace characters stand side by side.
pub open spec fn no_double_ws(s: Seq<char>) -> bool {
    forall|k: int| 0 <= k < s.len() - 1 ==> !(white_space(#[trigger] s[k]) && white_space(s[k + 1]))
}

proof fn lemma_ws_run_stops(s: Seq<char>)
    ensures
        ws_run(s) <= s.len(),
        ws_run(s) < s.len() ==> !white_space(s[ws_run(s) as int]),
        forall|k: int| 0 <= k < ws_run(s) ==> white_space(#[trigger] s[k]),
    decreases s.len(),
{
    if s.len() > 0 && white_space(s[0]) {
        lemma_ws_run_stops(s.drop_first());
        assert forall|k: int| 0 <= k < ws_run(s) implies white_space(#[trigger] s[k]) by {
            if k > 0 {
                assert(s[k] == s.drop_first()[k - 1]);
            }
        }
    }
}

proof fn lemma_collapse_shape(s: Seq<char>)
    ensures
        no_double_ws(collapse(s)),
        collapse(s).len() == 0 <==> s.len() == 0,
        s.len() > 0 ==> (white_space(collapse(s)[0]) <==> white_space(s[0])),
    decreases s.len(),
{
    if s.len() == 0 {
    } else if s.len() >= 2 && white_space(s[0]) && white_space(s[1]) {
        lemma_ws_run_stops(s);
        let r = s.skip(ws_run(s) as int);
        lemma_collapse_shape(r);
        if r.len() > 0 {
            assert(r[0] == s[ws_run(s) as int]);
        }
        assert forall|k: int| 0 <= k < collapse(s).len() - 1 implies !(white_space(
            #[trigger] collapse(s)[k],
        ) && white_space(collapse(s)[k + 1])) by {
            if k > 0 {
                assert(collapse(s)[k] == collapse(r)[k - 1]);
                assert(collapse(s)[k + 1] == collapse(r)[k]);
            }
        }
    } else {
        let r = s.drop_first();
        lemma_collapse_shape(r);
        assert forall|k: int| 0 <= k < collapse(s).len() - 1 implies !(white_space(
            #[trigger] collapse(s)[k],
        ) && white_space(collapse(s)[k + 1])) by {
            if k > 0 {
                assert(collapse(s)[k] == collapse(r)[k - 1]);
                assert(collapse(s)[k + 1] == collapse(r)[k]);
            } else {
                assert(collapse(s)[1] == collapse(r)[0]);
            }
        }
    }
}

proof fn lemma_collapse_fixed(s: Seq<char>)
    requires
        no_double_ws(s),
    ensures
        collapse(s) == s,
    decreases s.len(),
{
    if s.len() > 0 {
        assert(!(s.len() >= 2 && white_space(s[0]) && white_space(s[1])));
        let r = s.drop_first();
        assert forall|k: int| 0 <= k < r.len() - 1 implies !(white_space(#[trigger] r[k])
            && white_space(r[k + 1])) by {
            assert(r[k] == s[k + 1]);
        }
        lemma_collapse_fixed(r);
        assert(seq![s[0]] + r =~= s);
    }
}

proof fn lemma_normal_text(text: Seq<char>)
    ensures
        no_double_ws(normalize(text)),
        normalize(text).len() > 0 ==> solid_ends(normalize(text)),
{
    let c = collapse(text);
    lemma_collapse_shape(text);
    lemma_skip_ws_bounds(c, 0);
    lemma_trim_back_bounds(c, c.len() as int);
    let t = normalize(text);
    assert forall|k: int| 0 <= k < t.len() - 1 implies !(white_space(#[trigger] t[k])
        && white_space(t[k + 1])) by {
        let b = skip_ws(c, 0);
        assert(t[k] == c[b + k]);
        assert(t[k + 1] == c[b + k + 1]);
    }
}

proof fn lemma_clean_sentences(
    tab: Seq<(Seq<char>, PrefixType)>,
    t: Seq<char>,
    i: int,
    frag: Seq<char>,
    in_quotes: bool,
)
    requires
        fragment_fits(t, i, frag),
        t.len() == 0 || !white_space(t.last()),
        no_double_ws(t),
        no_double_ws(frag),
    ensures
        forall|k: int|
            0 <= k < scan(tab, t, i, frag, in_quotes).len() ==> solid_ends(
                #[trigger] scan(tab, t, i, frag, in_quotes)[k],
            ) && no_double_ws(scan(tab, t, i, frag, in_quotes)[k]),
    decreases t.len() - i,
{
    let ss = scan(tab, t, i, frag, in_quotes);
    if i == t.len() {
        if frag.len() > 0 {
            lemma_trim_solid(frag);
            assert(ss =~= seq![frag]);
        } else {
            assert(trim(frag) =~= frag);
            assert(ss =~= Seq::<Seq<char>>::empty());
        }
    } else {
        let c = t[i];
        let f2 = frag.push(c);
        let q2 = if c == '"' {
            !in_quotes
        } else {
            in_quotes
        };
        let j = skip_ws(t, i + 1);
        lemma_skip_ws_bounds(t, i + 1);
        assert(no_double_ws(f2)) by {
            assert forall|k: int| 0 <= k < f2.len() - 1 implies !(white_space(#[trigger] f2[k])
                && white_space(f2[k + 1])) by {
                if k == f2.len() - 2 {
                    assert(f2[k] == t[i - 1]);
                    assert(t[i - 1] == t[(i - 1) + 1 - 1]);
                }
            }
        }
        if splits_at(tab, t, i, frag, in_quotes) {
            lemma_trim_solid(f2);
            lemma_clean_sentences(tab, t, j, Seq::empty(), q2);
            let tail = scan(tab, t, j, Seq::empty(), q2);
            assert(ss == seq![f2] + tail);
            assert forall|k: int| 0 <= k < ss.len() implies solid_ends(#[trigger] ss[k])
                && no_double_ws(ss[k]) by {
                if k > 0 {
                    assert(ss[k] == tail[k - 1]);
                }
            }
        } else {
            lemma_clean_sentences(tab, t, i + 1, f2, q2);
            assert(ss == scan(tab, t, i + 1, f2, q2));
        }
    }
}

proof fn lemma_join_clean(ss: Seq<Seq<char>>)
    requires
        forall|k: int| 0 <= k < ss.len() ==> solid_ends(#[trigger] ss[k]) && no_double_ws(ss[k]),
    ensures
        no_double_ws(join(ss)),
        ss.len() > 0 ==> solid_ends(join(ss)),
    decreases ss.len(),
{
    if ss.len() > 1 {
        let tl = ss.drop_first();
        assert forall|k: int| 0 <= k < tl.len() implies solid_ends(#[trigger] tl[k])
            && no_double_ws(tl[k]) by {
            assert(tl[k] == ss[k + 1]);
        }
        lemma_join_clean(tl);
        let a = ss[0];
        let b = join(tl);
        let u = a + seq![' '] + b;
        assert(solid_ends(ss[0]));
        assert(join(ss) == u);
        assert forall|k: int| 0 <= k < u.len() - 1 implies !(white_space(#[trigger] u[k])
            && white_space(u[k + 1])) by {
            if k < a.len() - 1 {
                assert(u[k] == a[k] && u[k + 1] == a[k + 1]);
            } else if k == a.len() - 1 {
                assert(u[k] == a.last());
            } else if k == a.len() {
                assert(u[k + 1] == b[0]);
            } else {
                assert(u[k] == b[k - a.len() - 1]);
                assert(u[k + 1] == b[k - a.len()]);
            }
        }
        assert(u.last() == b.last());
    } else if ss.len() == 1 {
        assert(solid_ends(ss[0]));
    }
}

/// Splitting again the sentences joined by single spaces gives the same sentences.
pub proof fn lemma_resplit(tab: Seq<(Seq<char>, PrefixType)>, text: Seq<char>)
    ensures
        sentences(tab, join(sentences(tab, text))) == sentences(tab, text),
{
    let t = normalize(text);
    let ss = sentences(tab, text);
    let u = join(ss);
    lemma_normal_text(text);
    if t.len() > 0 {
        assert(t.last() == t[t.len() - 1]);
    }
    lemma_clean_sentences(tab, t, 0, Seq::empty(), false);
    lemma_join_clean(ss);
    lemma_collapse_fixed(u);
    if u.len() > 0 {
        lemma_trim_solid(u);
    } else {
        assert(trim(u) =~= u);
    }
    assert(normalize(u) == u);
    assert(u.subrange(0, u.len() as int) =~= u);
    assert(Seq::<char>::empty() + u =~= u);
    lemma_rescan(tab, t, 0, u, 0, Seq::empty(), false);
}

} // verus!
