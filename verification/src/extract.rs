//! Extraction: walking a tokenized text over the trie.
//!
//! A candidate match at token index `i` covers tokens `i..=j` whose key path
//! is a stored keyword; it spans from the byte offset of token `i` to the end
//! byte of token `j`.  The All strategy reports every candidate, ordered by
//! start and, within a start, by end; the Longest strategy keeps only the
//! longest candidate per start and resumes after it, so its matches never
//! overlap.  Replacement concatenates unmatched tokens verbatim and the
//! clean names of the Longest matches.

use vstd::prelude::*;
use vstd::string::StrSliceExecFns;
use vstd::string::StringExecFns;
use crate::fold::key_of;
use crate::tokens::Token;
use crate::tokens::byte_len;
use crate::tokens::tok_views;
use crate::trie::Trie;
use crate::trie::descend;
use crate::trie::lemma_descend_snoc;
use crate::trie::lemma_descend_split;

verus! {

/// The keyword map type: key paths to clean names.
pub type Keywords = Map<Seq<Seq<char>>, Seq<char>>;

/// A reported match in spec form: clean name, start byte, end byte.
pub type SpanV = (Seq<char>, int, int);

/// A token in spec form: its characters and its byte offset.
pub type TokV = (Seq<char>, int);

/// The key path of a token-view sequence under the case policy.
pub open spec fn keys_of(cs: bool, tv: Seq<TokV>) -> Seq<Seq<char>> {
    tv.map_values(|p: TokV| key_of(cs, p.0))
}

/// On tokenizer output, the view-level key path is the text-level one.
pub proof fn lemma_keys_of_views(toks: Seq<Token>, text: Seq<char>, cs: bool)
    requires
        crate::tokens::tokens_of(toks, text),
    ensures
        keys_of(cs, tok_views(toks)) == crate::tokens::text_keys(cs, text),
{
    assert forall|i: int| 0 <= i < toks.len() implies keys_of(cs, tok_views(toks))[i]
        == crate::tokens::text_keys(cs, text)[i] by {
        assert(tok_views(toks)[i] == (toks[i].text@, toks[i].offset as int));
        assert(crate::tokens::texts_of(toks)[i] == toks[i].text@);
    }
    assert(keys_of(cs, tok_views(toks)) =~= crate::tokens::text_keys(cs, text));
}

/// Tokens `i..=j` form a stored keyword.
pub open spec fn contains_at(kw: Keywords, ks: Seq<Seq<char>>, i: int, j: int) -> bool {
    kw.contains_key(ks.subrange(i, j + 1))
}

/// The clean name of the keyword formed by tokens `i..=j`.
pub open spec fn clean_at(kw: Keywords, ks: Seq<Seq<char>>, i: int, j: int) -> Seq<char> {
    kw[ks.subrange(i, j + 1)]
}

/// The byte span of tokens `i..=j`.
pub open spec fn span_of(tv: Seq<TokV>, i: int, j: int) -> (int, int) {
    (tv[i].1, tv[j].1 + byte_len(tv[j].0))
}

/// The match reported for tokens `i..=j`.
pub open spec fn match_at(kw: Keywords, ks: Seq<Seq<char>>, tv: Seq<TokV>, i: int, j: int) -> SpanV {
    (clean_at(kw, ks, i, j), span_of(tv, i, j).0, span_of(tv, i, j).1)
}

/// All matches anchored at token `i` whose last token is at least `j`, in
/// order of increasing end.
pub open spec fn matches_at_from(
    kw: Keywords,
    ks: Seq<Seq<char>>,
    tv: Seq<TokV>,
    i: int,
    j: int,
) -> Seq<SpanV>
    decreases tv.len() - j,
{
    if j < 0 || j >= tv.len() {
        Seq::empty()
    } else {
        (if contains_at(kw, ks, i, j) {
            seq![match_at(kw, ks, tv, i, j)]
        } else {
            Seq::empty()
        }) + matches_at_from(kw, ks, tv, i, j + 1)
    }
}

/// Every match anchored at token `i` or later: the All strategy, ordered by
/// start, then end.
pub open spec fn all_matches_from(kw: Keywords, ks: Seq<Seq<char>>, tv: Seq<TokV>, i: int) -> Seq<
    SpanV,
>
    decreases tv.len() - i,
{
    if i < 0 || i >= tv.len() {
        Seq::empty()
    } else {
        matches_at_from(kw, ks, tv, i, i) + all_matches_from(kw, ks, tv, i + 1)
    }
}

/// The last token index `e` with `i <= e <= j` such that tokens `i..=e` form
/// a keyword.
pub open spec fn best_end(kw: Keywords, ks: Seq<Seq<char>>, i: int, j: int) -> Option<int>
    decreases j - i + 1,
{
    if j < i {
        None
    } else if contains_at(kw, ks, i, j) {
        Some(j)
    } else {
        best_end(kw, ks, i, j - 1)
    }
}

/// The end index a successful `best_end` returns lies between `i` and `j`.
pub proof fn lemma_best_end_bounds(kw: Keywords, ks: Seq<Seq<char>>, i: int, j: int)
    ensures
        best_end(kw, ks, i, j) matches Some(e) ==> i <= e <= j && contains_at(kw, ks, i, e),
    decreases j - i + 1,
{
    if j < i {
    } else if contains_at(kw, ks, i, j) {
    } else {
        lemma_best_end_bounds(kw, ks, i, j - 1);
    }
}

/// The matches of the Longest strategy from token `i` on: the longest
/// keyword at each start, with the next start after its end.
pub open spec fn longest_from(kw: Keywords, ks: Seq<Seq<char>>, tv: Seq<TokV>, i: int) -> Seq<
    SpanV,
>
    decreases tv.len() - i,
    via longest_from_decreases
{
    if i < 0 || i >= tv.len() {
        Seq::empty()
    } else {
        match best_end(kw, ks, i, tv.len() - 1) {
            None => longest_from(kw, ks, tv, i + 1),
            Some(e) => seq![match_at(kw, ks, tv, i, e)] + longest_from(kw, ks, tv, e + 1),
        }
    }
}

#[via_fn]
proof fn longest_from_decreases(kw: Keywords, ks: Seq<Seq<char>>, tv: Seq<TokV>, i: int) {
    if 0 <= i < tv.len() {
        lemma_best_end_bounds(kw, ks, i, tv.len() - 1);
    }
}

/// The replaced text from token `i` on: unmatched tokens verbatim, matched
/// spans replaced by their clean names.
pub open spec fn replaced_from(kw: Keywords, ks: Seq<Seq<char>>, tv: Seq<TokV>, i: int) -> Seq<
    char,
>
    decreases tv.len() - i,
    via replaced_from_decreases
{
    if i < 0 || i >= tv.len() {
        Seq::empty()
    } else {
        match best_end(kw, ks, i, tv.len() - 1) {
            None => tv[i].0 + replaced_from(kw, ks, tv, i + 1),
            Some(e) => clean_at(kw, ks, i, e) + replaced_from(kw, ks, tv, e + 1),
        }
    }
}

#[via_fn]
proof fn replaced_from_decreases(kw: Keywords, ks: Seq<Seq<char>>, tv: Seq<TokV>, i: int) {
    if 0 <= i < tv.len() {
        lemma_best_end_bounds(kw, ks, i, tv.len() - 1);
    }
}

/// The spec view of a reported span triple.
pub open spec fn span_view(m: (String, usize, usize)) -> SpanV {
    (m.0@, m.1 as int, m.2 as int)
}

/// The spec view of a vector of reported spans.
pub open spec fn spans_view(v: Seq<(String, usize, usize)>) -> Seq<SpanV> {
    v.map_values(|m: (String, usize, usize)| span_view(m))
}

/// Every token's byte span fits in usize arithmetic.
pub open spec fn spans_bounded(tv: Seq<TokV>) -> bool {
    forall|i: int| 0 <= i < tv.len() ==> 0 <= #[trigger] tv[i].1 && tv[i].1 + byte_len(tv[i].0) <= usize::MAX
}

/// When no keyword is anchored at `i` with an end at `j` or beyond, there are
/// no matches left to report from `(i, j)`.
proof fn lemma_matches_at_empty(kw: Keywords, ks: Seq<Seq<char>>, tv: Seq<TokV>, i: int, j: int)
    requires
        forall|j2: int| j <= j2 < tv.len() ==> !contains_at(kw, ks, i, j2),
    ensures
        matches_at_from(kw, ks, tv, i, j) == Seq::<SpanV>::empty(),
    decreases tv.len() - j,
{
    if j < 0 || j >= tv.len() {
    } else {
        lemma_matches_at_empty(kw, ks, tv, i, j + 1);
        assert(matches_at_from(kw, ks, tv, i, j) =~= Seq::<SpanV>::empty());
    }
}

/// When no keyword is anchored at `i` with an end between `j` and `hi`, the
/// best end up to `hi` equals the best end below `j`.
proof fn lemma_best_end_skip(kw: Keywords, ks: Seq<Seq<char>>, i: int, j: int, hi: int)
    requires
        j - 1 <= hi,
        forall|j2: int| j <= j2 <= hi ==> !contains_at(kw, ks, i, j2),
    ensures
        best_end(kw, ks, i, hi) == best_end(kw, ks, i, j - 1),
    decreases hi - j + 1,
{
    if hi <= j - 1 {
    } else {
        lemma_best_end_skip(kw, ks, i, j, hi - 1);
    }
}

/// Walking the trie from token `i`: all matches anchored there, in order of
/// increasing end.
fn collect_matches_at(t: &Trie, toks: &Vec<Token>, i: usize) -> (out: Vec<(String, usize, usize)>)
    requires
        t.wf(),
        spans_bounded(tok_views(toks@)),
        i < toks@.len(),
    ensures
        spans_view(out@) == matches_at_from(
            t.keywords(),
            keys_of(t.case_sensitive, tok_views(toks@)),
            tok_views(toks@),
            i as int,
            i as int,
        ),
{
    let ghost kw = t.keywords();
    let ghost tv = tok_views(toks@);
    let ghost ks = keys_of(t.case_sensitive, tv);
    let mut out: Vec<(String, usize, usize)> = Vec::new();
    let n = toks.len();
    let mut cur: usize = 0;
    let mut j: usize = i;
    proof {
        assert(ks.subrange(i as int, i as int) =~= Seq::<Seq<char>>::empty());
    }
    while j < n
        invariant
            t.wf(),
            spans_bounded(tv),
            kw == t.keywords(),
            tv == tok_views(toks@),
            ks == keys_of(t.case_sensitive, tv),
            n == toks@.len(),
            n == tv.len(),
            i <= j <= n,
            i < toks@.len(),
            cur < t.nodes@.len(),
            descend(t.nodes@, t.case_sensitive, 0, ks.subrange(i as int, j as int)) == Some(
                cur as int,
            ),
            spans_view(out@) + matches_at_from(kw, ks, tv, i as int, j as int)
                == matches_at_from(kw, ks, tv, i as int, i as int),
        decreases n - j,
    {
        let ghost key = ks[j as int];
        proof {
            assert(tv[j as int] == (toks@[j as int].text@, toks@[j as int].offset as int));
            assert(key == key_of(t.case_sensitive, toks@[j as int].text@));
            assert(ks.subrange(i as int, j as int).push(key) =~= ks.subrange(i as int, j as int + 1));
        }
        let r = t.find_child(cur, toks[j].text.as_str());
        proof {
            lemma_descend_snoc(
                t.nodes@,
                t.case_sensitive,
                0,
                ks.subrange(i as int, j as int),
                key,
            );
        }
        match r {
            None => {
                proof {
                    assert forall|j2: int| j <= j2 < tv.len() implies !contains_at(
                        kw,
                        ks,
                        i as int,
                        j2,
                    ) by {
                        assert(ks.subrange(i as int, j2 + 1) =~= ks.subrange(i as int, j as int + 1)
                            + ks.subrange(j as int + 1, j2 + 1));
                        lemma_descend_split(
                            t.nodes@,
                            t.case_sensitive,
                            0,
                            ks.subrange(i as int, j as int + 1),
                            ks.subrange(j as int + 1, j2 + 1),
                        );
                        assert(t.node_at(ks.subrange(i as int, j2 + 1)) is None);
                        assert(!t.has_path(ks.subrange(i as int, j2 + 1)));
                        assert(!kw.contains_key(ks.subrange(i as int, j2 + 1)));
                    }
                    lemma_matches_at_empty(kw, ks, tv, i as int, j as int);
                    assert(spans_view(out@) + Seq::<SpanV>::empty() =~= spans_view(out@));
                }
                return out;
            },
            Some(c) => {
                proof {
                    assert(t.node_at(ks.subrange(i as int, j as int + 1)) == Some(c as int));
                }
                let is_term = self_clean_is_some(t, c);
                if is_term {
                    let clean = clone_clean(t, c);
                    let start = toks[i].offset;
                    let end = toks[j].offset + toks[j].text.as_str().len();
                    let ghost prev = out@;
                    let ghost m = match_at(kw, ks, tv, i as int, j as int);
                    proof {
                        assert(t.has_path(ks.subrange(i as int, j as int + 1)));
                        assert(contains_at(kw, ks, i as int, j as int));
                        assert(clean_at(kw, ks, i as int, j as int) == t.nodes@[c as int].clean_name->0@);
                        assert(matches_at_from(kw, ks, tv, i as int, j as int) == seq![m]
                            + matches_at_from(kw, ks, tv, i as int, j as int + 1));
                        assert(tv[j as int] == (toks@[j as int].text@, toks@[j as int].offset as int));
                        assert(byte_len(tv[j as int].0) <= usize::MAX);
                    }
                    out.push((clean, start, end));
                    proof {
                        assert(span_view(out@.last()) == m);
                        assert(spans_view(out@) =~= spans_view(prev) + seq![m]);
                        assert((spans_view(prev) + seq![m]) + matches_at_from(
                            kw,
                            ks,
                            tv,
                            i as int,
                            j as int + 1,
                        ) =~= spans_view(prev) + matches_at_from(kw, ks, tv, i as int, j as int));
                    }
                } else {
                    proof {
                        assert(!t.has_path(ks.subrange(i as int, j as int + 1)));
                        assert(!contains_at(kw, ks, i as int, j as int));
                        assert(matches_at_from(kw, ks, tv, i as int, j as int)
                            =~= matches_at_from(kw, ks, tv, i as int, j as int + 1));
                    }
                }
                cur = c;
            },
        }
        j = j + 1;
    }
    proof {
        assert(matches_at_from(kw, ks, tv, i as int, n as int) =~= Seq::<SpanV>::empty());
        assert(spans_view(out@) + Seq::<SpanV>::empty() =~= spans_view(out@));
    }
    out
}

/// Every match of the tokenized text, ordered by start and, within a start,
/// by end: the All strategy.
pub(crate) fn extract_all(t: &Trie, toks: &Vec<Token>) -> (out: Vec<(String, usize, usize)>)
    requires
        t.wf(),
        spans_bounded(tok_views(toks@)),
    ensures
        spans_view(out@) == all_matches_from(
            t.keywords(),
            keys_of(t.case_sensitive, tok_views(toks@)),
            tok_views(toks@),
            0,
        ),
{
    let ghost kw = t.keywords();
    let ghost tv = tok_views(toks@);
    let ghost ks = keys_of(t.case_sensitive, tv);
    let mut out: Vec<(String, usize, usize)> = Vec::new();
    let n = toks.len();
    let mut i: usize = 0;
    while i < n
        invariant
            t.wf(),
            spans_bounded(tv),
            kw == t.keywords(),
            tv == tok_views(toks@),
            ks == keys_of(t.case_sensitive, tv),
            n == toks@.len(),
            n == tv.len(),
            i <= n,
            spans_view(out@) + all_matches_from(kw, ks, tv, i as int) == all_matches_from(
                kw,
                ks,
                tv,
                0,
            ),
        decreases n - i,
    {
        let ghost prev = out@;
        let mut found = collect_matches_at(t, toks, i);
        out.append(&mut found);
        proof {
            assert(spans_view(out@) =~= spans_view(prev) + matches_at_from(
                kw,
                ks,
                tv,
                i as int,
                i as int,
            ));
            assert((spans_view(prev) + matches_at_from(kw, ks, tv, i as int, i as int))
                + all_matches_from(kw, ks, tv, i as int + 1) =~= spans_view(prev)
                + all_matches_from(kw, ks, tv, i as int));
        }
        i = i + 1;
    }
    proof {
        assert(all_matches_from(kw, ks, tv, n as int) =~= Seq::<SpanV>::empty());
        assert(spans_view(out@) + Seq::<SpanV>::empty() =~= spans_view(out@));
    }
    out
}

/// Walks the trie from token `i` and keeps the last keyword seen: the
/// longest match anchored there, with the clean name and the index of its
/// final token.
fn find_longest_at(t: &Trie, toks: &Vec<Token>, i: usize) -> (r: Option<(String, usize)>)
    requires
        t.wf(),
        spans_bounded(tok_views(toks@)),
        i < toks@.len(),
    ensures
        ({
            let kw = t.keywords();
            let ks = keys_of(t.case_sensitive, tok_views(toks@));
            match r {
                Some(p) => best_end(kw, ks, i as int, toks@.len() - 1) == Some(p.1 as int) && p.0@
                    == clean_at(kw, ks, i as int, p.1 as int) && i <= p.1 < toks@.len(),
                None => best_end(kw, ks, i as int, toks@.len() - 1) is None,
            }
        }),
{
    let ghost kw = t.keywords();
    let ghost tv = tok_views(toks@);
    let ghost ks = keys_of(t.case_sensitive, tv);
    let n = toks.len();
    let mut cur: usize = 0;
    let mut j: usize = i;
    let mut best: Option<(String, usize)> = None;
    proof {
        assert(ks.subrange(i as int, i as int) =~= Seq::<Seq<char>>::empty());
    }
    while j < n
        invariant
            t.wf(),
            spans_bounded(tv),
            kw == t.keywords(),
            tv == tok_views(toks@),
            ks == keys_of(t.case_sensitive, tv),
            n == toks@.len(),
            n == tv.len(),
            i <= j <= n,
            i < toks@.len(),
            cur < t.nodes@.len(),
            descend(t.nodes@, t.case_sensitive, 0, ks.subrange(i as int, j as int)) == Some(
                cur as int,
            ),
            match best {
                Some(p) => best_end(kw, ks, i as int, j - 1) == Some(p.1 as int) && p.0@
                    == clean_at(kw, ks, i as int, p.1 as int) && i <= p.1 < tv.len(),
                None => best_end(kw, ks, i as int, j - 1) is None,
            },
        decreases n - j,
    {
        let ghost key = ks[j as int];
        proof {
            assert(tv[j as int] == (toks@[j as int].text@, toks@[j as int].offset as int));
            assert(key == key_of(t.case_sensitive, toks@[j as int].text@));
            assert(ks.subrange(i as int, j as int).push(key) =~= ks.subrange(i as int, j as int + 1));
        }
        let r = t.find_child(cur, toks[j].text.as_str());
        proof {
            lemma_descend_snoc(
                t.nodes@,
                t.case_sensitive,
                0,
                ks.subrange(i as int, j as int),
                key,
            );
        }
        match r {
            None => {
                proof {
                    assert forall|j2: int| j <= j2 < tv.len() implies !contains_at(
                        kw,
                        ks,
                        i as int,
                        j2,
                    ) by {
                        assert(ks.subrange(i as int, j2 + 1) =~= ks.subrange(i as int, j as int + 1)
                            + ks.subrange(j as int + 1, j2 + 1));
                        lemma_descend_split(
                            t.nodes@,
                            t.case_sensitive,
                            0,
                            ks.subrange(i as int, j as int + 1),
                            ks.subrange(j as int + 1, j2 + 1),
                        );
                        assert(t.node_at(ks.subrange(i as int, j2 + 1)) is None);
                        assert(!t.has_path(ks.subrange(i as int, j2 + 1)));
                        assert(!kw.contains_key(ks.subrange(i as int, j2 + 1)));
                    }
                    lemma_best_end_skip(kw, ks, i as int, j as int, tv.len() - 1);
                }
                return best;
            },
            Some(c) => {
                proof {
                    assert(t.node_at(ks.subrange(i as int, j as int + 1)) == Some(c as int));
                }
                let is_term = self_clean_is_some(t, c);
                proof {
                    if is_term {
                        assert(t.has_path(ks.subrange(i as int, j as int + 1)));
                        assert(contains_at(kw, ks, i as int, j as int));
                        assert(best_end(kw, ks, i as int, j as int) == Some(j as int));
                    } else {
                        assert(!t.has_path(ks.subrange(i as int, j as int + 1)));
                        assert(!contains_at(kw, ks, i as int, j as int));
                        assert(best_end(kw, ks, i as int, j as int) == best_end(
                            kw,
                            ks,
                            i as int,
                            j - 1,
                        ));
                    }
                }
                if is_term {
                    let clean = clone_clean(t, c);
                    best = Some((clean, j));
                }
                cur = c;
            },
        }
        j = j + 1;
    }
    best
}

/// The non-overlapping, left-to-right maximal matches of the tokenized
/// text: the Longest strategy.
pub(crate) fn extract_longest(t: &Trie, toks: &Vec<Token>) -> (out: Vec<(String, usize, usize)>)
    requires
        t.wf(),
        spans_bounded(tok_views(toks@)),
    ensures
        spans_view(out@) == longest_from(
            t.keywords(),
            keys_of(t.case_sensitive, tok_views(toks@)),
            tok_views(toks@),
            0,
        ),
{
    let ghost kw = t.keywords();
    let ghost tv = tok_views(toks@);
    let ghost ks = keys_of(t.case_sensitive, tv);
    let mut out: Vec<(String, usize, usize)> = Vec::new();
    let n = toks.len();
    let mut i: usize = 0;
    while i < n
        invariant
            t.wf(),
            spans_bounded(tv),
            kw == t.keywords(),
            tv == tok_views(toks@),
            ks == keys_of(t.case_sensitive, tv),
            n == toks@.len(),
            n == tv.len(),
            i <= n,
            spans_view(out@) + longest_from(kw, ks, tv, i as int) == longest_from(
                kw,
                ks,
                tv,
                0,
            ),
        decreases n - i,
    {
        let ghost prev = out@;
        match find_longest_at(t, toks, i) {
            Some(p) => {
                let (clean, e) = p;
                let start = toks[i].offset;
                let end = toks[e].offset + toks[e].text.as_str().len();
                let ghost m = match_at(kw, ks, tv, i as int, e as int);
                proof {
                    assert(tv[e as int] == (toks@[e as int].text@, toks@[e as int].offset as int));
                    assert(byte_len(tv[e as int].0) <= usize::MAX);
                    assert(longest_from(kw, ks, tv, i as int) == seq![m] + longest_from(
                        kw,
                        ks,
                        tv,
                        e as int + 1,
                    ));
                }
                out.push((clean, start, end));
                proof {
                    assert(span_view(out@.last()) == m);
                    assert(spans_view(out@) =~= spans_view(prev) + seq![m]);
                    assert((spans_view(prev) + seq![m]) + longest_from(kw, ks, tv, e as int + 1)
                        =~= spans_view(prev) + longest_from(kw, ks, tv, i as int));
                }
                i = e + 1;
            },
            None => {
                proof {
                    assert(longest_from(kw, ks, tv, i as int) == longest_from(
                        kw,
                        ks,
                        tv,
                        i as int + 1,
                    ));
                }
                i = i + 1;
            },
        }
    }
    proof {
        assert(longest_from(kw, ks, tv, n as int) =~= Seq::<SpanV>::empty());
        assert(spans_view(out@) + Seq::<SpanV>::empty() =~= spans_view(out@));
    }
    out
}

/// Builds the replaced text: unmatched tokens byte-for-byte, matched spans
/// replaced by their clean names.
pub(crate) fn replace_tokens(t: &Trie, toks: &Vec<Token>) -> (out: String)
    requires
        t.wf(),
        spans_bounded(tok_views(toks@)),
    ensures
        out@ == replaced_from(
            t.keywords(),
            keys_of(t.case_sensitive, tok_views(toks@)),
            tok_views(toks@),
            0,
        ),
{
    let ghost kw = t.keywords();
    let ghost tv = tok_views(toks@);
    let ghost ks = keys_of(t.case_sensitive, tv);
    let mut out = String::new();
    let n = toks.len();
    let mut i: usize = 0;
    while i < n
        invariant
            t.wf(),
            spans_bounded(tv),
            kw == t.keywords(),
            tv == tok_views(toks@),
            ks == keys_of(t.case_sensitive, tv),
            n == toks@.len(),
            n == tv.len(),
            i <= n,
            out@ + replaced_from(kw, ks, tv, i as int) == replaced_from(kw, ks, tv, 0),
        decreases n - i,
    {
        let ghost prev = out@;
        match find_longest_at(t, toks, i) {
            Some(p) => {
                let (clean, e) = p;
                proof {
                    assert(replaced_from(kw, ks, tv, i as int) == clean_at(
                        kw,
                        ks,
                        i as int,
                        e as int,
                    ) + replaced_from(kw, ks, tv, e as int + 1));
                }
                out.append(clean.as_str());
                proof {
                    assert((prev + clean@) + replaced_from(kw, ks, tv, e as int + 1) =~= prev
                        + replaced_from(kw, ks, tv, i as int));
                }
                i = e + 1;
            },
            None => {
                proof {
                    assert(tv[i as int] == (toks@[i as int].text@, toks@[i as int].offset as int));
                    assert(replaced_from(kw, ks, tv, i as int) == toks@[i as int].text@
                        + replaced_from(kw, ks, tv, i as int + 1));
                }
                out.append(toks[i].text.as_str());
                proof {
                    assert((prev + toks@[i as int].text@) + replaced_from(
                        kw,
                        ks,
                        tv,
                        i as int + 1,
                    ) =~= prev + replaced_from(kw, ks, tv, i as int));
                }
                i = i + 1;
            },
        }
    }
    proof {
        assert(replaced_from(kw, ks, tv, n as int) =~= Seq::<char>::empty());
        assert(out@ + Seq::<char>::empty() =~= out@);
    }
    out
}

/// Token spans do not run backwards: each token ends no later than any
/// later token begins.
pub open spec fn spans_ordered(tv: Seq<TokV>) -> bool {
    forall|a: int, b: int|
        0 <= a < b < tv.len() ==> #[trigger] tv[a].1 + byte_len(tv[a].0) <= #[trigger] tv[b].1
}

/// Matches are non-overlapping and ordered: each one ends no later than the
/// next begins.
pub open spec fn non_overlapping(ms: Seq<SpanV>) -> bool {
    forall|a: int, b: int| 0 <= a < b < ms.len() ==> (#[trigger] ms[a]).2 <= (#[trigger] ms[b]).1
}

/// The token views of a text are ordered.
pub proof fn lemma_text_tokens_ordered(text: Seq<char>)
    ensures
        spans_ordered(crate::tokens::text_tokens(text)),
{
    let tv = crate::tokens::text_tokens(text);
    let wb = crate::tokens::word_bounds(text);
    assert forall|a: int, b: int| 0 <= a < b < tv.len() implies #[trigger] tv[a].1 + byte_len(
        tv[a].0,
    ) <= #[trigger] tv[b].1 by {
        crate::tokens::lemma_concat_texts_take_succ(wb, a);
        crate::tokens::lemma_encode_utf8_add(
            crate::tokens::concat_texts(wb.take(a)),
            wb[a],
        );
        lemma_prefix_byte_len_monotone(wb, a + 1, b);
    }
}

/// Concatenating more texts never shortens the encoding.
proof fn lemma_prefix_byte_len_monotone(ts: Seq<Seq<char>>, i: int, j: int)
    requires
        0 <= i <= j <= ts.len(),
    ensures
        byte_len(crate::tokens::concat_texts(ts.take(i))) <= byte_len(
            crate::tokens::concat_texts(ts.take(j)),
        ),
    decreases j - i,
{
    if i < j {
        crate::tokens::lemma_concat_texts_take_succ(ts, i);
        crate::tokens::lemma_encode_utf8_add(crate::tokens::concat_texts(ts.take(i)), ts[i]);
        lemma_prefix_byte_len_monotone(ts, i + 1, j);
    }
}

/// Every match of the Longest strategy starts no earlier than token `i`.
proof fn lemma_longest_starts_after(kw: Keywords, ks: Seq<Seq<char>>, tv: Seq<TokV>, i: int)
    requires
        spans_ordered(tv),
        0 <= i,
    ensures
        forall|a: int|
            0 <= a < longest_from(kw, ks, tv, i).len() ==> (i < tv.len() ==> tv[i].1
                <= (#[trigger] longest_from(kw, ks, tv, i)[a]).1),
    decreases tv.len() - i,
{
    if i < 0 || i >= tv.len() {
    } else {
        lemma_best_end_bounds(kw, ks, i, tv.len() - 1);
        match best_end(kw, ks, i, tv.len() - 1) {
            None => {
                lemma_longest_starts_after(kw, ks, tv, i + 1);
                assert(longest_from(kw, ks, tv, i) == longest_from(kw, ks, tv, i + 1));
                assert forall|a: int| 0 <= a < longest_from(kw, ks, tv, i).len() implies tv[i].1
                    <= (#[trigger] longest_from(kw, ks, tv, i)[a]).1 by {
                    assert(longest_from(kw, ks, tv, i)[a] == longest_from(kw, ks, tv, i + 1)[a]);
                    if i + 1 < tv.len() {
                        assert(tv[i + 1].1 <= (longest_from(kw, ks, tv, i + 1)[a]).1);
                        assert(tv[i].1 + byte_len(tv[i].0) <= tv[i + 1].1);
                    } else {
                        assert(longest_from(kw, ks, tv, i + 1).len() == 0);
                        assert(false);
                    }
                }
            },
            Some(e) => {
                lemma_longest_starts_after(kw, ks, tv, e + 1);
                assert forall|a: int| 0 <= a < longest_from(kw, ks, tv, i).len() implies tv[i].1
                    <= (#[trigger] longest_from(kw, ks, tv, i)[a]).1 by {
                    if a == 0 {
                        assert(longest_from(kw, ks, tv, i)[0] == match_at(kw, ks, tv, i, e));
                    } else {
                        assert(longest_from(kw, ks, tv, i)[a] == longest_from(kw, ks, tv, e + 1)[a
                            - 1]);
                        if e + 1 < tv.len() {
                            assert(tv[e + 1].1 <= (longest_from(kw, ks, tv, e + 1)[a - 1]).1);
                            if i < e + 1 {
                                assert(tv[i].1 + byte_len(tv[i].0) <= tv[e + 1].1);
                            }
                        } else {
                            assert(longest_from(kw, ks, tv, e + 1).len() == 0);
                            assert(false);
                        }
                    }
                }
            },
        }
    }
}

/// The Longest strategy yields non-overlapping matches: each match ends, in
/// bytes, no later than the next one begins.  Matches never nest or cross.
pub proof fn lemma_longest_non_overlapping(kw: Keywords, ks: Seq<Seq<char>>, tv: Seq<TokV>, i: int)
    requires
        spans_ordered(tv),
        0 <= i,
    ensures
        non_overlapping(longest_from(kw, ks, tv, i)),
    decreases tv.len() - i,
{
    if i < 0 || i >= tv.len() {
    } else {
        lemma_best_end_bounds(kw, ks, i, tv.len() - 1);
        match best_end(kw, ks, i, tv.len() - 1) {
            None => {
                lemma_longest_non_overlapping(kw, ks, tv, i + 1);
                assert(longest_from(kw, ks, tv, i) == longest_from(kw, ks, tv, i + 1));
            },
            Some(e) => {
                lemma_longest_non_overlapping(kw, ks, tv, e + 1);
                lemma_longest_starts_after(kw, ks, tv, e + 1);
                let ms = longest_from(kw, ks, tv, i);
                let tail = longest_from(kw, ks, tv, e + 1);
                assert forall|a: int, b: int| 0 <= a < b < ms.len() implies (#[trigger] ms[a]).2
                    <= (#[trigger] ms[b]).1 by {
                    if a == 0 {
                        assert(ms[0] == match_at(kw, ks, tv, i, e));
                        assert(ms[b] == tail[b - 1]);
                        assert(ms[0].2 == tv[e].1 + byte_len(tv[e].0));
                        if e + 1 < tv.len() {
                            assert(tv[e + 1].1 <= tail[b - 1].1);
                            assert(tv[e].1 + byte_len(tv[e].0) <= tv[e + 1].1);
                        } else {
                            assert(tail.len() == 0);
                        }
                    } else {
                        assert(ms[a] == tail[a - 1] && ms[b] == tail[b - 1]);
                    }
                }
            },
        }
    }
}

/// The All strategy is complete: whenever tokens `i..=j` form a stored
/// keyword, their match is reported.
pub proof fn lemma_all_matches_complete(
    kw: Keywords,
    ks: Seq<Seq<char>>,
    tv: Seq<TokV>,
    i: int,
    j: int,
)
    requires
        0 <= i <= j < tv.len(),
        contains_at(kw, ks, i, j),
    ensures
        all_matches_from(kw, ks, tv, 0).contains(match_at(kw, ks, tv, i, j)),
{
    lemma_matches_at_contains(kw, ks, tv, i, i, j);
    lemma_all_from_contains(kw, ks, tv, 0, i, match_at(kw, ks, tv, i, j));
}

/// The per-anchor scan reports every match with an end at or after where it
/// starts scanning.
proof fn lemma_matches_at_contains(
    kw: Keywords,
    ks: Seq<Seq<char>>,
    tv: Seq<TokV>,
    i: int,
    jlo: int,
    j: int,
)
    requires
        0 <= i,
        0 <= jlo <= j < tv.len(),
        contains_at(kw, ks, i, j),
    ensures
        matches_at_from(kw, ks, tv, i, jlo).contains(match_at(kw, ks, tv, i, j)),
    decreases j - jlo,
{
    let m = match_at(kw, ks, tv, i, j);
    if jlo == j {
        assert(matches_at_from(kw, ks, tv, i, jlo)[0] == m);
    } else {
        lemma_matches_at_contains(kw, ks, tv, i, jlo + 1, j);
        let rest = matches_at_from(kw, ks, tv, i, jlo + 1);
        let idx = choose|idx: int| 0 <= idx < rest.len() && rest[idx] == m;
        let head = if contains_at(kw, ks, i, jlo) {
            seq![match_at(kw, ks, tv, i, jlo)]
        } else {
            Seq::<SpanV>::empty()
        };
        assert(matches_at_from(kw, ks, tv, i, jlo)[head.len() + idx] == m);
    }
}

/// Anything reported for one anchor is reported by the whole scan.
proof fn lemma_all_from_contains(
    kw: Keywords,
    ks: Seq<Seq<char>>,
    tv: Seq<TokV>,
    lo: int,
    i: int,
    m: SpanV,
)
    requires
        0 <= lo <= i < tv.len(),
        matches_at_from(kw, ks, tv, i, i).contains(m),
    ensures
        all_matches_from(kw, ks, tv, lo).contains(m),
    decreases i - lo,
{
    if lo == i {
        let idx = choose|idx: int|
            0 <= idx < matches_at_from(kw, ks, tv, i, i).len() && matches_at_from(
                kw,
                ks,
                tv,
                i,
                i,
            )[idx] == m;
        assert(all_matches_from(kw, ks, tv, lo)[idx] == m);
    } else {
        lemma_all_from_contains(kw, ks, tv, lo + 1, i, m);
        let rest = all_matches_from(kw, ks, tv, lo + 1);
        let idx = choose|idx: int| 0 <= idx < rest.len() && rest[idx] == m;
        let head = matches_at_from(kw, ks, tv, lo, lo);
        assert(all_matches_from(kw, ks, tv, lo)[head.len() + idx] == m);
    }
}

/// When no stored phrase occurs anywhere in the tokens, replacement copies
/// every token: the result is the concatenation of the tokens.
pub proof fn lemma_replaced_no_match(kw: Keywords, ks: Seq<Seq<char>>, tv: Seq<TokV>, i: int)
    requires
        forall|a: int, b: int| 0 <= a <= b < tv.len() ==> !contains_at(kw, ks, a, b),
        0 <= i <= tv.len(),
    ensures
        replaced_from(kw, ks, tv, i) == crate::tokens::concat_texts(
            tv.map_values(|p: TokV| p.0).skip(i),
        ),
    decreases tv.len() - i,
{
    let texts = tv.map_values(|p: TokV| p.0);
    if i >= tv.len() {
        assert(texts.skip(i) =~= Seq::<Seq<char>>::empty());
    } else {
        lemma_best_end_skip(kw, ks, i, i, tv.len() - 1);
        assert(best_end(kw, ks, i, tv.len() - 1) is None);
        lemma_replaced_no_match(kw, ks, tv, i + 1);
        assert(texts.skip(i)[0] == tv[i].0);
        assert(texts.skip(i).drop_first() =~= texts.skip(i + 1));
        assert(crate::tokens::concat_texts(texts.skip(i)) == tv[i].0
            + crate::tokens::concat_texts(texts.skip(i + 1)));
    }
}

/// Whether the node ends a keyword.
fn self_clean_is_some(t: &Trie, c: usize) -> (r: bool)
    requires
        c < t.nodes@.len(),
    ensures
        r == (t.nodes@[c as int].clean_name is Some),
{
    t.nodes[c].clean_name.is_some()
}

/// Clones the clean name of a terminal node.
fn clone_clean(t: &Trie, c: usize) -> (r: String)
    requires
        c < t.nodes@.len(),
        t.nodes@[c as int].clean_name is Some,
    ensures
        r@ == t.nodes@[c as int].clean_name->0@,
{
    match &t.nodes[c].clean_name {
        Some(s) => s.clone(),
        None => String::new(),
    }
}

} // verus!
