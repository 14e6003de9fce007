//! The keyword processor: the public face of the engine.
//!
//! A `KeywordProcessor` owns one trie and a live-keyword counter.  Keywords
//! are inserted and removed by phrase; extraction and replacement run over a
//! text in a single pass.  Its meaning is the keyword map of the trie: every
//! operation's contract is stated against it and against the text-level
//! tokenization.

use vstd::prelude::*;
use crate::extract;
use crate::extract::Keywords;
use crate::extract::SpanV;
use crate::extract::all_matches_from;
use crate::extract::longest_from;
use crate::extract::replaced_from;
use crate::extract::spans_view;
use crate::fold::str_eq;
use crate::fuzzy::Similarity;
use crate::fuzzy::scored_entries;
use crate::fuzzy::sim_pairs_view;
use crate::fuzzy::sorted_desc;
use crate::trie::pair_views;
use crate::tokens::lemma_tok_views;
use crate::tokens::text_keys;
use crate::tokens::text_tokens;
use crate::tokens::tokenize;
use crate::tokens::is_valid_keyword;
use crate::tokens::valid_keyword;
use crate::trie::Trie;
use crate::trie::terminal_count;
use crate::trie::lemma_terminal_count_le;

verus! {

/// Raised when a phrase is empty or carries no matchable token.
#[derive(Debug, PartialEq, Eq, Structural, Clone, Copy)]
pub struct InvalidKeywordError;

/// Raised when a strategy token is neither `all` nor `longest`.
#[derive(Debug, PartialEq, Eq, Structural, Clone, Copy)]
pub struct UnknownStrategyError;

/// How matches are selected: every overlapping match, or only the longest
/// per start position.
#[derive(Debug, PartialEq, Eq, Structural, Clone, Copy)]
pub enum ExtractorStrategy {
    Longest,
    All,
}

impl Default for ExtractorStrategy {
    /// The default strategy reports every match.
    fn default() -> (r: Self)
        ensures
            r == ExtractorStrategy::All,
    {
        ExtractorStrategy::All
    }
}

impl ExtractorStrategy {
    /// Parses a strategy token: `"longest"` or `"all"`; anything else is
    /// rejected.
    pub fn from_str(s: &str) -> (r: Result<ExtractorStrategy, UnknownStrategyError>)
        ensures
            r == Ok::<ExtractorStrategy, UnknownStrategyError>(ExtractorStrategy::Longest) <==> s@
                == "longest"@,
            r == Ok::<ExtractorStrategy, UnknownStrategyError>(ExtractorStrategy::All) <==> s@
                == "all"@,
            r == Err::<ExtractorStrategy, UnknownStrategyError>(UnknownStrategyError) <==> (s@
                != "longest"@ && s@ != "all"@),
    {
        proof {
            broadcast use vstd::string::group_string_axioms;

            reveal_strlit("longest");
            reveal_strlit("all");
            assert("longest"@.len() == 7);
            assert("all"@.len() == 3);
        }
        if str_eq(s, "longest") {
            Ok(ExtractorStrategy::Longest)
        } else if str_eq(s, "all") {
            Ok(ExtractorStrategy::All)
        } else {
            Err(UnknownStrategyError)
        }
    }
}

/// The matches that a strategy selects in a text, given the stored keywords.
pub open spec fn matches_of(
    kw: Keywords,
    cs: bool,
    text: Seq<char>,
    strategy: ExtractorStrategy,
) -> Seq<SpanV> {
    if strategy == ExtractorStrategy::All {
        all_matches_from(kw, text_keys(cs, text), text_tokens(text), 0)
    } else {
        longest_from(kw, text_keys(cs, text), text_tokens(text), 0)
    }
}

/// The result of inserting a batch of (word, clean name) items in order:
/// each valid word is inserted, each invalid one skipped.
pub open spec fn bulk_insert(kw: Keywords, cs: bool, items: Seq<(Seq<char>, Seq<char>)>) -> Keywords
    decreases items.len(),
{
    if items.len() == 0 {
        kw
    } else {
        bulk_insert(
            if valid_keyword(items[0].0) {
                kw.insert(text_keys(cs, items[0].0), items[0].1)
            } else {
                kw
            },
            cs,
            items.drop_first(),
        )
    }
}

/// The words of a batch that are rejected as invalid, in order.
pub open spec fn invalid_of(items: Seq<(Seq<char>, Seq<char>)>) -> Seq<Seq<char>>
    decreases items.len(),
{
    if items.len() == 0 {
        Seq::empty()
    } else {
        (if valid_keyword(items[0].0) {
            Seq::empty()
        } else {
            seq![items[0].0]
        }) + invalid_of(items.drop_first())
    }
}

/// Clones a string.
fn clone_str(s: &String) -> (r: String)
    ensures
        r@ == s@,
{
    s.clone()
}

/// One keyword dictionary: a trie of token-keyed nodes and the count of
/// stored keywords.
pub struct KeywordProcessor {
    pub trie: Trie,
    pub len: usize,
}

impl KeywordProcessor {
    /// The stored keywords: a map from token-key paths to clean names.
    pub open spec fn keywords(self) -> Keywords {
        self.trie.keywords()
    }

    /// The case policy fixed at construction.
    pub open spec fn case(self) -> bool {
        self.trie.case_sensitive
    }

    /// The number of stored keywords.
    pub open spec fn spec_len(self) -> nat {
        terminal_count(self.trie.nodes@)
    }

    /// Well-formedness: the trie is a tree and `len` counts its terminal
    /// nodes.
    pub open spec fn wf(self) -> bool {
        &&& self.trie.wf()
        &&& self.len as nat == terminal_count(self.trie.nodes@)
    }

    /// A fresh processor with no keywords.
    pub fn new(case_sensitive: bool) -> (p: KeywordProcessor)
        ensures
            p.wf(),
            p.case() == case_sensitive,
            p.keywords() == Map::<Seq<Seq<char>>, Seq<char>>::empty(),
            p.spec_len() == 0,
    {
        KeywordProcessor { trie: Trie::new(case_sensitive), len: 0 }
    }

    /// The number of stored keywords.
    pub fn len(&self) -> (r: usize)
        requires
            self.wf(),
        ensures
            r == self.spec_len(),
    {
        self.len
    }

    /// Whether no keyword is stored.
    pub fn is_empty(&self) -> (r: bool)
        requires
            self.wf(),
        ensures
            r == (self.spec_len() == 0),
    {
        self.len == 0
    }

    /// The case policy fixed at construction.
    pub fn case_sensitive(&self) -> (r: bool)
        ensures
            r == self.case(),
    {
        self.trie.case_sensitive
    }

    /// Inserts a keyword with an explicit clean name.  An invalid phrase is
    /// rejected; re-inserting an existing phrase overwrites its clean name
    /// without changing the count.
    pub fn add_keyword_with_clean_name(&mut self, word: &str, clean_name: &str) -> (r: Result<
        (),
        InvalidKeywordError,
    >)
        requires
            old(self).wf(),
        ensures
            final(self).wf(),
            final(self).case() == old(self).case(),
            valid_keyword(word@) ==> {
                &&& r == Ok::<(), InvalidKeywordError>(())
                &&& final(self).keywords() == old(self).keywords().insert(
                    text_keys(old(self).case(), word@),
                    clean_name@,
                )
                &&& final(self).spec_len() == old(self).spec_len() + (
                if old(self).keywords().contains_key(text_keys(old(self).case(), word@)) {
                    0nat
                } else {
                    1nat
                })
            },
            !valid_keyword(word@) ==> r == Err::<(), InvalidKeywordError>(InvalidKeywordError)
                && *final(self) == *old(self),
    {
        if !is_valid_keyword(word) {
            return Err(InvalidKeywordError);
        }
        let toks = tokenize(word);
        proof {
            lemma_tok_views(toks@, word@, self.trie.case_sensitive);
            lemma_terminal_count_le(self.trie.nodes@);
        }
        let created = self.trie.insert(&toks, clean_name);
        if created {
            let cap = self.trie.nodes.len();
            proof {
                lemma_terminal_count_le(self.trie.nodes@);
                assert(terminal_count(self.trie.nodes@) <= cap);
            }
            self.len = self.len + 1;
        }
        Ok(())
    }

    /// Inserts a keyword whose clean name is the phrase itself.
    pub fn add_keyword(&mut self, word: &str) -> (r: Result<(), InvalidKeywordError>)
        requires
            old(self).wf(),
        ensures
            final(self).wf(),
            final(self).case() == old(self).case(),
            valid_keyword(word@) ==> {
                &&& r == Ok::<(), InvalidKeywordError>(())
                &&& final(self).keywords() == old(self).keywords().insert(
                    text_keys(old(self).case(), word@),
                    word@,
                )
                &&& final(self).spec_len() == old(self).spec_len() + (
                if old(self).keywords().contains_key(text_keys(old(self).case(), word@)) {
                    0nat
                } else {
                    1nat
                })
            },
            !valid_keyword(word@) ==> r == Err::<(), InvalidKeywordError>(InvalidKeywordError)
                && *final(self) == *old(self),
    {
        self.add_keyword_with_clean_name(word, word)
    }

    /// Removes a keyword.  An invalid phrase is rejected; a phrase that was
    /// never stored is a silent no-op.
    pub fn remove_keyword(&mut self, word: &str) -> (r: Result<(), InvalidKeywordError>)
        requires
            old(self).wf(),
        ensures
            final(self).wf(),
            final(self).case() == old(self).case(),
            valid_keyword(word@) ==> {
                &&& r == Ok::<(), InvalidKeywordError>(())
                &&& final(self).keywords() == old(self).keywords().remove(
                    text_keys(old(self).case(), word@),
                )
                &&& final(self).spec_len() + (
                if old(self).keywords().contains_key(text_keys(old(self).case(), word@)) {
                    1nat
                } else {
                    0nat
                }) == old(self).spec_len()
            },
            !valid_keyword(word@) ==> r == Err::<(), InvalidKeywordError>(InvalidKeywordError)
                && *final(self) == *old(self),
    {
        if !is_valid_keyword(word) {
            return Err(InvalidKeywordError);
        }
        let toks = tokenize(word);
        proof {
            lemma_tok_views(toks@, word@, self.trie.case_sensitive);
        }
        let removed = self.trie.remove(&toks);
        if removed {
            self.len = self.len - 1;
        }
        Ok(())
    }

    /// Every match of the text under the given strategy, with byte spans,
    /// ordered by start position.
    pub fn extract_keywords_with_span(&self, text: String, strategy: ExtractorStrategy) -> (out:
        Vec<(String, usize, usize)>)
        requires
            self.wf(),
        ensures
            spans_view(out@) == matches_of(self.keywords(), self.case(), text@, strategy),
    {
        let toks = tokenize(text.as_str());
        proof {
            lemma_tok_views(toks@, text@, self.trie.case_sensitive);
            extract::lemma_keys_of_views(toks@, text@, self.trie.case_sensitive);
        }
        match strategy {
            ExtractorStrategy::All => extract::extract_all(&self.trie, &toks),
            ExtractorStrategy::Longest => extract::extract_longest(&self.trie, &toks),
        }
    }

    /// The clean names of the matches of the text under the given strategy,
    /// in match order.
    pub fn extract_keywords(&self, text: String, strategy: ExtractorStrategy) -> (out: Vec<String>)
        requires
            self.wf(),
        ensures
            out@.map_values(|s: String| s@) == matches_of(
                self.keywords(),
                self.case(),
                text@,
                strategy,
            ).map_values(|m: SpanV| m.0),
    {
        let ghost ms = matches_of(self.keywords(), self.case(), text@, strategy);
        let spans = self.extract_keywords_with_span(text, strategy);
        let mut out: Vec<String> = Vec::new();
        let mut i: usize = 0;
        while i < spans.len()
            invariant
                spans_view(spans@) == ms,
                i <= spans@.len(),
                out@.map_values(|s: String| s@) =~= ms.map_values(|m: SpanV| m.0).take(i as int),
            decreases spans@.len() - i,
        {
            let s = clone_first(&spans[i]);
            proof {
                assert(spans_view(spans@)[i as int] == ms[i as int]);
                assert(ms[i as int].0 == spans@[i as int].0@);
                assert(s@ == ms[i as int].0);
            }
            let ghost prev = out@;
            proof {
                assert(spans_view(spans@).len() == spans@.len());
                assert(prev.map_values(|s: String| s@).len() == prev.len());
                assert(ms.map_values(|m: SpanV| m.0).take(i as int).len() == i as int);
                assert(prev.len() == i as int);
            }
            out.push(s);
            proof {
                assert forall|k: int| 0 <= k < i + 1 implies (#[trigger] out@[k])@ == ms.map_values(
                    |m: SpanV| m.0,
                ).take(i as int + 1)[k] by {
                    if k < i {
                        assert(out@[k] == prev[k]);
                        assert(prev.map_values(|s: String| s@)[k] == ms.map_values(
                            |m: SpanV| m.0,
                        ).take(i as int)[k]);
                    } else {
                        assert(out@[k] == s);
                    }
                }
                assert(out@.map_values(|s: String| s@) =~= ms.map_values(|m: SpanV| m.0).take(
                    i as int + 1,
                ));
            }
            i = i + 1;
        }
        proof {
            assert(ms.map_values(|m: SpanV| m.0).take(spans@.len() as int) =~= ms.map_values(
                |m: SpanV| m.0,
            ));
        }
        out
    }

    /// The stored keywords as (phrase, clean name) pairs, in depth-first
    /// order; each phrase is reconstructed from the stored tokens.
    pub fn get_all_keywords_with_clean_names(&self) -> (out: Vec<(String, String)>)
        requires
            self.wf(),
        ensures
            pair_views(out@) == self.trie.entries(),
    {
        let prefix = String::new();
        proof {
            assert(prefix@ =~= Seq::<char>::empty());
        }
        self.trie.collect_entries(0, &prefix)
    }

    /// The clean names of stored phrases whose similarity to the query
    /// reaches `threshold_num / threshold_den`, each with its exact
    /// similarity, sorted by similarity descending.
    pub fn fuzzy_search(&self, query: &str, threshold_num: u64, threshold_den: u64) -> (out: Vec<
        (String, Similarity),
    >)
        requires
            self.wf(),
            threshold_den > 0,
        ensures
            sim_pairs_view(out@).to_multiset() == scored_entries(
                self.trie.entries(),
                self.case(),
                query@,
                threshold_num as nat,
                threshold_den as nat,
            ).to_multiset(),
            sorted_desc(sim_pairs_view(out@)),
    {
        crate::fuzzy::search_trie(&self.trie, query, threshold_num, threshold_den)
    }

    /// Inserts each word as a keyword standing for itself; the invalid ones
    /// are returned rather than inserted, so a whole batch can be fixed at
    /// once.
    pub fn add_keywords_from_iter(&mut self, words: &Vec<String>) -> (invalid: Vec<String>)
        requires
            old(self).wf(),
        ensures
            final(self).wf(),
            final(self).case() == old(self).case(),
            final(self).keywords() == bulk_insert(
                old(self).keywords(),
                old(self).case(),
                words@.map_values(|w: String| (w@, w@)),
            ),
            invalid@.map_values(|w: String| w@) == invalid_of(
                words@.map_values(|w: String| (w@, w@)),
            ),
    {
        let ghost cs = old(self).case();
        let ghost items = words@.map_values(|w: String| (w@, w@));
        let mut invalid: Vec<String> = Vec::new();
        let mut k: usize = 0;
        proof {
            assert(items.skip(0) =~= items);
        }
        while k < words.len()
            invariant
                self.wf(),
                self.case() == cs,
                items == words@.map_values(|w: String| (w@, w@)),
                k <= words@.len(),
                bulk_insert(self.keywords(), cs, items.skip(k as int)) == bulk_insert(
                    old(self).keywords(),
                    cs,
                    items,
                ),
                invalid@.map_values(|w: String| w@) + invalid_of(items.skip(k as int))
                    == invalid_of(items),
            decreases words@.len() - k,
        {
            let ghost pre = invalid@;
            proof {
                assert(items.skip(k as int)[0] == items[k as int]);
                assert(items.skip(k as int).drop_first() =~= items.skip(k as int + 1));
                assert(items[k as int] == (words@[k as int]@, words@[k as int]@));
            }
            let r = self.add_keyword(words[k].as_str());
            if r.is_err() {
                invalid.push(clone_str(&words[k]));
                proof {
                    assert(invalid@.map_values(|w: String| w@) =~= pre.map_values(|w: String| w@)
                        + seq![words@[k as int]@]);
                    assert(invalid_of(items.skip(k as int)) == seq![words@[k as int]@]
                        + invalid_of(items.skip(k as int + 1)));
                    assert((pre.map_values(|w: String| w@) + seq![words@[k as int]@]) + invalid_of(
                        items.skip(k as int + 1),
                    ) =~= pre.map_values(|w: String| w@) + invalid_of(items.skip(k as int)));
                }
            } else {
                proof {
                    assert(invalid_of(items.skip(k as int)) =~= invalid_of(
                        items.skip(k as int + 1),
                    ));
                }
            }
            k = k + 1;
        }
        proof {
            assert(items.skip(words@.len() as int) =~= Seq::<(Seq<char>, Seq<char>)>::empty());
            assert(invalid@.map_values(|w: String| w@) + Seq::<Seq<char>>::empty()
                =~= invalid@.map_values(|w: String| w@));
        }
        invalid
    }

    /// Inserts each (word, clean name) pair; the invalid words are returned
    /// rather than inserted, so a whole batch can be fixed at once.
    pub fn add_keywords_with_clean_name_from_iter(&mut self, pairs: &Vec<(String, String)>) -> (invalid:
        Vec<String>)
        requires
            old(self).wf(),
        ensures
            final(self).wf(),
            final(self).case() == old(self).case(),
            final(self).keywords() == bulk_insert(
                old(self).keywords(),
                old(self).case(),
                pairs@.map_values(|p: (String, String)| (p.0@, p.1@)),
            ),
            invalid@.map_values(|w: String| w@) == invalid_of(
                pairs@.map_values(|p: (String, String)| (p.0@, p.1@)),
            ),
    {
        let ghost cs = old(self).case();
        let ghost items = pairs@.map_values(|p: (String, String)| (p.0@, p.1@));
        let mut invalid: Vec<String> = Vec::new();
        let mut k: usize = 0;
        proof {
            assert(items.skip(0) =~= items);
        }
        while k < pairs.len()
            invariant
                self.wf(),
                self.case() == cs,
                items == pairs@.map_values(|p: (String, String)| (p.0@, p.1@)),
                k <= pairs@.len(),
                bulk_insert(self.keywords(), cs, items.skip(k as int)) == bulk_insert(
                    old(self).keywords(),
                    cs,
                    items,
                ),
                invalid@.map_values(|w: String| w@) + invalid_of(items.skip(k as int))
                    == invalid_of(items),
            decreases pairs@.len() - k,
        {
            let ghost pre = invalid@;
            proof {
                assert(items.skip(k as int)[0] == items[k as int]);
                assert(items.skip(k as int).drop_first() =~= items.skip(k as int + 1));
                assert(items[k as int] == (pairs@[k as int].0@, pairs@[k as int].1@));
            }
            let r = self.add_keyword_with_clean_name(pairs[k].0.as_str(), pairs[k].1.as_str());
            if r.is_err() {
                invalid.push(clone_str(&pairs[k].0));
                proof {
                    assert(invalid@.map_values(|w: String| w@) =~= pre.map_values(|w: String| w@)
                        + seq![pairs@[k as int].0@]);
                    assert(invalid_of(items.skip(k as int)) == seq![pairs@[k as int].0@]
                        + invalid_of(items.skip(k as int + 1)));
                    assert((pre.map_values(|w: String| w@) + seq![pairs@[k as int].0@])
                        + invalid_of(items.skip(k as int + 1)) =~= pre.map_values(|w: String| w@)
                        + invalid_of(items.skip(k as int)));
                }
            } else {
                proof {
                    assert(invalid_of(items.skip(k as int)) =~= invalid_of(
                        items.skip(k as int + 1),
                    ));
                }
            }
            k = k + 1;
        }
        proof {
            assert(items.skip(pairs@.len() as int) =~= Seq::<(Seq<char>, Seq<char>)>::empty());
            assert(invalid@.map_values(|w: String| w@) + Seq::<Seq<char>>::empty()
                =~= invalid@.map_values(|w: String| w@));
        }
        invalid
    }

    /// Substitutes every Longest-strategy match with its clean name; the
    /// unmatched regions are copied byte-for-byte.
    pub fn replace_keywords(&self, text: String) -> (out: String)
        requires
            self.wf(),
        ensures
            out@ == replaced_from(
                self.keywords(),
                text_keys(self.case(), text@),
                text_tokens(text@),
                0,
            ),
    {
        let toks = tokenize(text.as_str());
        proof {
            lemma_tok_views(toks@, text@, self.trie.case_sensitive);
            extract::lemma_keys_of_views(toks@, text@, self.trie.case_sensitive);
        }
        extract::replace_tokens(&self.trie, &toks)
    }
}

/// Inserting the same phrase twice leaves the dictionary where a single
/// insertion of the second clean name would have put it, and the second
/// insertion finds the keyword present, so the count stays unchanged: the
/// second clean name wins.
pub proof fn lemma_add_keyword_twice(
    kw: Keywords,
    cs: bool,
    word: Seq<char>,
    clean1: Seq<char>,
    clean2: Seq<char>,
)
    ensures
        kw.insert(text_keys(cs, word), clean1).contains_key(text_keys(cs, word)),
        kw.insert(text_keys(cs, word), clean1).insert(text_keys(cs, word), clean2) == kw.insert(
            text_keys(cs, word),
            clean2,
        ),
{
    assert(kw.insert(text_keys(cs, word), clean1).insert(text_keys(cs, word), clean2) =~= kw.insert(
        text_keys(cs, word),
        clean2,
    ));
}

/// Two phrases that share a key path — as case folding makes them in a
/// case-insensitive processor — occupy one slot of the dictionary:
/// inserting the second finds the first present, so the count stays put and
/// the later clean name wins.
pub proof fn lemma_add_fold_equal(
    kw: Keywords,
    cs: bool,
    w1: Seq<char>,
    w2: Seq<char>,
    clean1: Seq<char>,
    clean2: Seq<char>,
)
    requires
        text_keys(cs, w1) == text_keys(cs, w2),
    ensures
        kw.insert(text_keys(cs, w1), clean1).contains_key(text_keys(cs, w2)),
        kw.insert(text_keys(cs, w1), clean1).insert(text_keys(cs, w2), clean2) == kw.insert(
            text_keys(cs, w1),
            clean2,
        ),
{
    assert(kw.insert(text_keys(cs, w1), clean1).insert(text_keys(cs, w2), clean2) =~= kw.insert(
        text_keys(cs, w1),
        clean2,
    ));
}

/// When no stored phrase occurs in a text, replacement returns the text
/// unchanged, byte for byte: every token is copied, and the tokens
/// concatenate to the text.
pub proof fn lemma_replace_no_match(kw: Keywords, cs: bool, text: Seq<char>)
    requires
        forall|a: int, b: int|
            0 <= a <= b < text_tokens(text).len() ==> !crate::extract::contains_at(
                kw,
                text_keys(cs, text),
                a,
                b,
            ),
        crate::tokens::concat_texts(crate::tokens::word_bounds(text)) == text,
    ensures
        replaced_from(kw, text_keys(cs, text), text_tokens(text), 0) == text,
{
    let tv = text_tokens(text);
    let wb = crate::tokens::word_bounds(text);
    crate::extract::lemma_replaced_no_match(kw, text_keys(cs, text), tv, 0);
    assert(tv.map_values(|p: (Seq<char>, int)| p.0) =~= wb);
    assert(tv.map_values(|p: (Seq<char>, int)| p.0).skip(0) =~= wb);
}

/// Longest-strategy extraction never returns overlapping spans: on any text
/// and any dictionary, each match ends (in bytes) no later than the next
/// one begins.
pub proof fn lemma_longest_matches_non_overlapping(kw: Keywords, cs: bool, text: Seq<char>)
    ensures
        crate::extract::non_overlapping(
            matches_of(kw, cs, text, ExtractorStrategy::Longest),
        ),
{
    crate::extract::lemma_text_tokens_ordered(text);
    crate::extract::lemma_longest_non_overlapping(kw, text_keys(cs, text), text_tokens(text), 0);
}

/// All-strategy extraction is complete: whenever some token range of the
/// text forms a stored keyword, its match is among the results.
pub proof fn lemma_all_strategy_complete(kw: Keywords, cs: bool, text: Seq<char>, i: int, j: int)
    requires
        0 <= i <= j < text_tokens(text).len(),
        crate::extract::contains_at(kw, text_keys(cs, text), i, j),
    ensures
        matches_of(kw, cs, text, ExtractorStrategy::All).contains(
            crate::extract::match_at(kw, text_keys(cs, text), text_tokens(text), i, j),
        ),
{
    crate::extract::lemma_all_matches_complete(kw, text_keys(cs, text), text_tokens(text), i, j);
}

/// Clones the clean-name component of a reported span.
fn clone_first(m: &(String, usize, usize)) -> (r: String)
    ensures
        r@ == m.0@,
{
    m.0.clone()
}

} // verus!
