//! Word-boundary tokenization and keyword validity.
//!
//! Texts and keyword phrases are segmented into maximal Unicode
//! word-boundary units (words, punctuation runs, whitespace runs), each
//! carrying its byte offset in the owning text.  Tokens are the trie's edge
//! labels; matching is always token-sequence equality.

use vstd::prelude::*;
use vstd::string::StrSliceExecFns;
use vstd::utf8::encode_utf8;
use unicode_segmentation::UnicodeSegmentation;
use crate::fold::is_unicode_ws;
use crate::fold::is_whitespace_char;

verus! {

/// A word-boundary segment of a text: its byte offset in the owning text and
/// its characters.
pub struct Token {
    pub offset: usize,
    pub text: String,
}

/// The UAX#29 word-boundary segmentation of a character sequence, named: the
/// segmentation rules live in the unicode-segmentation crate.
pub uninterp spec fn word_bounds(s: Seq<char>) -> Seq<Seq<char>>;

/// The length, in bytes, of the UTF-8 encoding of a character sequence.
pub open spec fn byte_len(s: Seq<char>) -> nat {
    encode_utf8(s).len()
}

/// Concatenation of a sequence of character sequences.
pub open spec fn concat_texts(ts: Seq<Seq<char>>) -> Seq<char>
    decreases ts.len(),
{
    if ts.len() == 0 {
        Seq::empty()
    } else {
        ts[0] + concat_texts(ts.drop_first())
    }
}

/// The texts of a token sequence, without their offsets.
pub open spec fn texts_of(toks: Seq<Token>) -> Seq<Seq<char>> {
    toks.map_values(|t: Token| t.text@)
}

/// Each token sits at the byte offset of everything before it.
pub open spec fn offsets_ok(toks: Seq<Token>) -> bool {
    forall|i: int|
        0 <= i < toks.len() ==> #[trigger] toks[i].offset == byte_len(
            concat_texts(texts_of(toks).take(i)),
        )
}

/// Everything the tokenizer guarantees about its output for a given text.
pub open spec fn tokens_of(toks: Seq<Token>, text: Seq<char>) -> bool {
    &&& texts_of(toks) == word_bounds(text)
    &&& concat_texts(texts_of(toks)) == text
    &&& forall|i: int| 0 <= i < toks.len() ==> (#[trigger] toks[i].text@).len() > 0
    &&& offsets_ok(toks)
}

/// Relies on unicode-segmentation's `split_word_bound_indices`: it splits the
/// text on UAX#29 word boundaries; the concatenation of the segments is the
/// whole text again; each segment is non-empty and reported at its byte
/// offset in the text.
#[verifier::external_body]
pub(crate) fn tokenize(text: &str) -> (toks: Vec<Token>)
    ensures
        texts_of(toks@) == word_bounds(text@),
        concat_texts(texts_of(toks@)) == text@,
        tokens_of(toks@, text@),
        forall|i: int|
            0 <= i < toks@.len() ==> #[trigger] toks@[i].offset + byte_len(toks@[i].text@)
                <= usize::MAX,
{
    text.split_word_bound_indices().map(
        |p: (usize, &str)| Token { offset: p.0, text: p.1.to_string() },
    ).collect()
}

/// Concatenating one more text appends it at the end.
pub proof fn lemma_concat_texts_take_succ(ts: Seq<Seq<char>>, i: int)
    requires
        0 <= i < ts.len(),
    ensures
        concat_texts(ts.take(i + 1)) == concat_texts(ts.take(i)) + ts[i],
    decreases i,
{
    if i == 0 {
        assert(ts.take(1).drop_first() =~= Seq::<Seq<char>>::empty());
        assert(ts.take(0) =~= Seq::<Seq<char>>::empty());
        assert(ts.take(1).len() == 1);
        assert(ts.take(1)[0] == ts[0]);
        assert(concat_texts(Seq::<Seq<char>>::empty()) == Seq::<char>::empty());
        assert(concat_texts(ts.take(1)) == ts[0] + Seq::<char>::empty());
        assert(ts[0] + Seq::<char>::empty() =~= ts[0]);
        assert(concat_texts(ts.take(0)) + ts[0] =~= ts[0]);
    } else {
        lemma_concat_texts_take_succ(ts.drop_first(), i - 1);
        assert(ts.take(i + 1).drop_first() =~= ts.drop_first().take(i));
        assert(ts.take(i).drop_first() =~= ts.drop_first().take(i - 1));
        assert(ts.drop_first()[i - 1] == ts[i]);
        assert(concat_texts(ts.take(i + 1)) == ts[0] + concat_texts(ts.drop_first().take(i)));
        assert(ts[0] + (concat_texts(ts.drop_first().take(i - 1)) + ts[i]) =~= (ts[0]
            + concat_texts(ts.drop_first().take(i - 1))) + ts[i]);
    }
}

/// UTF-8 encoding distributes over concatenation.
pub proof fn lemma_encode_utf8_add(a: Seq<char>, b: Seq<char>)
    ensures
        encode_utf8(a + b) == encode_utf8(a) + encode_utf8(b),
    decreases a.len(),
{
    if a.len() == 0 {
        assert(a + b =~= b);
        assert(encode_utf8(a) + encode_utf8(b) =~= encode_utf8(b));
    } else {
        lemma_encode_utf8_add(a.drop_first(), b);
        assert((a + b).drop_first() =~= a.drop_first() + b);
        assert((a + b)[0] == a[0]);
        assert(encode_utf8(a + b) =~= encode_utf8(a) + encode_utf8(b));
    }
}

/// The spec view of an executable token sequence: characters and offset of
/// each token.
pub open spec fn tok_views(toks: Seq<Token>) -> Seq<(Seq<char>, int)> {
    toks.map_values(|t: Token| (t.text@, t.offset as int))
}

/// The token views that tokenizing a text must produce: the word-boundary
/// segments, each at the byte offset of everything before it.
pub open spec fn text_tokens(text: Seq<char>) -> Seq<(Seq<char>, int)> {
    Seq::new(
        word_bounds(text).len(),
        |i: int|
            (word_bounds(text)[i], byte_len(concat_texts(word_bounds(text).take(i))) as int),
    )
}

/// The key path of a text under the case policy: its word-boundary segments,
/// each reduced to its key.
pub open spec fn text_keys(cs: bool, text: Seq<char>) -> Seq<Seq<char>> {
    word_bounds(text).map_values(|t: Seq<char>| crate::fold::key_of(cs, t))
}

/// What the tokenizer returns views exactly as the text-level token
/// sequence, with in-bounds byte spans.
pub proof fn lemma_tok_views(toks: Seq<Token>, text: Seq<char>, cs: bool)
    requires
        tokens_of(toks, text),
        forall|i: int|
            0 <= i < toks.len() ==> #[trigger] toks[i].offset + byte_len(toks[i].text@)
                <= usize::MAX,
    ensures
        tok_views(toks) == text_tokens(text),
        crate::trie::key_path(cs, toks) == text_keys(cs, text),
        forall|i: int|
            0 <= i < tok_views(toks).len() ==> 0 <= #[trigger] tok_views(toks)[i].1 && tok_views(
                toks,
            )[i].1 + byte_len(tok_views(toks)[i].0) <= usize::MAX,
{
    assert forall|i: int| 0 <= i < toks.len() implies tok_views(toks)[i] == text_tokens(text)[i] by {
        assert(texts_of(toks)[i] == toks[i].text@);
        assert(texts_of(toks).take(i) =~= word_bounds(text).take(i));
    }
    assert(tok_views(toks) =~= text_tokens(text));
    assert forall|i: int| 0 <= i < toks.len() implies crate::trie::key_path(cs, toks)[i]
        == text_keys(cs, text)[i] by {
        assert(texts_of(toks)[i] == toks[i].text@);
    }
    assert(crate::trie::key_path(cs, toks) =~= text_keys(cs, text));
    assert forall|i: int| 0 <= i < tok_views(toks).len() implies 0 <= #[trigger] tok_views(
        toks,
    )[i].1 && tok_views(toks)[i].1 + byte_len(tok_views(toks)[i].0) <= usize::MAX by {
        assert(tok_views(toks)[i] == (toks[i].text@, toks[i].offset as int));
        assert(toks[i].offset + byte_len(toks[i].text@) <= usize::MAX);
    }
}

/// Collects the characters of a string slice.
pub(crate) fn chars_of(s: &str) -> (v: Vec<char>)
    ensures
        v@ == s@,
{
    let n = s.unicode_len();
    let mut v: Vec<char> = Vec::new();
    let mut i: usize = 0;
    while i < n
        invariant
            n == s@.len(),
            i <= n,
            v@ =~= s@.take(i as int),
        decreases n - i,
    {
        let c = s.get_char(i);
        v.push(c);
        i = i + 1;
        proof {
            assert(v@ =~= s@.take(i as int));
        }
    }
    proof {
        assert(s@.take(n as int) =~= s@);
    }
    v
}

/// A character that carries no matchable content: whitespace, a period, or a
/// space.
pub open spec fn filler_char(c: char) -> bool {
    is_unicode_ws(c) || c == '.' || c == ' '
}

/// A token carries content when some character of it is not filler.
pub open spec fn token_has_content(t: Seq<char>) -> bool {
    exists|k: int| 0 <= k < t.len() && !filler_char(#[trigger] t[k])
}

/// A phrase may be inserted or removed only when it is non-empty and some
/// token of it carries content.
pub open spec fn valid_keyword(s: Seq<char>) -> bool {
    &&& s.len() > 0
    &&& exists|i: int|
        0 <= i < word_bounds(s).len() && token_has_content(#[trigger] word_bounds(s)[i])
}

/// Whether some character of the slice is not filler.
fn text_has_content(s: &str) -> (r: bool)
    ensures
        r == token_has_content(s@),
{
    let cs = chars_of(s);
    let mut k: usize = 0;
    while k < cs.len()
        invariant
            cs@ == s@,
            k <= cs.len(),
            forall|j: int| 0 <= j < k ==> filler_char(#[trigger] s@[j]),
        decreases cs.len() - k,
    {
        let c = cs[k];
        if !(is_whitespace_char(c) || c == '.' || c == ' ') {
            return true;
        }
        k = k + 1;
    }
    false
}

/// Decides whether a phrase may serve as a keyword: it must be non-empty and
/// some token of it must hold a character that is not whitespace, `.` or a
/// space.
pub fn is_valid_keyword(word: &str) -> (r: bool)
    ensures
        r == valid_keyword(word@),
{
    if word.is_empty() {
        return false;
    }
    let toks = tokenize(word);
    let mut i: usize = 0;
    while i < toks.len()
        invariant
            tokens_of(toks@, word@),
            i <= toks@.len(),
            forall|j: int| 0 <= j < i ==> !token_has_content(#[trigger] word_bounds(word@)[j]),
            word@.len() > 0,
        decreases toks@.len() - i,
    {
        if text_has_content(toks[i].text.as_str()) {
            assert(word_bounds(word@)[i as int] == toks@[i as int].text@);
            return true;
        }
        assert(word_bounds(word@)[i as int] == toks@[i as int].text@);
        i = i + 1;
    }
    false
}

} // verus!
