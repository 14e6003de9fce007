//! Byte-to-character offset conversion.
//!
//! Match spans are reported in byte units over the text's UTF-8 encoding.
//! A host that indexes strings by code points converts them through a
//! position table built once from the text, in one pass; each span is then
//! resolved by binary search.  A byte offset that is no character boundary
//! falls back to `0` for a start and to the character count for an end.

use vstd::prelude::*;
use vstd::string::StrSliceExecFns;
use vstd::utf8::encode_scalar;
use vstd::utf8::encode_utf8;
use crate::tokens::byte_len;
use crate::tokens::chars_of;
use crate::tokens::lemma_encode_utf8_add;

verus! {

/// The character index sitting at byte offset `b` of the text, when `b` is
/// a character boundary; otherwise the fallback.
pub open spec fn char_index_of(text: Seq<char>, b: int, fallback: int) -> int {
    if exists|i: int| 0 <= i < text.len() && byte_len(#[trigger] text.take(i)) == b {
        choose|i: int| 0 <= i < text.len() && byte_len(#[trigger] text.take(i)) == b
    } else {
        fallback
    }
}

/// The byte length of one character's UTF-8 encoding.
fn utf8_char_len(c: char) -> (r: usize)
    ensures
        r == encode_scalar(c as u32).len(),
        1 <= r <= 4,
{
    let v = c as u32;
    if v < 0x80 {
        1
    } else if v < 0x800 {
        2
    } else if v < 0x10000 {
        3
    } else {
        4
    }
}

/// One more character adds its encoding length.
proof fn lemma_byte_len_take_succ(text: Seq<char>, i: int)
    requires
        0 <= i < text.len(),
    ensures
        byte_len(text.take(i + 1)) == byte_len(text.take(i)) + encode_scalar(
            text[i] as u32,
        ).len(),
{
    assert(text.take(i + 1) =~= text.take(i) + seq![text[i]]);
    lemma_encode_utf8_add(text.take(i), seq![text[i]]);
    assert(seq![text[i]].drop_first() =~= Seq::<char>::empty());
    assert(seq![text[i]].len() == 1);
    assert(seq![text[i]][0] == text[i]);
    assert(encode_utf8(Seq::<char>::empty()) =~= Seq::<u8>::empty());
    assert(encode_utf8(seq![text[i]]) == encode_scalar(seq![text[i]][0] as u32) + encode_utf8(
        seq![text[i]].drop_first(),
    ));
    assert(encode_utf8(seq![text[i]]) =~= encode_scalar(text[i] as u32) + Seq::<u8>::empty());
    assert(encode_scalar(text[i] as u32) + Seq::<u8>::empty() =~= encode_scalar(text[i] as u32));
}

/// A prefix never encodes to more bytes than the whole.
proof fn lemma_byte_len_prefix(text: Seq<char>, i: int)
    requires
        0 <= i <= text.len(),
    ensures
        byte_len(text.take(i)) <= byte_len(text),
{
    assert(text =~= text.take(i) + text.skip(i));
    lemma_encode_utf8_add(text.take(i), text.skip(i));
}

/// The byte offset of each character of the text, in one pass.
fn char_byte_offsets(text: &str) -> (v: Vec<usize>)
    ensures
        v@.len() == text@.len(),
        forall|i: int| 0 <= i < v@.len() ==> #[trigger] v@[i] == byte_len(text@.take(i)),
{
    let bytes = text.as_bytes();
    let total = bytes.len();
    proof {
        assert(bytes@ == encode_utf8(text@));
        assert(byte_len(text@) == total as nat);
    }
    let cs = chars_of(text);
    let mut v: Vec<usize> = Vec::new();
    let mut acc: usize = 0;
    let mut i: usize = 0;
    proof {
        assert(text@.take(0) =~= Seq::<char>::empty());
        assert(encode_utf8(Seq::<char>::empty()).len() == 0);
    }
    while i < cs.len()
        invariant
            cs@ == text@,
            byte_len(text@) <= usize::MAX,
            i <= cs@.len(),
            v@.len() == i,
            acc == byte_len(text@.take(i as int)),
            forall|k: int| 0 <= k < i ==> #[trigger] v@[k] == byte_len(text@.take(k)),
        decreases cs@.len() - i,
    {
        v.push(acc);
        let cl = utf8_char_len(cs[i]);
        proof {
            lemma_byte_len_take_succ(text@, i as int);
            lemma_byte_len_prefix(text@, i as int + 1);
        }
        acc = acc + cl;
        i = i + 1;
    }
    v
}

/// Strictly increasing byte offsets, one per character.
spec fn offsets_of(v: Seq<usize>, text: Seq<char>) -> bool {
    &&& v.len() == text.len()
    &&& forall|i: int| 0 <= i < v.len() ==> #[trigger] v[i] == byte_len(text.take(i))
}

/// Binary search for the character index at byte offset `b`; the fallback
/// when no character sits there.
fn find_char_index(v: &Vec<usize>, text: Ghost<Seq<char>>, b: usize, fallback: usize) -> (r: usize)
    requires
        offsets_of(v@, text@),
    ensures
        r == char_index_of(text@, b as int, fallback as int),
{
    let ghost t = text@;
    let mut lo: usize = 0;
    let mut hi: usize = v.len();
    proof {
        assert forall|i: int, j: int| 0 <= i < j <= t.len() implies byte_len(#[trigger] t.take(i))
            < byte_len(#[trigger] t.take(j)) by {
            lemma_byte_len_take_succ(t, i);
            lemma_byte_len_monotone(t, i + 1, j);
        }
        assert forall|i: int, j: int| 0 <= i < j < v@.len() implies #[trigger] v@[i]
            < #[trigger] v@[j] by {
            assert(byte_len(t.take(i)) < byte_len(t.take(j)));
        }
    }
    while lo < hi
        invariant
            offsets_of(v@, t),
            forall|i: int, j: int|
                0 <= i < j < v@.len() ==> #[trigger] v@[i] < #[trigger] v@[j],
            lo <= hi <= v@.len(),
            forall|k: int| 0 <= k < lo ==> #[trigger] v@[k] < b,
            forall|k: int| hi <= k < v@.len() ==> #[trigger] v@[k] >= b,
        decreases hi - lo,
    {
        let mid = lo + (hi - lo) / 2;
        if v[mid] < b {
            lo = mid + 1;
        } else {
            hi = mid;
        }
    }
    if lo < v.len() {
        let here = v[lo];
        if here == b {
            proof {
                assert(byte_len(t.take(lo as int)) == b);
                let w = choose|i: int| 0 <= i < t.len() && byte_len(#[trigger] t.take(i)) == b;
                if w != lo as int {
                    if w < lo as int {
                        assert(v@[w] < b);
                    } else {
                        assert(v@[w] >= b && byte_len(t.take(w)) > byte_len(t.take(lo as int)));
                    }
                }
            }
            return lo;
        }
    }
    proof {
        if exists|i: int| 0 <= i < t.len() && byte_len(#[trigger] t.take(i)) == b {
            let w = choose|i: int| 0 <= i < t.len() && byte_len(#[trigger] t.take(i)) == b;
            assert(v@[w] == b);
            if w < lo as int {
                assert(v@[w] < b);
            }
            assert(false);
        }
    }
    fallback
}

/// Prefix byte lengths grow with the prefix.
proof fn lemma_byte_len_monotone(text: Seq<char>, i: int, j: int)
    requires
        0 <= i <= j <= text.len(),
    ensures
        byte_len(text.take(i)) <= byte_len(text.take(j)),
    decreases j - i,
{
    if i < j {
        lemma_byte_len_take_succ(text, i);
        lemma_byte_len_monotone(text, i + 1, j);
    }
}

/// Converts byte spans over the text to character spans: each start byte is
/// mapped to the character index sitting there (`0` when none does), each
/// end byte likewise (the character count when none does).
pub fn spans_to_char_spans(text: &str, spans: &Vec<(String, usize, usize)>) -> (out: Vec<
    (String, usize, usize),
>)
    ensures
        out@.len() == spans@.len(),
        forall|i: int|
            0 <= i < spans@.len() ==> {
                &&& (#[trigger] out@[i]).0@ == spans@[i].0@
                &&& out@[i].1 == char_index_of(text@, spans@[i].1 as int, 0)
                &&& out@[i].2 == char_index_of(text@, spans@[i].2 as int, text@.len() as int)
            },
{
    let offsets = char_byte_offsets(text);
    let n_chars = offsets.len();
    let mut out: Vec<(String, usize, usize)> = Vec::new();
    let mut i: usize = 0;
    while i < spans.len()
        invariant
            offsets_of(offsets@, text@),
            n_chars == text@.len(),
            i <= spans@.len(),
            out@.len() == i,
            forall|k: int|
                0 <= k < i ==> {
                    &&& (#[trigger] out@[k]).0@ == spans@[k].0@
                    &&& out@[k].1 == char_index_of(text@, spans@[k].1 as int, 0)
                    &&& out@[k].2 == char_index_of(text@, spans@[k].2 as int, text@.len() as int)
                },
        decreases spans@.len() - i,
    {
        let s = find_char_index(&offsets, Ghost(text@), spans[i].1, 0);
        let e = find_char_index(&offsets, Ghost(text@), spans[i].2, n_chars);
        let clean = spans[i].0.clone();
        out.push((clean, s, e));
        i = i + 1;
    }
    out
}

} // verus!
