//! Approximate lookup: edit distance and similarity scoring.
//!
//! Fuzzy search scores every stored phrase against a query with the classic
//! single-character insert/delete/substitute edit distance over Unicode
//! scalar values.  In case-insensitive mode both strings are lowercased
//! first.  A similarity is the rational `1 - distance / max_len`; it is kept
//! here as the exact pair `(distance, max_len)` so that thresholds and
//! ordering are integer arithmetic.

use vstd::prelude::*;
use vstd::multiset::Multiset;
use vstd::string::StrSliceExecFns;
use crate::fold::lower_of;
use crate::fold::to_lowercase;
use crate::tokens::chars_of;

verus! {

/// Classic edit distance between two character sequences: the least number
/// of single-character insertions, deletions and substitutions turning one
/// into the other.
pub open spec fn edit_dist(a: Seq<char>, b: Seq<char>) -> nat
    decreases a.len(), b.len(),
{
    if a.len() == 0 {
        b.len()
    } else if b.len() == 0 {
        a.len()
    } else {
        let d_del = edit_dist(a.drop_last(), b) + 1;
        let d_ins = edit_dist(a, b.drop_last()) + 1;
        let d_sub = edit_dist(a.drop_last(), b.drop_last()) + (if a.last() == b.last() {
            0nat
        } else {
            1nat
        });
        if d_del <= d_ins && d_del <= d_sub {
            d_del
        } else if d_ins <= d_sub {
            d_ins
        } else {
            d_sub
        }
    }
}

/// The longer input bounds the edit distance.
pub proof fn lemma_edit_dist_bound(a: Seq<char>, b: Seq<char>)
    ensures
        edit_dist(a, b) <= if a.len() >= b.len() {
            a.len()
        } else {
            b.len()
        },
    decreases a.len(), b.len(),
{
    if a.len() == 0 {
    } else if b.len() == 0 {
    } else {
        lemma_edit_dist_bound(a.drop_last(), b.drop_last());
        lemma_edit_dist_bound(a.drop_last(), b);
        lemma_edit_dist_bound(a, b.drop_last());
    }
}

/// The folding that fuzzy comparison applies to both strings: none when
/// case-sensitive, lowercasing otherwise.
pub open spec fn fuzzy_folded(case_sensitive: bool, s: Seq<char>) -> Seq<char> {
    if case_sensitive {
        s
    } else {
        lower_of(s)
    }
}

/// The dynamic program for the edit distance of two character vectors.
fn edit_distance_chars(a: &Vec<char>, b: &Vec<char>) -> (r: usize)
    ensures
        r == edit_dist(a@, b@),
{
    let n1 = a.len();
    let n2 = b.len();
    if n1 == 0 {
        proof {
            assert(a@.len() == 0);
        }
        return n2;
    }
    if n2 == 0 {
        return n1;
    }
    // prev_row[j] holds the distance of a's first i characters and b's
    // first j+1 characters
    let mut prev_row: Vec<usize> = Vec::new();
    let mut i: usize = 0;
    while i < n1
        invariant
            n1 == a@.len(),
            n2 == b@.len(),
            0 < n1 <= usize::MAX,
            0 < n2 <= usize::MAX,
            i <= n1,
            i > 0 ==> prev_row@.len() == n2,
            forall|j2: int|
                0 <= j2 < n2 && i > 0 ==> #[trigger] prev_row@[j2] == edit_dist(
                    a@.take(i as int),
                    b@.take(j2 + 1),
                ),
        decreases n1 - i,
    {
        let mut cur: Vec<usize> = Vec::new();
        let mut j: usize = 0;
        while j < n2
            invariant
                n1 == a@.len(),
                n2 == b@.len(),
                0 < n1,
                0 < n2,
                i < n1,
                j <= n2,
                i > 0 ==> prev_row@.len() == n2,
                forall|j2: int|
                    0 <= j2 < n2 && i > 0 ==> #[trigger] prev_row@[j2] == edit_dist(
                        a@.take(i as int),
                        b@.take(j2 + 1),
                    ),
                cur@.len() == j,
                forall|j2: int|
                    0 <= j2 < j ==> #[trigger] cur@[j2] == edit_dist(
                        a@.take(i as int + 1),
                        b@.take(j2 + 1),
                    ),
            decreases n2 - j,
        {
            let up: u128 = if i == 0 {
                (j as u128) + 1
            } else {
                prev_row[j] as u128
            };
            let left: u128 = if j == 0 {
                (i as u128) + 1
            } else {
                cur[j - 1] as u128
            };
            let diag: u128 = if i == 0 && j == 0 {
                0
            } else if i == 0 {
                j as u128
            } else if j == 0 {
                i as u128
            } else {
                prev_row[j - 1] as u128
            };
            let cost: u128 = if a[i] == b[j] {
                0
            } else {
                1
            };
            let d_del = up + 1;
            let d_ins = left + 1;
            let d_sub = diag + cost;
            let val: u128 = if d_del <= d_ins && d_del <= d_sub {
                d_del
            } else if d_ins <= d_sub {
                d_ins
            } else {
                d_sub
            };
            proof {
                let ai = a@.take(i as int + 1);
                let bj = b@.take(j as int + 1);
                assert(ai.drop_last() =~= a@.take(i as int));
                assert(bj.drop_last() =~= b@.take(j as int));
                assert(ai.last() == a@[i as int]);
                assert(bj.last() == b@[j as int]);
                if i == 0 {
                    assert(a@.take(0).len() == 0);
                    assert(edit_dist(a@.take(0), bj) == bj.len());
                    assert(edit_dist(a@.take(0), b@.take(j as int)) == j);
                }
                if j == 0 {
                    assert(b@.take(0).len() == 0);
                    assert(edit_dist(ai, b@.take(0)) == ai.len());
                    assert(edit_dist(a@.take(i as int), b@.take(0)) == i);
                }
                assert(up == edit_dist(a@.take(i as int), bj));
                assert(left == edit_dist(ai, b@.take(j as int)));
                assert(diag == edit_dist(a@.take(i as int), b@.take(j as int)));
                assert(val == edit_dist(ai, bj));
                lemma_edit_dist_bound(ai, bj);
                assert(val <= usize::MAX);
            }
            cur.push(val as usize);
            j = j + 1;
        }
        prev_row = cur;
        i = i + 1;
    }
    proof {
        assert(a@.take(n1 as int) =~= a@);
        assert(b@.take(n2 as int) =~= b@);
        assert(prev_row@[n2 - 1] == edit_dist(a@, b@));
    }
    prev_row[n2 - 1]
}

/// A similarity as an exact rational: `1 - distance / max_len`, taken to be
/// `1` when `max_len` is `0` (two empty strings).
#[derive(Debug, PartialEq, Eq, Structural, Clone, Copy)]
pub struct Similarity {
    pub distance: usize,
    pub max_len: usize,
}

/// The spec form of a similarity: the pair (distance, longest length).
pub open spec fn sim_view(s: Similarity) -> (nat, nat) {
    (s.distance as nat, s.max_len as nat)
}

/// Whether the similarity `x` is at least the similarity `y`:
/// `1 - x.0/x.1 >= 1 - y.0/y.1`, with `x.1 == 0` meaning exactly `1`.
pub open spec fn sim_ge(x: (nat, nat), y: (nat, nat)) -> bool {
    if x.1 == 0 {
        true
    } else if y.1 == 0 {
        x.0 == 0
    } else {
        x.0 * y.1 <= y.0 * x.1
    }
}

/// Whether the similarity `(d, m)` reaches the threshold `tn / td`.
pub open spec fn sim_at_least(d: nat, m: nat, tn: nat, td: nat) -> bool {
    if m == 0 {
        td >= tn
    } else {
        (m as int - d as int) * (td as int) >= (tn as int) * (m as int)
    }
}

/// The score of a stored phrase against a query: the edit distance of the
/// folded strings and the longer folded length.
pub open spec fn score_of(case_sensitive: bool, phrase: Seq<char>, query: Seq<char>) -> (nat, nat) {
    let fp = fuzzy_folded(case_sensitive, phrase);
    let fq = fuzzy_folded(case_sensitive, query);
    (
        edit_dist(fp, fq),
        if fp.len() >= fq.len() {
            fp.len()
        } else {
            fq.len()
        },
    )
}

/// The entries whose score reaches the threshold, each as its clean name
/// and score, in enumeration order.
pub open spec fn scored_entries(
    entries: Seq<(Seq<char>, Seq<char>)>,
    case_sensitive: bool,
    query: Seq<char>,
    tn: nat,
    td: nat,
) -> Seq<(Seq<char>, (nat, nat))>
    decreases entries.len(),
{
    if entries.len() == 0 {
        Seq::empty()
    } else {
        let s = score_of(case_sensitive, entries[0].0, query);
        (if sim_at_least(s.0, s.1, tn, td) {
            seq![(entries[0].1, s)]
        } else {
            Seq::empty()
        }) + scored_entries(entries.drop_first(), case_sensitive, query, tn, td)
    }
}

/// The spec view of an executable list of (clean name, similarity) pairs.
pub open spec fn sim_pairs_view(v: Seq<(String, Similarity)>) -> Seq<(Seq<char>, (nat, nat))> {
    v.map_values(|p: (String, Similarity)| (p.0@, sim_view(p.1)))
}

/// Descending order by similarity.
pub open spec fn sorted_desc(v: Seq<(Seq<char>, (nat, nat))>) -> bool {
    forall|i: int, j: int| 0 <= i < j < v.len() ==> sim_ge(#[trigger] v[i].1, #[trigger] v[j].1)
}

/// Any two similarities are comparable.
pub proof fn lemma_sim_ge_total(x: (nat, nat), y: (nat, nat))
    ensures
        sim_ge(x, y) || sim_ge(y, x),
{
}

/// The similarity order is transitive.
pub proof fn lemma_sim_ge_trans(x: (nat, nat), y: (nat, nat), z: (nat, nat))
    requires
        sim_ge(x, y),
        sim_ge(y, z),
    ensures
        sim_ge(x, z),
{
    if x.1 == 0 {
    } else if z.1 == 0 {
        if y.1 != 0 {
            assert(y.0 * x.1 == 0) by (nonlinear_arith)
                requires
                    y.0 == 0,
            ;
            assert(x.0 == 0) by (nonlinear_arith)
                requires
                    x.0 * y.1 <= y.0 * x.1,
                    y.0 * x.1 == 0,
                    y.1 > 0,
            ;
        }
    } else {
        if y.1 == 0 {
            assert(x.0 * z.1 == 0) by (nonlinear_arith)
                requires
                    x.0 == 0,
            ;
        } else {
            assert(x.0 * z.1 <= z.0 * x.1) by (nonlinear_arith)
                requires
                    x.0 * y.1 <= y.0 * x.1,
                    y.0 * z.1 <= z.0 * y.1,
                    x.1 > 0,
                    y.1 > 0,
                    z.1 > 0,
            ;
        }
    }
}

/// Sorts matches by similarity, descending; the contents are unchanged as a
/// multiset.  Equal similarities keep no particular order.
fn sort_matches(input: Vec<(String, Similarity)>) -> (out: Vec<(String, Similarity)>)
    ensures
        sim_pairs_view(out@).to_multiset() == sim_pairs_view(input@).to_multiset(),
        sorted_desc(sim_pairs_view(out@)),
{
    let mut rest = input;
    let mut out: Vec<(String, Similarity)> = Vec::new();
    proof {
        broadcast use vstd::seq_lib::group_to_multiset_ensures;

        assert(sim_pairs_view(out@).to_multiset().add(sim_pairs_view(rest@).to_multiset())
            =~= sim_pairs_view(input@).to_multiset());
    }
    loop
        invariant
            sim_pairs_view(out@).to_multiset().add(sim_pairs_view(rest@).to_multiset())
                == sim_pairs_view(input@).to_multiset(),
            sorted_desc(sim_pairs_view(out@)),
        decreases rest@.len(),
    {
        let ghost restv = rest@;
        let x = match rest.pop() {
            Some(x) => x,
            None => {
                proof {
                    broadcast use vstd::seq_lib::group_to_multiset_ensures;

                    assert(sim_pairs_view(rest@).len() == 0);
                    assert(sim_pairs_view(rest@) =~= Seq::<(Seq<char>, (nat, nat))>::empty());
                    assert(sim_pairs_view(rest@).to_multiset() =~= Multiset::<
                        (Seq<char>, (nat, nat)),
                    >::empty());
                    assert(sim_pairs_view(out@).to_multiset().add(Multiset::<
                        (Seq<char>, (nat, nat)),
                    >::empty()) =~= sim_pairs_view(out@).to_multiset());
                }
                return out;
            },
        };
        let ghost xv = (x.0@, sim_view(x.1));
        proof {
            broadcast use vstd::seq_lib::group_to_multiset_ensures;

            assert(sim_pairs_view(restv) =~= sim_pairs_view(rest@).push(xv));
            assert(sim_pairs_view(restv).to_multiset() == sim_pairs_view(
                rest@,
            ).to_multiset().insert(xv));
        }
        // find the first position whose similarity is below x's
        let n = out.len();
        let mut p: usize = 0;
        while p < n
            invariant
                n == out@.len(),
                p <= n,
                xv.1 == sim_view(x.1),
                forall|q: int| 0 <= q < p ==> sim_ge(#[trigger] sim_pairs_view(out@)[q].1, xv.1),
            ensures
                n == out@.len(),
                p <= n,
                forall|q: int| 0 <= q < p ==> sim_ge(#[trigger] sim_pairs_view(out@)[q].1, xv.1),
                p < n ==> !sim_ge(sim_pairs_view(out@)[p as int].1, xv.1),
            decreases n - p,
        {
            let keep = sim_ge_exec(&out[p].1, &x.1);
            proof {
                assert(sim_pairs_view(out@)[p as int].1 == sim_view(out@[p as int].1));
            }
            if !keep {
                break ;
            }
            p = p + 1;
        }
        proof {
            if p < n {
                lemma_sim_ge_total(sim_pairs_view(out@)[p as int].1, xv.1);
                assert(sim_ge(xv.1, sim_pairs_view(out@)[p as int].1));
            }
        }
        let ghost outv = out@;
        out.insert(p, x);
        proof {
            broadcast use vstd::seq_lib::group_to_multiset_ensures;
            broadcast use vstd::seq_lib::to_multiset_insert;

            assert(out@ == outv.insert(p as int, x));
            assert forall|k: int| 0 <= k < out@.len() implies #[trigger] sim_pairs_view(out@)[k]
                == (if k < p {
                sim_pairs_view(outv)[k]
            } else if k == p {
                xv
            } else {
                sim_pairs_view(outv)[k - 1]
            }) by {
                if k < p {
                    assert(out@[k] == outv[k]);
                } else if k == p {
                    assert(out@[k] == x);
                } else {
                    assert(out@[k] == outv[k - 1]);
                }
            }
            assert(sim_pairs_view(out@) =~= sim_pairs_view(outv).insert(p as int, xv));
            assert(sim_pairs_view(out@).to_multiset() == sim_pairs_view(outv).to_multiset().insert(
                xv,
            ));
            assert forall|i: int, j: int| 0 <= i < j < sim_pairs_view(out@).len() implies sim_ge(
                #[trigger] sim_pairs_view(out@)[i].1,
                #[trigger] sim_pairs_view(out@)[j].1,
            ) by {
                let vo = sim_pairs_view(outv);
                let vn = sim_pairs_view(out@);
                if j < p {
                    assert(vn[i].1 == vo[i].1 && vn[j].1 == vo[j].1);
                } else if j == p {
                    assert(vn[j] == xv);
                    assert(sim_ge(vo[i].1, xv.1));
                } else if i > p {
                    assert(vn[i].1 == vo[i - 1].1 && vn[j].1 == vo[j - 1].1);
                } else if i == p {
                    assert(vn[i] == xv);
                    assert(vn[j].1 == vo[j - 1].1);
                    assert(j - 1 >= p);
                    if p < n {
                        assert(sim_ge(xv.1, vo[p as int].1));
                        if j - 1 > p {
                            assert(sim_ge(vo[p as int].1, vo[j - 1].1));
                            lemma_sim_ge_trans(xv.1, vo[p as int].1, vo[j - 1].1);
                        }
                    }
                } else {
                    assert(vn[i].1 == vo[i].1 && vn[j].1 == vo[j - 1].1);
                    if j - 1 == i {
                        assert(sim_ge(vo[i].1, xv.1));
                        assert(i < p);
                        assert(sim_ge(vn[i].1, vn[j].1));
                    } else {
                        assert(sim_ge(vo[i].1, vo[j - 1].1));
                    }
                }
            }
        }
    }
}

/// Compares two similarities: whether `a` is at least `b`.
fn sim_ge_exec(a: &Similarity, b: &Similarity) -> (r: bool)
    ensures
        r == sim_ge(sim_view(*a), sim_view(*b)),
{
    if a.max_len == 0 {
        true
    } else if b.max_len == 0 {
        a.distance == 0
    } else {
        proof {
            assert((a.distance as u128) * (b.max_len as u128) <= u128::MAX) by (nonlinear_arith)
                requires
                    a.distance as u128 <= 0xFFFF_FFFF_FFFF_FFFFu128,
                    b.max_len as u128 <= 0xFFFF_FFFF_FFFF_FFFFu128,
            ;
            assert((b.distance as u128) * (a.max_len as u128) <= u128::MAX) by (nonlinear_arith)
                requires
                    b.distance as u128 <= 0xFFFF_FFFF_FFFF_FFFFu128,
                    a.max_len as u128 <= 0xFFFF_FFFF_FFFF_FFFFu128,
            ;
        }
        (a.distance as u128) * (b.max_len as u128) <= (b.distance as u128) * (a.max_len as u128)
    }
}

/// The number of characters of a string after fuzzy folding.
fn folded_char_len(s: &str, case_sensitive: bool) -> (r: usize)
    ensures
        r == fuzzy_folded(case_sensitive, s@).len(),
{
    if case_sensitive {
        s.unicode_len()
    } else {
        let f = to_lowercase(s);
        f.as_str().unicode_len()
    }
}

/// Scores every stored phrase against the query and keeps those whose
/// similarity reaches the threshold `threshold_num / threshold_den`, sorted
/// by similarity descending.
pub(crate) fn search_trie(
    t: &crate::trie::Trie,
    query: &str,
    threshold_num: u64,
    threshold_den: u64,
) -> (out: Vec<(String, Similarity)>)
    requires
        t.wf(),
        threshold_den > 0,
    ensures
        sim_pairs_view(out@).to_multiset() == scored_entries(
            t.entries(),
            t.case_sensitive,
            query@,
            threshold_num as nat,
            threshold_den as nat,
        ).to_multiset(),
        sorted_desc(sim_pairs_view(out@)),
{
    let ghost cs = t.case_sensitive;
    let ghost tn = threshold_num as nat;
    let ghost td = threshold_den as nat;
    let prefix = String::new();
    let entries = t.collect_entries(0, &prefix);
    let ghost ev = crate::trie::pair_views(entries@);
    proof {
        assert(prefix@ =~= Seq::<char>::empty());
        assert(ev == t.entries());
        assert(ev.skip(0) =~= ev);
    }
    let mut matches: Vec<(String, Similarity)> = Vec::new();
    let mut k: usize = 0;
    while k < entries.len()
        invariant
            t.wf(),
            cs == t.case_sensitive,
            tn == threshold_num as nat,
            td == threshold_den as nat,
            threshold_den > 0,
            ev == crate::trie::pair_views(entries@),
            k <= entries@.len(),
            sim_pairs_view(matches@) + scored_entries(ev.skip(k as int), cs, query@, tn, td)
                == scored_entries(ev, cs, query@, tn, td),
        decreases entries@.len() - k,
    {
        proof {
            assert(ev[k as int] == (entries@[k as int].0@, entries@[k as int].1@));
            assert(ev.skip(k as int)[0] == ev[k as int]);
            assert(ev.skip(k as int).drop_first() =~= ev.skip(k as int + 1));
        }
        let d = levenshtein_distance(entries[k].0.as_str(), query, t.case_sensitive);
        let la = folded_char_len(entries[k].0.as_str(), t.case_sensitive);
        let lq = folded_char_len(query, t.case_sensitive);
        let m = if la >= lq {
            la
        } else {
            lq
        };
        let ghost sc = score_of(cs, ev[k as int].0, query@);
        proof {
            lemma_edit_dist_bound(fuzzy_folded(cs, ev[k as int].0), fuzzy_folded(cs, query@));
            assert(sc == (d as nat, m as nat));
            assert(d <= m);
        }
        let passes = if m == 0 {
            threshold_den >= threshold_num
        } else {
            proof {
                assert(((m - d) as u128) * (threshold_den as u128) <= u128::MAX)
                    by (nonlinear_arith)
                    requires
                        ((m - d) as u128) <= 0xFFFF_FFFF_FFFF_FFFFu128,
                        (threshold_den as u128) <= 0xFFFF_FFFF_FFFF_FFFFu128,
                ;
                assert((threshold_num as u128) * (m as u128) <= u128::MAX) by (nonlinear_arith)
                    requires
                        (threshold_num as u128) <= 0xFFFF_FFFF_FFFF_FFFFu128,
                        (m as u128) <= 0xFFFF_FFFF_FFFF_FFFFu128,
                ;
            }
            ((m - d) as u128) * (threshold_den as u128) >= (threshold_num as u128) * (m as u128)
        };
        proof {
            assert(passes == sim_at_least(sc.0, sc.1, tn, td));
        }
        let ghost prev = matches@;
        if passes {
            let clean = clone_string(&entries[k].1);
            matches.push((clean, Similarity { distance: d, max_len: m }));
            proof {
                let xv = (entries@[k as int].1@, sc);
                assert(sim_pairs_view(matches@) =~= sim_pairs_view(prev).push(xv));
                assert(scored_entries(ev.skip(k as int), cs, query@, tn, td) == seq![xv]
                    + scored_entries(ev.skip(k as int + 1), cs, query@, tn, td));
                assert(sim_pairs_view(prev).push(xv) =~= sim_pairs_view(prev) + seq![xv]);
                assert((sim_pairs_view(prev) + seq![xv]) + scored_entries(
                    ev.skip(k as int + 1),
                    cs,
                    query@,
                    tn,
                    td,
                ) =~= sim_pairs_view(prev) + scored_entries(ev.skip(k as int), cs, query@, tn, td));
            }
        } else {
            proof {
                assert(scored_entries(ev.skip(k as int), cs, query@, tn, td) =~= scored_entries(
                    ev.skip(k as int + 1),
                    cs,
                    query@,
                    tn,
                    td,
                ));
            }
        }
        k = k + 1;
    }
    proof {
        assert(ev.skip(entries@.len() as int) =~= Seq::<(Seq<char>, Seq<char>)>::empty());
        assert(scored_entries(Seq::<(Seq<char>, Seq<char>)>::empty(), cs, query@, tn, td) =~= Seq::<
            (Seq<char>, (nat, nat)),
        >::empty());
        assert(sim_pairs_view(matches@) + Seq::<(Seq<char>, (nat, nat))>::empty() =~= sim_pairs_view(
            matches@,
        ));
    }
    sort_matches(matches)
}

/// Clones a string.
fn clone_string(s: &String) -> (r: String)
    ensures
        r@ == s@,
{
    s.clone()
}

/// The edit distance of two strings, folded to lowercase first unless the
/// comparison is case-sensitive.
pub fn levenshtein_distance(s1: &str, s2: &str, case_sensitive: bool) -> (r: usize)
    ensures
        r == edit_dist(fuzzy_folded(case_sensitive, s1@), fuzzy_folded(case_sensitive, s2@)),
{
    let a: Vec<char> = if case_sensitive {
        chars_of(s1)
    } else {
        let f = to_lowercase(s1);
        chars_of(f.as_str())
    };
    let b: Vec<char> = if case_sensitive {
        chars_of(s2)
    } else {
        let f = to_lowercase(s2);
        chars_of(f.as_str())
    };
    edit_distance_chars(&a, &b)
}

} // verus!
