//! The keyword trie.
//!
//! Nodes live in one arena vector; the node at index 0 is the root.  Every
//! other node stores the token text of the edge that leads to it, an optional
//! canonical replacement (`clean_name`, present exactly on nodes that end an
//! inserted keyword), and the indices of its children.  A child is always
//! created after its parent, so child indices are strictly greater than the
//! parent's; each node has at most one parent, which makes the arena a tree.
//!
//! The trie's meaning is the map from token-key paths to clean names
//! ([`Trie::keywords`]); every operation's contract is stated against it.

use vstd::prelude::*;
use crate::fold::key_of;
use crate::fold::tok_eq;
use crate::tokens::Token;

verus! {

/// One node of the trie arena.
pub struct Node {
    /// The token text of the edge from the parent to this node.
    pub token: String,
    /// The canonical replacement of the keyword that ends here, if one does.
    pub clean_name: Option<String>,
    /// Arena indices of the children.
    pub children: Vec<usize>,
}

/// The trie: an arena of nodes rooted at index 0, plus the case policy fixed
/// at construction.
pub struct Trie {
    pub nodes: Vec<Node>,
    pub case_sensitive: bool,
}

/// Structural well-formedness of the arena: a root exists, children point
/// forward and in bounds, and no node has two parents.
pub open spec fn wf_nodes(nodes: Seq<Node>) -> bool {
    &&& nodes.len() >= 1
    &&& forall|i: int, k: int|
        #![trigger nodes[i].children@[k]]
        0 <= i < nodes.len() && 0 <= k < nodes[i].children@.len() ==> ((i as int) < (
        nodes[i].children@[k] as int) && ((nodes[i].children@[k] as int) < (nodes.len() as int)))
    &&& forall|i1: int, k1: int, i2: int, k2: int|
        0 <= i1 < nodes.len() && 0 <= k1 < nodes[i1].children@.len() && 0 <= i2 < nodes.len() && 0
            <= k2 < nodes[i2].children@.len() && #[trigger] nodes[i1].children@[k1]
            == #[trigger] nodes[i2].children@[k2] ==> i1 == i2 && k1 == k2
}

/// The first entry of `ch` whose stored token has key `key`, scanning from
/// the front.
pub open spec fn child_in(nodes: Seq<Node>, cs: bool, ch: Seq<usize>, key: Seq<char>) -> Option<
    int,
>
    decreases ch.len(),
{
    if ch.len() == 0 {
        None
    } else if key_of(cs, nodes[ch[0] as int].token@) == key {
        Some(ch[0] as int)
    } else {
        child_in(nodes, cs, ch.drop_first(), key)
    }
}

/// The child of node `i` along the edge keyed `key`.
pub open spec fn child(nodes: Seq<Node>, cs: bool, i: int, key: Seq<char>) -> Option<int> {
    child_in(nodes, cs, nodes[i].children@, key)
}

/// Walks from node `i` along the keys of `path`; the node reached, if every
/// edge exists.
pub open spec fn descend(nodes: Seq<Node>, cs: bool, i: int, path: Seq<Seq<char>>) -> Option<
    int,
>
    decreases path.len(),
{
    if path.len() == 0 {
        Some(i)
    } else {
        match child(nodes, cs, i, path[0]) {
            None => None,
            Some(c) => descend(nodes, cs, c, path.drop_first()),
        }
    }
}

/// The key path of a token sequence under the case policy.
pub open spec fn key_path(cs: bool, toks: Seq<Token>) -> Seq<Seq<char>> {
    toks.map_values(|t: Token| key_of(cs, t.text@))
}

/// The number of nodes that end a keyword.
pub open spec fn terminal_count(nodes: Seq<Node>) -> nat
    decreases nodes.len(),
{
    if nodes.len() == 0 {
        0
    } else {
        terminal_count(nodes.drop_last()) + if nodes.last().clean_name is Some {
            1nat
        } else {
            0nat
        }
    }
}

impl Trie {
    /// Structural well-formedness.
    pub open spec fn wf(self) -> bool {
        wf_nodes(self.nodes@)
    }

    /// The node reached from the root along `path`.
    pub open spec fn node_at(self, path: Seq<Seq<char>>) -> Option<int> {
        descend(self.nodes@, self.case_sensitive, 0, path)
    }

    /// Whether `path` ends a stored keyword.
    pub open spec fn has_path(self, path: Seq<Seq<char>>) -> bool {
        match self.node_at(path) {
            Some(i) => self.nodes@[i].clean_name is Some,
            None => false,
        }
    }

    /// The keywords stored in the trie: a map from the key path of each
    /// stored phrase to its clean name.
    pub open spec fn keywords(self) -> Map<Seq<Seq<char>>, Seq<char>> {
        Map::new(
            |p: Seq<Seq<char>>| self.has_path(p),
            |p: Seq<Seq<char>>| self.nodes@[self.node_at(p)->0].clean_name->0@,
        )
    }

    /// A fresh trie: one root node, no keywords.
    pub fn new(case_sensitive: bool) -> (t: Trie)
        ensures
            t.wf(),
            t.case_sensitive == case_sensitive,
            t.keywords() =~= Map::<Seq<Seq<char>>, Seq<char>>::empty(),
            terminal_count(t.nodes@) == 0,
    {
        let root = Node { token: String::new(), clean_name: None, children: Vec::new() };
        let mut nodes: Vec<Node> = Vec::new();
        nodes.push(root);
        let t = Trie { nodes, case_sensitive };
        proof {
            assert(t.nodes@.len() == 1);
            assert(t.nodes@[0].children@.len() == 0);
            assert forall|p: Seq<Seq<char>>| !t.has_path(p) by {
                if p.len() == 0 {
                } else {
                    assert(child(t.nodes@, case_sensitive, 0, p[0]) is None);
                }
            }
            assert(t.nodes@.drop_last() =~= Seq::<Node>::empty());
            assert(terminal_count(Seq::<Node>::empty()) == 0);
            assert(terminal_count(t.nodes@) == 0);
        }
        t
    }

    /// Looks up the child of node `i` along the token `tok`.
    pub(crate) fn find_child(&self, i: usize, tok: &str) -> (r: Option<usize>)
        requires
            self.wf(),
            i < self.nodes@.len(),
        ensures
            match r {
                Some(c) => child(self.nodes@, self.case_sensitive, i as int, key_of(self.case_sensitive, tok@))
                    == Some(c as int) && i < c < self.nodes@.len(),
                None => child(self.nodes@, self.case_sensitive, i as int, key_of(self.case_sensitive, tok@))
                    is None,
            },
    {
        let ghost key = key_of(self.case_sensitive, tok@);
        let ghost chs = self.nodes@[i as int].children@;
        let n = self.nodes[i].children.len();
        proof {
            assert(chs.skip(0) =~= chs);
        }
        let mut k: usize = 0;
        while k < n
            invariant
                self.wf(),
                i < self.nodes@.len(),
                n == chs.len(),
                k <= n,
                chs == self.nodes@[i as int].children@,
                key == key_of(self.case_sensitive, tok@),
                child_in(self.nodes@, self.case_sensitive, chs, key) == child_in(
                    self.nodes@,
                    self.case_sensitive,
                    chs.skip(k as int),
                    key,
                ),
            decreases n - k,
        {
            let c = self.nodes[i].children[k];
            proof {
                assert(chs.skip(k as int)[0] == chs[k as int]);
                assert(chs.skip(k as int).drop_first() =~= chs.skip(k as int + 1));
            }
            if tok_eq(self.case_sensitive, self.nodes[c].token.as_str(), tok) {
                return Some(c);
            }
            k = k + 1;
        }
        proof {
            assert(chs.skip(n as int) =~= Seq::<usize>::empty());
        }
        None
    }

    /// Inserts the tokenized phrase with the given clean name: walks or
    /// creates the path of nodes and marks the last one terminal.  Returns
    /// whether the keyword was new.
    pub(crate) fn insert(&mut self, toks: &Vec<Token>, clean_name: &str) -> (created: bool)
        requires
            old(self).wf(),
        ensures
            final(self).wf(),
            final(self).case_sensitive == old(self).case_sensitive,
            final(self).keywords() == old(self).keywords().insert(
                key_path(old(self).case_sensitive, toks@),
                clean_name@,
            ),
            created == !old(self).keywords().contains_key(
                key_path(old(self).case_sensitive, toks@),
            ),
            terminal_count(final(self).nodes@) == terminal_count(old(self).nodes@) + if created {
                1nat
            } else {
                0nat
            },
    {
        let ghost kp = key_path(self.case_sensitive, toks@);
        let mut cur: usize = 0;
        let mut idx: usize = 0;
        while idx < toks.len()
            invariant
                self.wf(),
                self.case_sensitive == old(self).case_sensitive,
                kp == key_path(old(self).case_sensitive, toks@),
                kp.len() == toks@.len(),
                idx <= toks@.len(),
                cur < self.nodes@.len(),
                self.keywords() == old(self).keywords(),
                terminal_count(self.nodes@) == terminal_count(old(self).nodes@),
                descend(self.nodes@, self.case_sensitive, 0, kp.take(idx as int)) == Some(
                    cur as int,
                ),
            decreases toks@.len() - idx,
        {
            let ghost key = kp[idx as int];
            proof {
                assert(key == key_of(self.case_sensitive, toks@[idx as int].text@));
                assert(kp.take(idx as int).push(key) =~= kp.take(idx as int + 1));
            }
            let r = self.find_child(cur, toks[idx].text.as_str());
            match r {
                Some(c) => {
                    proof {
                        lemma_descend_snoc(
                            self.nodes@,
                            self.case_sensitive,
                            0,
                            kp.take(idx as int),
                            key,
                        );
                    }
                    cur = c;
                },
                None => {
                    let ghost pre = *self;
                    let n = self.nodes.len();
                    let leaf = Node {
                        token: toks[idx].text.clone(),
                        clean_name: None,
                        children: Vec::new(),
                    };
                    self.nodes.push(leaf);
                    let ghost mid = *self;
                    proof {
                        lemma_keywords_after_push(pre, mid, leaf);
                    }
                    self.nodes[cur].children.push(n);
                    proof {
                        assert(self.nodes@ == mid.nodes@.update(
                            cur as int,
                            self.nodes@[cur as int],
                        ));
                        assert(self.nodes@[cur as int].children@ == mid.nodes@[cur as int].children@.push(
                            n,
                        ));
                        // the fresh leaf is unreferenced in `mid`
                        assert forall|i2: int, k2: int|
                            0 <= i2 < mid.nodes@.len() && 0 <= k2
                                < mid.nodes@[i2].children@.len() implies #[trigger] mid.nodes@[i2].children@[k2]
                            != n by {
                            if i2 < pre.nodes@.len() {
                                assert(mid.nodes@[i2].children@[k2] == pre.nodes@[i2].children@[k2]);
                            }
                        }
                        // the walk from `cur` fails in `mid` on this key
                        let cs = self.case_sensitive;
                        assert forall|s: int|
                            0 <= s < pre.nodes@[cur as int].children@.len() implies mid.nodes@[#[trigger] pre.nodes@[cur as int].children@[s] as int].token
                            == pre.nodes@[pre.nodes@[cur as int].children@[s] as int].token by {}
                        lemma_child_in_tokens(
                            pre.nodes@,
                            mid.nodes@,
                            cs,
                            pre.nodes@[cur as int].children@,
                            key,
                        );
                        assert(child(mid.nodes@, cs, cur as int, key) is None);
                        assert(key_of(cs, mid.nodes@[n as int].token@) == key);
                        lemma_keywords_after_link(mid, *self, cur as int, n);
                        assert(mid.node_at(kp.take(idx as int)) == Some(cur as int));
                        assert(self.node_at(kp.take(idx as int)) == Some(cur as int));
                        lemma_descend_snoc(
                            self.nodes@,
                            cs,
                            0,
                            kp.take(idx as int),
                            key,
                        );
                        assert(child(self.nodes@, cs, cur as int, key) == Some(n as int));
                        assert(descend(self.nodes@, cs, 0, kp.take(idx as int + 1)) == Some(
                            n as int,
                        ));
                    }
                    cur = n;
                },
            }
            idx = idx + 1;
        }
        proof {
            assert(kp.take(kp.len() as int) =~= kp);
        }
        let had = self.nodes[cur].clean_name.is_some();
        let ghost pre = *self;
        self.nodes[cur].clean_name = Some(clean_name.to_owned());
        proof {
            let cs = self.case_sensitive;
            assert(self.nodes@ == pre.nodes@.update(cur as int, self.nodes@[cur as int]));
            assert forall|p: Seq<Seq<char>>| #[trigger] descend(self.nodes@, cs, 0, p) == descend(
                pre.nodes@,
                cs,
                0,
                p,
            ) by {
                lemma_descend_same_structure(pre.nodes@, self.nodes@, cs, 0, p);
            }
            assert(self.node_at(kp) == Some(cur as int));
            assert(self.has_path(kp));
            assert forall|p: Seq<Seq<char>>| p != kp implies #[trigger] self.has_path(p)
                == pre.has_path(p) && (pre.has_path(p) ==> self.keywords()[p]
                == pre.keywords()[p]) by {
                assert(descend(self.nodes@, cs, 0, p) == descend(pre.nodes@, cs, 0, p));
                let r = pre.node_at(p);
                if r is Some {
                    lemma_descend_bounds(pre.nodes@, cs, 0, p, r->0);
                    if r->0 == cur as int {
                        lemma_path_unique(pre.nodes@, cs, p, kp, cur as int);
                        assert(false);
                    } else {
                        assert(self.nodes@[r->0] == pre.nodes@[r->0]);
                    }
                }
            }
            assert(self.keywords() =~= pre.keywords().insert(kp, clean_name@));
            lemma_terminal_count_update(pre.nodes@, cur as int, self.nodes@[cur as int]);
        }
        !had
    }

    /// Removes the tokenized phrase: walks existing nodes only; when the full
    /// path exists and ends a keyword, clears its clean name.  Returns
    /// whether a keyword was removed.
    pub(crate) fn remove(&mut self, toks: &Vec<Token>) -> (removed: bool)
        requires
            old(self).wf(),
        ensures
            final(self).wf(),
            final(self).case_sensitive == old(self).case_sensitive,
            final(self).keywords() == old(self).keywords().remove(
                key_path(old(self).case_sensitive, toks@),
            ),
            removed == old(self).keywords().contains_key(
                key_path(old(self).case_sensitive, toks@),
            ),
            terminal_count(final(self).nodes@) + if removed {
                1nat
            } else {
                0nat
            } == terminal_count(old(self).nodes@),
    {
        let ghost kp = key_path(self.case_sensitive, toks@);
        let mut cur: usize = 0;
        let mut idx: usize = 0;
        while idx < toks.len()
            invariant
                self.wf(),
                *self == *old(self),
                kp == key_path(old(self).case_sensitive, toks@),
                kp.len() == toks@.len(),
                idx <= toks@.len(),
                cur < self.nodes@.len(),
                descend(self.nodes@, self.case_sensitive, 0, kp.take(idx as int)) == Some(
                    cur as int,
                ),
            decreases toks@.len() - idx,
        {
            let ghost key = kp[idx as int];
            proof {
                assert(key == key_of(self.case_sensitive, toks@[idx as int].text@));
                assert(kp.take(idx as int).push(key) =~= kp.take(idx as int + 1));
            }
            let r = self.find_child(cur, toks[idx].text.as_str());
            match r {
                Some(c) => {
                    proof {
                        lemma_descend_snoc(
                            self.nodes@,
                            self.case_sensitive,
                            0,
                            kp.take(idx as int),
                            key,
                        );
                    }
                    cur = c;
                },
                None => {
                    proof {
                        let cs = self.case_sensitive;
                        lemma_descend_snoc(self.nodes@, cs, 0, kp.take(idx as int), key);
                        assert(descend(self.nodes@, cs, 0, kp.take(idx as int + 1)) is None);
                        assert(kp =~= kp.take(idx as int + 1) + kp.skip(idx as int + 1));
                        lemma_descend_split(
                            self.nodes@,
                            cs,
                            0,
                            kp.take(idx as int + 1),
                            kp.skip(idx as int + 1),
                        );
                        assert(self.node_at(kp) is None);
                        assert(!self.keywords().contains_key(kp));
                        assert(self.keywords() =~= self.keywords().remove(kp));
                    }
                    return false;
                },
            }
            idx = idx + 1;
        }
        proof {
            assert(kp.take(kp.len() as int) =~= kp);
        }
        let had = self.nodes[cur].clean_name.is_some();
        if !had {
            proof {
                assert(!self.keywords().contains_key(kp));
                assert(self.keywords() =~= self.keywords().remove(kp));
            }
            return false;
        }
        let ghost pre = *self;
        self.nodes[cur].clean_name = None;
        proof {
            let cs = self.case_sensitive;
            assert(self.nodes@ == pre.nodes@.update(cur as int, self.nodes@[cur as int]));
            assert forall|p: Seq<Seq<char>>| #[trigger] descend(self.nodes@, cs, 0, p) == descend(
                pre.nodes@,
                cs,
                0,
                p,
            ) by {
                lemma_descend_same_structure(pre.nodes@, self.nodes@, cs, 0, p);
            }
            assert(self.node_at(kp) == Some(cur as int));
            assert(!self.has_path(kp));
            assert forall|p: Seq<Seq<char>>| p != kp implies #[trigger] self.has_path(p)
                == pre.has_path(p) && (pre.has_path(p) ==> self.keywords()[p]
                == pre.keywords()[p]) by {
                assert(descend(self.nodes@, cs, 0, p) == descend(pre.nodes@, cs, 0, p));
                let r = pre.node_at(p);
                if r is Some {
                    lemma_descend_bounds(pre.nodes@, cs, 0, p, r->0);
                    if r->0 == cur as int {
                        lemma_path_unique(pre.nodes@, cs, p, kp, cur as int);
                        assert(false);
                    } else {
                        assert(self.nodes@[r->0] == pre.nodes@[r->0]);
                    }
                }
            }
            assert(self.keywords() =~= pre.keywords().remove(kp));
            lemma_terminal_count_update(pre.nodes@, cur as int, self.nodes@[cur as int]);
        }
        true
    }
}

/// Splitting a walk: descending along `p1 + p2` first reaches the end of
/// `p1`, then continues from there.
pub proof fn lemma_descend_split(
    nodes: Seq<Node>,
    cs: bool,
    i: int,
    p1: Seq<Seq<char>>,
    p2: Seq<Seq<char>>,
)
    ensures
        descend(nodes, cs, i, p1 + p2) == match descend(nodes, cs, i, p1) {
            None => None::<int>,
            Some(m) => descend(nodes, cs, m, p2),
        },
    decreases p1.len(),
{
    if p1.len() == 0 {
        assert(p1 + p2 =~= p2);
    } else {
        assert((p1 + p2)[0] == p1[0]);
        assert((p1 + p2).drop_first() =~= p1.drop_first() + p2);
        match child(nodes, cs, i, p1[0]) {
            None => {},
            Some(c) => {
                lemma_descend_split(nodes, cs, c, p1.drop_first(), p2);
            },
        }
    }
}

/// A walk that reaches a node stays inside the arena and, when the path is
/// non-empty, strictly increases the index.
pub proof fn lemma_descend_bounds(
    nodes: Seq<Node>,
    cs: bool,
    i: int,
    path: Seq<Seq<char>>,
    m: int,
)
    requires
        wf_nodes(nodes),
        0 <= i < nodes.len(),
        descend(nodes, cs, i, path) == Some(m),
    ensures
        0 <= m < nodes.len(),
        path.len() > 0 ==> i < m,
    decreases path.len(),
{
    if path.len() == 0 {
    } else {
        let c = child(nodes, cs, i, path[0])->0;
        lemma_child_in_member(nodes, cs, nodes[i].children@, path[0]);
        lemma_descend_bounds(nodes, cs, c, path.drop_first(), m);
    }
}

/// A successful child lookup returns an entry of the children list whose
/// stored token has the looked-up key.
pub proof fn lemma_child_in_member(nodes: Seq<Node>, cs: bool, ch: Seq<usize>, key: Seq<char>)
    ensures
        child_in(nodes, cs, ch, key) matches Some(c) ==> exists|s: int|
            0 <= s < ch.len() && ch[s] as int == c && key_of(cs, nodes[c].token@) == key,
    decreases ch.len(),
{
    if ch.len() == 0 {
    } else if key_of(cs, nodes[ch[0] as int].token@) == key {
        assert(ch[0] as int == child_in(nodes, cs, ch, key)->0 && key_of(
            cs,
            nodes[ch[0] as int].token@,
        ) == key);
    } else {
        lemma_child_in_member(nodes, cs, ch.drop_first(), key);
        let r = child_in(nodes, cs, ch, key);
        if r is Some {
            let c = r->0;
            let s = choose|s: int|
                0 <= s < ch.drop_first().len() && ch.drop_first()[s] as int == c && key_of(
                    cs,
                    nodes[c].token@,
                ) == key;
            assert(ch[s + 1] as int == c && key_of(cs, nodes[c].token@) == key);
        }
    }
}

/// The keyword entries in the subtree rooted at node `i`, in depth-first
/// order: each terminal node contributes its reconstructed phrase (the
/// stored tokens from the root down) and its clean name.
pub open spec fn entries_from(nodes: Seq<Node>, i: int, prefix: Seq<char>) -> Seq<
    (Seq<char>, Seq<char>),
>
    decreases nodes.len() - i, nodes[i].children@.len() + 1,
    when wf_nodes(nodes) && 0 <= i < nodes.len()
{
    (if nodes[i].clean_name is Some {
        seq![((prefix + nodes[i].token@), nodes[i].clean_name->0@)]
    } else {
        Seq::empty()
    }) + entries_children(nodes, nodes[i].children@, i, prefix + nodes[i].token@)
}

/// The keyword entries of the subtrees rooted at the listed children, left
/// to right.
pub open spec fn entries_children(
    nodes: Seq<Node>,
    ch: Seq<usize>,
    floor: int,
    prefix: Seq<char>,
) -> Seq<(Seq<char>, Seq<char>)>
    decreases nodes.len() - floor, ch.len(),
    when wf_nodes(nodes) && 0 <= floor && (forall|s: int|
        0 <= s < ch.len() ==> (floor < #[trigger] ch[s] as int && (ch[s] as int) < nodes.len()))
{
    if ch.len() == 0 {
        Seq::empty()
    } else {
        entries_from(nodes, ch[0] as int, prefix) + entries_children(
            nodes,
            ch.drop_first(),
            floor,
            prefix,
        )
    }
}

/// The spec view of an executable list of (phrase, clean name) pairs.
pub open spec fn pair_views(v: Seq<(String, String)>) -> Seq<(Seq<char>, Seq<char>)> {
    v.map_values(|p: (String, String)| (p.0@, p.1@))
}

impl Trie {
    /// The stored keywords as (phrase, clean name) pairs, in depth-first
    /// order from the root.
    pub open spec fn entries(self) -> Seq<(Seq<char>, Seq<char>)> {
        entries_from(self.nodes@, 0, Seq::empty())
    }

    /// Depth-first traversal of the subtree rooted at node `i`,
    /// reconstructing each terminal's phrase from the stored tokens.
    pub(crate) fn collect_entries(&self, i: usize, prefix: &String) -> (out: Vec<(String, String)>)
        requires
            self.wf(),
            i < self.nodes@.len(),
        ensures
            pair_views(out@) == entries_from(self.nodes@, i as int, prefix@),
        decreases self.nodes@.len() - i,
    {
        let ghost nodes = self.nodes@;
        let mut p2 = prefix.clone();
        p2.append(self.nodes[i].token.as_str());
        let mut out: Vec<(String, String)> = Vec::new();
        let ghost head = if nodes[i as int].clean_name is Some {
            seq![((prefix@ + nodes[i as int].token@), nodes[i as int].clean_name->0@)]
        } else {
            Seq::<(Seq<char>, Seq<char>)>::empty()
        };
        match &self.nodes[i].clean_name {
            Some(c) => {
                out.push((p2.clone(), c.clone()));
                proof {
                    assert(pair_views(out@) =~= head);
                }
            },
            None => {
                proof {
                    assert(pair_views(out@) =~= head);
                }
            },
        }
        let ghost chs = nodes[i as int].children@;
        proof {
            assert(entries_from(nodes, i as int, prefix@) == head + entries_children(
                nodes,
                chs,
                i as int,
                p2@,
            ));
            assert(chs.skip(0) =~= chs);
        }
        let n = self.nodes[i].children.len();
        let mut k: usize = 0;
        while k < n
            invariant
                self.wf(),
                nodes == self.nodes@,
                i < nodes.len(),
                chs == nodes[i as int].children@,
                n == chs.len(),
                k <= n,
                p2@ == prefix@ + nodes[i as int].token@,
                pair_views(out@) + entries_children(nodes, chs.skip(k as int), i as int, p2@)
                    == entries_from(nodes, i as int, prefix@),
            decreases n - k,
        {
            let c = self.nodes[i].children[k];
            proof {
                assert(chs.skip(k as int)[0] == chs[k as int]);
                assert(chs.skip(k as int).drop_first() =~= chs.skip(k as int + 1));
                assert forall|s: int| 0 <= s < chs.skip(k as int).len() implies ((i as int)
                    < (#[trigger] chs.skip(k as int)[s] as int) && ((chs.skip(k as int)[s] as int)
                    < (nodes.len() as int))) by {
                    assert(chs.skip(k as int)[s] == chs[k + s]);
                }
                assert(entries_children(nodes, chs.skip(k as int), i as int, p2@) == entries_from(
                    nodes,
                    c as int,
                    p2@,
                ) + entries_children(nodes, chs.skip(k as int + 1), i as int, p2@));
            }
            let ghost prev = out@;
            let mut sub = self.collect_entries(c, &p2);
            let ghost subv = sub@;
            out.append(&mut sub);
            proof {
                assert(pair_views(out@) =~= pair_views(prev) + pair_views(subv));
                assert((pair_views(prev) + pair_views(subv)) + entries_children(
                    nodes,
                    chs.skip(k as int + 1),
                    i as int,
                    p2@,
                ) =~= pair_views(prev) + entries_children(nodes, chs.skip(k as int), i as int, p2@));
            }
            k = k + 1;
        }
        proof {
            assert(chs.skip(n as int) =~= Seq::<usize>::empty());
            assert(entries_children(nodes, Seq::<usize>::empty(), i as int, p2@) == Seq::<
                (Seq<char>, Seq<char>),
            >::empty());
            assert(pair_views(out@) + Seq::<(Seq<char>, Seq<char>)>::empty() =~= pair_views(out@));
        }
        out
    }
}

/// Child lookup depends only on the stored tokens of the listed entries.
pub proof fn lemma_child_in_tokens(
    nodes1: Seq<Node>,
    nodes2: Seq<Node>,
    cs: bool,
    ch: Seq<usize>,
    key: Seq<char>,
)
    requires
        forall|s: int|
            0 <= s < ch.len() ==> nodes2[#[trigger] ch[s] as int].token == nodes1[ch[s] as int].token,
    ensures
        child_in(nodes2, cs, ch, key) == child_in(nodes1, cs, ch, key),
    decreases ch.len(),
{
    if ch.len() == 0 {
    } else {
        assert(nodes2[ch[0] as int].token == nodes1[ch[0] as int].token);
        assert forall|s: int| 0 <= s < ch.drop_first().len() implies nodes2[#[trigger] ch.drop_first()[s] as int].token
            == nodes1[ch.drop_first()[s] as int].token by {
            assert(ch.drop_first()[s] == ch[s + 1]);
        }
        lemma_child_in_tokens(nodes1, nodes2, cs, ch.drop_first(), key);
    }
}

/// Appending an entry to a children list changes a lookup only when the scan
/// of the old list failed.
pub proof fn lemma_child_in_push(
    nodes: Seq<Node>,
    cs: bool,
    ch: Seq<usize>,
    e: usize,
    key: Seq<char>,
)
    ensures
        child_in(nodes, cs, ch.push(e), key) == if child_in(nodes, cs, ch, key) is Some {
            child_in(nodes, cs, ch, key)
        } else if key_of(cs, nodes[e as int].token@) == key {
            Some(e as int)
        } else {
            None::<int>
        },
    decreases ch.len(),
{
    if ch.len() == 0 {
        assert(ch.push(e)[0] == e);
        assert(ch.push(e).drop_first() =~= Seq::<usize>::empty());
    } else {
        assert(ch.push(e)[0] == ch[0]);
        assert(ch.push(e).drop_first() =~= ch.drop_first().push(e));
        lemma_child_in_push(nodes, cs, ch.drop_first(), e, key);
    }
}

/// A walk along a path extended by one key first finishes the path, then
/// takes the extra edge.
pub proof fn lemma_descend_snoc(
    nodes: Seq<Node>,
    cs: bool,
    i: int,
    p: Seq<Seq<char>>,
    k: Seq<char>,
)
    ensures
        descend(nodes, cs, i, p.push(k)) == match descend(nodes, cs, i, p) {
            None => None::<int>,
            Some(m) => child(nodes, cs, m, k),
        },
{
    assert(p.push(k) =~= p + seq![k]);
    lemma_descend_split(nodes, cs, i, p, seq![k]);
    let r = descend(nodes, cs, i, p);
    if r is Some {
        let m = r->0;
        assert(seq![k].drop_first() =~= Seq::<Seq<char>>::empty());
        assert(descend(nodes, cs, m, seq![k]) == match child(nodes, cs, m, k) {
            None => None::<int>,
            Some(c) => descend(nodes, cs, c, Seq::<Seq<char>>::empty()),
        });
    }
}

/// In a well-formed arena a node is reached from the root by at most one
/// path.
pub proof fn lemma_path_unique(
    nodes: Seq<Node>,
    cs: bool,
    p1: Seq<Seq<char>>,
    p2: Seq<Seq<char>>,
    j: int,
)
    requires
        wf_nodes(nodes),
        descend(nodes, cs, 0, p1) == Some(j),
        descend(nodes, cs, 0, p2) == Some(j),
    ensures
        p1 == p2,
    decreases p1.len(),
{
    if p1.len() == 0 {
        assert(j == 0);
        if p2.len() > 0 {
            assert(p2 =~= p2.drop_last().push(p2.last()));
            lemma_descend_snoc(nodes, cs, 0, p2.drop_last(), p2.last());
            let m2 = descend(nodes, cs, 0, p2.drop_last())->0;
            lemma_descend_bounds(nodes, cs, 0, p2.drop_last(), m2);
            lemma_child_in_member(nodes, cs, nodes[m2].children@, p2.last());
            assert(false);
        }
        assert(p1 =~= p2);
    } else if p2.len() == 0 {
        assert(j == 0);
        assert(p1 =~= p1.drop_last().push(p1.last()));
        lemma_descend_snoc(nodes, cs, 0, p1.drop_last(), p1.last());
        let m1 = descend(nodes, cs, 0, p1.drop_last())->0;
        lemma_descend_bounds(nodes, cs, 0, p1.drop_last(), m1);
        lemma_child_in_member(nodes, cs, nodes[m1].children@, p1.last());
        assert(false);
    } else {
        assert(p1 =~= p1.drop_last().push(p1.last()));
        assert(p2 =~= p2.drop_last().push(p2.last()));
        lemma_descend_snoc(nodes, cs, 0, p1.drop_last(), p1.last());
        lemma_descend_snoc(nodes, cs, 0, p2.drop_last(), p2.last());
        let m1 = descend(nodes, cs, 0, p1.drop_last())->0;
        let m2 = descend(nodes, cs, 0, p2.drop_last())->0;
        lemma_descend_bounds(nodes, cs, 0, p1.drop_last(), m1);
        lemma_descend_bounds(nodes, cs, 0, p2.drop_last(), m2);
        lemma_child_in_member(nodes, cs, nodes[m1].children@, p1.last());
        lemma_child_in_member(nodes, cs, nodes[m2].children@, p2.last());
        let s1 = choose|s: int|
            0 <= s < nodes[m1].children@.len() && nodes[m1].children@[s] as int == j && key_of(
                cs,
                nodes[j].token@,
            ) == p1.last();
        let s2 = choose|s: int|
            0 <= s < nodes[m2].children@.len() && nodes[m2].children@[s] as int == j && key_of(
                cs,
                nodes[j].token@,
            ) == p2.last();
        assert(nodes[m1].children@[s1] == nodes[m2].children@[s2]);
        assert(m1 == m2);
        lemma_path_unique(nodes, cs, p1.drop_last(), p2.drop_last(), m1);
        assert(p1 =~= p2);
    }
}

/// Walks are unchanged when lengths, tokens and children are unchanged.
pub proof fn lemma_descend_same_structure(
    nodes1: Seq<Node>,
    nodes2: Seq<Node>,
    cs: bool,
    i: int,
    p: Seq<Seq<char>>,
)
    requires
        wf_nodes(nodes1),
        nodes2.len() == nodes1.len(),
        forall|m: int| 0 <= m < nodes1.len() ==> #[trigger] nodes2[m].token == nodes1[m].token,
        forall|m: int|
            0 <= m < nodes1.len() ==> #[trigger] nodes2[m].children == nodes1[m].children,
        0 <= i < nodes1.len(),
    ensures
        descend(nodes2, cs, i, p) == descend(nodes1, cs, i, p),
    decreases p.len(),
{
    if p.len() == 0 {
    } else {
        assert forall|s: int| 0 <= s < nodes1[i].children@.len() implies nodes2[#[trigger] nodes1[i].children@[s] as int].token
            == nodes1[nodes1[i].children@[s] as int].token by {}
        lemma_child_in_tokens(nodes1, nodes2, cs, nodes1[i].children@, p[0]);
        let r = child(nodes1, cs, i, p[0]);
        if r is Some {
            let c = r->0;
            lemma_child_in_member(nodes1, cs, nodes1[i].children@, p[0]);
            let s = choose|s: int|
                0 <= s < nodes1[i].children@.len() && nodes1[i].children@[s] as int == c && key_of(
                    cs,
                    nodes1[c].token@,
                ) == p[0];
            assert(0 <= c < nodes1.len());
            lemma_descend_same_structure(nodes1, nodes2, cs, c, p.drop_first());
        }
    }
}

/// Terminal counting depends only on which nodes hold a clean name.
pub proof fn lemma_terminal_count_same(nodes1: Seq<Node>, nodes2: Seq<Node>)
    requires
        nodes2.len() == nodes1.len(),
        forall|m: int|
            0 <= m < nodes1.len() ==> ((#[trigger] nodes2[m].clean_name is Some)
                == (nodes1[m].clean_name is Some)),
    ensures
        terminal_count(nodes2) == terminal_count(nodes1),
    decreases nodes1.len(),
{
    if nodes1.len() == 0 {
    } else {
        lemma_terminal_count_same(nodes1.drop_last(), nodes2.drop_last());
    }
}

/// No more nodes end a keyword than there are nodes.
pub proof fn lemma_terminal_count_le(nodes: Seq<Node>)
    ensures
        terminal_count(nodes) <= nodes.len(),
    decreases nodes.len(),
{
    if nodes.len() == 0 {
    } else {
        lemma_terminal_count_le(nodes.drop_last());
    }
}

/// Appending a node adds its own terminal flag to the count.
pub proof fn lemma_terminal_count_push(nodes: Seq<Node>, x: Node)
    ensures
        terminal_count(nodes.push(x)) == terminal_count(nodes) + if x.clean_name is Some {
            1nat
        } else {
            0nat
        },
{
    assert(nodes.push(x).drop_last() =~= nodes);
    assert(nodes.push(x).last() == x);
}

/// Replacing one node adjusts the count by the difference of the two
/// terminal flags.
pub proof fn lemma_terminal_count_update(nodes: Seq<Node>, j: int, x: Node)
    requires
        0 <= j < nodes.len(),
    ensures
        terminal_count(nodes.update(j, x)) + (if nodes[j].clean_name is Some {
            1nat
        } else {
            0nat
        }) == terminal_count(nodes) + (if x.clean_name is Some {
            1nat
        } else {
            0nat
        }),
    decreases nodes.len(),
{
    if j == nodes.len() - 1 {
        assert(nodes.update(j, x).drop_last() =~= nodes.drop_last());
        assert(nodes.update(j, x).last() == x);
    } else {
        assert(nodes.update(j, x).drop_last() =~= nodes.drop_last().update(j, x));
        assert(nodes.update(j, x).last() == nodes.last());
        lemma_terminal_count_update(nodes.drop_last(), j, x);
    }
}

/// Appending an unlinked leaf changes no walk that starts at an existing
/// node.
pub proof fn lemma_descend_push(
    nodes: Seq<Node>,
    x: Node,
    cs: bool,
    i: int,
    p: Seq<Seq<char>>,
)
    requires
        wf_nodes(nodes),
        0 <= i < nodes.len(),
    ensures
        descend(nodes.push(x), cs, i, p) == descend(nodes, cs, i, p),
    decreases p.len(),
{
    let nodes2 = nodes.push(x);
    if p.len() == 0 {
    } else {
        assert forall|s: int| 0 <= s < nodes[i].children@.len() implies nodes2[#[trigger] nodes[i].children@[s] as int].token
            == nodes[nodes[i].children@[s] as int].token by {}
        assert(nodes2[i].children@ == nodes[i].children@);
        lemma_child_in_tokens(nodes, nodes2, cs, nodes[i].children@, p[0]);
        let r = child(nodes, cs, i, p[0]);
        if r is Some {
            let c = r->0;
            lemma_child_in_member(nodes, cs, nodes[i].children@, p[0]);
            lemma_descend_push(nodes, x, cs, c, p.drop_first());
        }
    }
}

/// Appending an unlinked leaf keeps the arena well-formed.
pub proof fn lemma_wf_push(nodes: Seq<Node>, x: Node)
    requires
        wf_nodes(nodes),
        x.children@.len() == 0,
    ensures
        wf_nodes(nodes.push(x)),
{
}

/// Pushing an unlinked, non-terminal leaf leaves the stored keywords, the
/// terminal count and every walk from the root unchanged.
pub proof fn lemma_keywords_after_push(t1: Trie, t2: Trie, x: Node)
    requires
        t1.wf(),
        x.children@.len() == 0,
        x.clean_name is None,
        t2.case_sensitive == t1.case_sensitive,
        t2.nodes@ == t1.nodes@.push(x),
    ensures
        t2.wf(),
        t2.keywords() == t1.keywords(),
        terminal_count(t2.nodes@) == terminal_count(t1.nodes@),
        forall|p: Seq<Seq<char>>| #[trigger] t2.node_at(p) == t1.node_at(p),
{
    let cs = t1.case_sensitive;
    lemma_wf_push(t1.nodes@, x);
    lemma_terminal_count_push(t1.nodes@, x);
    assert forall|p: Seq<Seq<char>>| #[trigger] t2.node_at(p) == t1.node_at(p) by {
        lemma_descend_push(t1.nodes@, x, cs, 0, p);
    }
    assert forall|p: Seq<Seq<char>>| #[trigger] t2.has_path(p) == t1.has_path(p) by {
        let r = t1.node_at(p);
        if r is Some {
            lemma_descend_bounds(t1.nodes@, cs, 0, p, r->0);
        }
    }
    assert forall|p: Seq<Seq<char>>| t1.has_path(p) implies t2.keywords()[p] == t1.keywords()[p] by {
        let r = t1.node_at(p);
        lemma_descend_bounds(t1.nodes@, cs, 0, p, r->0);
    }
    assert(t2.keywords() =~= t1.keywords());
}

/// Linking a fresh childless, non-terminal leaf under a node that had no
/// child with that key: every walk that succeeded before is unchanged, and a
/// walk changes at most by now ending at the new leaf.
pub proof fn lemma_descend_link(
    nodes1: Seq<Node>,
    nodes2: Seq<Node>,
    cs: bool,
    cur: int,
    n: usize,
    i: int,
    p: Seq<Seq<char>>,
)
    requires
        wf_nodes(nodes1),
        n as int == nodes1.len() - 1,
        nodes1[n as int].children@.len() == 0,
        forall|i2: int, k2: int|
            0 <= i2 < nodes1.len() && 0 <= k2 < nodes1[i2].children@.len()
                ==> #[trigger] nodes1[i2].children@[k2] != n,
        0 <= cur < n as int,
        child(nodes1, cs, cur, key_of(cs, nodes1[n as int].token@)) is None,
        nodes2.len() == nodes1.len(),
        forall|m: int| 0 <= m < nodes1.len() ==> #[trigger] nodes2[m].token == nodes1[m].token,
        forall|m: int|
            0 <= m < nodes1.len() ==> #[trigger] nodes2[m].clean_name == nodes1[m].clean_name,
        forall|m: int|
            0 <= m < nodes1.len() && m != cur ==> #[trigger] nodes2[m].children
                == nodes1[m].children,
        nodes2[cur].children@ == nodes1[cur].children@.push(n),
        0 <= i < nodes1.len(),
    ensures
        descend(nodes2, cs, i, p) == descend(nodes1, cs, i, p) || (descend(nodes2, cs, i, p)
            == Some(n as int) && descend(nodes1, cs, i, p) is None),
    decreases p.len(),
{
    if p.len() == 0 {
    } else {
        let key = p[0];
        if i == n as int {
            assert(nodes2[n as int].children@.len() == 0);
            assert(child(nodes2, cs, n as int, key) is None);
            assert(child(nodes1, cs, n as int, key) is None);
        } else if i != cur {
            let ch = nodes1[i].children@;
            lemma_child_in_tokens(nodes1, nodes2, cs, ch, key);
            let r = child(nodes1, cs, i, key);
            if r is Some {
                let c = r->0;
                lemma_child_in_member(nodes1, cs, ch, key);
                let s = choose|s: int|
                    0 <= s < ch.len() && ch[s] as int == c && key_of(cs, nodes1[c].token@) == key;
                assert(0 <= c < nodes1.len());
                lemma_descend_link(nodes1, nodes2, cs, cur, n, c, p.drop_first());
            }
        } else {
            let ch = nodes1[cur].children@;
            lemma_child_in_tokens(nodes1, nodes2, cs, ch, key);
            lemma_child_in_push(nodes2, cs, ch, n, key);
            let r = child(nodes1, cs, cur, key);
            if r is Some {
                let c = r->0;
                lemma_child_in_member(nodes1, cs, ch, key);
                let s = choose|s: int|
                    0 <= s < ch.len() && ch[s] as int == c && key_of(cs, nodes1[c].token@) == key;
                assert(0 <= c < nodes1.len());
                assert(child(nodes2, cs, cur, key) == Some(c));
                lemma_descend_link(nodes1, nodes2, cs, cur, n, c, p.drop_first());
            } else {
                if key_of(cs, nodes2[n as int].token@) == key {
                    assert(child(nodes2, cs, cur, key) == Some(n as int));
                    assert(descend(nodes1, cs, cur, p) is None);
                    assert(nodes2[n as int].children@.len() == 0);
                    if p.drop_first().len() == 0 {
                        assert(descend(nodes2, cs, n as int, p.drop_first()) == Some(n as int));
                    } else {
                        assert(child(nodes2, cs, n as int, p.drop_first()[0]) is None);
                        assert(descend(nodes2, cs, n as int, p.drop_first()) is None);
                    }
                } else {
                    assert(child(nodes2, cs, cur, key) is None);
                }
            }
        }
    }
}

/// Linking a fresh leaf keeps the arena well-formed.
pub proof fn lemma_wf_link(nodes1: Seq<Node>, nodes2: Seq<Node>, cur: int, n: usize)
    requires
        wf_nodes(nodes1),
        n as int == nodes1.len() - 1,
        nodes1[n as int].children@.len() == 0,
        forall|i2: int, k2: int|
            0 <= i2 < nodes1.len() && 0 <= k2 < nodes1[i2].children@.len()
                ==> #[trigger] nodes1[i2].children@[k2] != n,
        0 <= cur < n as int,
        nodes2.len() == nodes1.len(),
        forall|m: int|
            0 <= m < nodes1.len() && m != cur ==> #[trigger] nodes2[m].children
                == nodes1[m].children,
        nodes2[cur].children@ == nodes1[cur].children@.push(n),
    ensures
        wf_nodes(nodes2),
{
    let ch1 = nodes1[cur].children@;
    let last = ch1.len() as int;
    assert forall|i: int, k: int|
        0 <= i < nodes2.len() && 0 <= k < nodes2[i].children@.len() implies ((i as int) < (
    nodes2[i].children@[k] as int) && ((nodes2[i].children@[k] as int) < (nodes2.len() as int))) by {
        if i == cur {
            if k < last {
                assert(nodes2[i].children@[k] == nodes1[i].children@[k]);
            } else {
                assert(nodes2[i].children@[k] == n);
            }
        } else {
            assert(nodes2[i].children@[k] == nodes1[i].children@[k]);
        }
    }
    assert forall|i1: int, k1: int, i2: int, k2: int|
        0 <= i1 < nodes2.len() && 0 <= k1 < nodes2[i1].children@.len() && 0 <= i2 < nodes2.len()
            && 0 <= k2 < nodes2[i2].children@.len() && #[trigger] nodes2[i1].children@[k1]
            == #[trigger] nodes2[i2].children@[k2] implies i1 == i2 && k1 == k2 by {
        let new1 = i1 == cur && k1 == last;
        let new2 = i2 == cur && k2 == last;
        if new1 && new2 {
        } else if new1 {
            assert(nodes2[i2].children@[k2] == nodes1[i2].children@[k2]);
            assert(nodes1[i2].children@[k2] != n);
            assert(false);
        } else if new2 {
            assert(nodes2[i1].children@[k1] == nodes1[i1].children@[k1]);
            assert(nodes1[i1].children@[k1] != n);
            assert(false);
        } else {
            assert(nodes2[i1].children@[k1] == nodes1[i1].children@[k1]);
            assert(nodes2[i2].children@[k2] == nodes1[i2].children@[k2]);
        }
    }
}

/// Linking a fresh, non-terminal leaf leaves the stored keywords and the
/// terminal count unchanged, and preserves every walk that succeeded.
pub proof fn lemma_keywords_after_link(t1: Trie, t2: Trie, cur: int, n: usize)
    requires
        t1.wf(),
        n as int == t1.nodes@.len() - 1,
        t1.nodes@[n as int].children@.len() == 0,
        t1.nodes@[n as int].clean_name is None,
        forall|i2: int, k2: int|
            0 <= i2 < t1.nodes@.len() && 0 <= k2 < t1.nodes@[i2].children@.len()
                ==> #[trigger] t1.nodes@[i2].children@[k2] != n,
        0 <= cur < n as int,
        child(t1.nodes@, t1.case_sensitive, cur, key_of(t1.case_sensitive, t1.nodes@[n as int].token@))
            is None,
        t2.case_sensitive == t1.case_sensitive,
        t2.nodes@.len() == t1.nodes@.len(),
        forall|m: int|
            0 <= m < t1.nodes@.len() ==> #[trigger] t2.nodes@[m].token == t1.nodes@[m].token,
        forall|m: int|
            0 <= m < t1.nodes@.len() ==> #[trigger] t2.nodes@[m].clean_name
                == t1.nodes@[m].clean_name,
        forall|m: int|
            0 <= m < t1.nodes@.len() && m != cur ==> #[trigger] t2.nodes@[m].children
                == t1.nodes@[m].children,
        t2.nodes@[cur].children@ == t1.nodes@[cur].children@.push(n),
    ensures
        t2.wf(),
        t2.keywords() == t1.keywords(),
        terminal_count(t2.nodes@) == terminal_count(t1.nodes@),
        child(t2.nodes@, t2.case_sensitive, cur, key_of(t1.case_sensitive, t1.nodes@[n as int].token@))
            == Some(n as int),
        forall|p: Seq<Seq<char>>|
            #[trigger] t1.node_at(p) is Some ==> t2.node_at(p) == t1.node_at(p),
{
    let cs = t1.case_sensitive;
    let key = key_of(cs, t1.nodes@[n as int].token@);
    lemma_wf_link(t1.nodes@, t2.nodes@, cur, n);
    lemma_terminal_count_same(t1.nodes@, t2.nodes@);
    lemma_child_in_tokens(t1.nodes@, t2.nodes@, cs, t1.nodes@[cur].children@, key);
    lemma_child_in_push(t2.nodes@, cs, t1.nodes@[cur].children@, n, key);
    assert(child(t2.nodes@, cs, cur, key) == Some(n as int));
    assert forall|p: Seq<Seq<char>>| #[trigger] t1.node_at(p) is Some implies t2.node_at(p)
        == t1.node_at(p) by {
        lemma_descend_link(t1.nodes@, t2.nodes@, cs, cur, n, 0, p);
    }
    assert forall|p: Seq<Seq<char>>| #[trigger] t2.has_path(p) == t1.has_path(p) by {
        lemma_descend_link(t1.nodes@, t2.nodes@, cs, cur, n, 0, p);
        let r2 = t2.node_at(p);
        if r2 is Some {
            if r2 == t1.node_at(p) {
                lemma_descend_bounds(t1.nodes@, cs, 0, p, r2->0);
            } else {
                assert(r2 == Some(n as int));
                assert(t2.nodes@[n as int].clean_name is None);
            }
        }
    }
    assert forall|p: Seq<Seq<char>>| t1.has_path(p) implies t2.keywords()[p] == t1.keywords()[p] by {
        lemma_descend_link(t1.nodes@, t2.nodes@, cs, cur, n, 0, p);
        let r = t1.node_at(p);
        lemma_descend_bounds(t1.nodes@, cs, 0, p, r->0);
    }
    assert(t2.keywords() =~= t1.keywords());
}

} // verus!
