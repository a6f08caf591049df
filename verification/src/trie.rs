//! A character trie of flagged and safe phrases.  Nodes live in an arena
//! and children always point forward, so the structure is acyclic by
//! construction.

use vstd::prelude::*;

use crate::canon::{lower_of, lower_seq, lowercase_char};
use crate::typ::Type;

verus! {

/// One trie node: an association list from character to child index, a
/// terminal flag, and the terminal's type (meaningful only when terminal).
pub struct TrieNode {
    pub children: Vec<(char, usize)>,
    pub word: bool,
    pub typ: Type,
}

/// The phrase trie.  Index 0 is the root.
pub struct Trie {
    pub nodes: Vec<TrieNode>,
}

/// Well-formedness: the root exists and every child edge points strictly
/// forward inside the arena.
pub open spec fn trie_wf(nodes: Seq<TrieNode>) -> bool {
    &&& nodes.len() >= 1
    &&& forall|i: int, j: int|
        0 <= i < nodes.len() && 0 <= j < nodes[i].children@.len() ==> i < #[trigger] nodes[i].children@[j].1
            < nodes.len()
}

/// The first child edge labelled `c`, if any.
pub open spec fn spec_child_in(children: Seq<(char, usize)>, c: char) -> Option<usize>
    decreases children.len(),
{
    if children.len() == 0 {
        None
    } else if children.first().0 == c {
        Some(children.first().1)
    } else {
        spec_child_in(children.drop_first(), c)
    }
}

/// The child of node `n` along character `c`, if any.
pub open spec fn spec_child(nodes: Seq<TrieNode>, n: int, c: char) -> Option<usize>
    recommends
        0 <= n < nodes.len(),
{
    spec_child_in(nodes[n].children@, c)
}

/// The node reached from `n` by following `s`, if every edge exists.
pub open spec fn spec_lookup(nodes: Seq<TrieNode>, n: int, s: Seq<char>) -> Option<int>
    decreases s.len(),
{
    if s.len() == 0 {
        Some(n)
    } else {
        match spec_child(nodes, n, s.first()) {
            Some(m) => spec_lookup(nodes, m as int, s.drop_first()),
            None => None,
        }
    }
}

/// A found edge at the first index whose label is `c` is the lookup result.
proof fn lemma_child_in_at(children: Seq<(char, usize)>, c: char, i: int)
    requires
        0 <= i < children.len(),
        children[i].0 == c,
        forall|k: int| 0 <= k < i ==> children[k].0 != c,
    ensures
        spec_child_in(children, c) == Some(children[i].1),
    decreases i,
{
    if i > 0 {
        lemma_child_in_at(children.drop_first(), c, i - 1);
    }
}

/// If no edge is labelled `c`, the lookup finds nothing.
proof fn lemma_child_in_none(children: Seq<(char, usize)>, c: char)
    requires
        forall|k: int| 0 <= k < children.len() ==> children[k].0 != c,
    ensures
        spec_child_in(children, c) is None,
    decreases children.len(),
{
    if children.len() > 0 {
        lemma_child_in_none(children.drop_first(), c);
    }
}

/// Appending a new edge does not change the result for labels already
/// present, and resolves the new label if it was absent.
proof fn lemma_child_in_push(children: Seq<(char, usize)>, c: char, m: usize, d: char)
    ensures
        spec_child_in(children, d) is Some ==> spec_child_in(children.push((c, m)), d)
            == spec_child_in(children, d),
        spec_child_in(children, d) is None && c == d ==> spec_child_in(children.push((c, m)), d)
            == Some(m),
        spec_child_in(children, d) is None && c != d ==> spec_child_in(children.push((c, m)), d)
            is None,
    decreases children.len(),
{
    if children.len() == 0 {
        assert(children.push((c, m)).drop_first() =~= Seq::<(char, usize)>::empty());
    } else {
        lemma_child_in_push(children.drop_first(), c, m, d);
        assert(children.push((c, m)).drop_first() =~= children.drop_first().push((c, m)));
    }
}

/// A resolved child edge is one of the node's edges.
pub proof fn lemma_child_in_mem(children: Seq<(char, usize)>, c: char)
    requires
        spec_child_in(children, c) is Some,
    ensures
        exists|j: int|
            0 <= j < children.len() && children[j].0 == c && children[j].1 == spec_child_in(
                children,
                c,
            ).unwrap(),
    decreases children.len(),
{
    if children.len() > 0 && children.first().0 != c {
        lemma_child_in_mem(children.drop_first(), c);
        let j = choose|j: int|
            0 <= j < children.drop_first().len() && children.drop_first()[j].0 == c
                && children.drop_first()[j].1 == spec_child_in(children.drop_first(), c).unwrap();
        assert(children[j + 1] == children.drop_first()[j]);
    }
}

/// In a well-formed arena, child edges stay inside the arena and point
/// strictly forward.
pub proof fn lemma_child_bound(nodes: Seq<TrieNode>, n: int, c: char)
    requires
        trie_wf(nodes),
        0 <= n < nodes.len(),
        spec_child(nodes, n, c) is Some,
    ensures
        n < spec_child(nodes, n, c).unwrap() < nodes.len(),
{
    lemma_child_in_mem(nodes[n].children@, c);
}

/// A path that cannot be resolved cannot be resolved after an extension
/// either.
proof fn lemma_lookup_snoc_none(nodes: Seq<TrieNode>, n: int, s: Seq<char>, c: char)
    requires
        spec_lookup(nodes, n, s) is None,
    ensures
        spec_lookup(nodes, n, s.push(c)) is None,
    decreases s.len(),
{
    if s.len() > 0 {
        assert(s.push(c).first() == s.first());
        assert(s.push(c).drop_first() =~= s.drop_first().push(c));
        if spec_child(nodes, n, s.first()) is Some {
            let m = spec_child(nodes, n, s.first()).unwrap();
            lemma_lookup_snoc_none(nodes, m as int, s.drop_first(), c);
        }
    }
}

/// Two arenas that agree on every child edge of the first also agree on
/// every path the first can resolve.
proof fn lemma_lookup_frame(old_nodes: Seq<TrieNode>, new_nodes: Seq<TrieNode>, n: int, s: Seq<char>)
    requires
        trie_wf(old_nodes),
        0 <= n < old_nodes.len(),
        spec_lookup(old_nodes, n, s) is Some,
        forall|i: int, c: char|
            0 <= i < old_nodes.len() && #[trigger] spec_child(old_nodes, i, c) is Some ==> spec_child(
                new_nodes,
                i,
                c,
            ) == spec_child(old_nodes, i, c),
    ensures
        spec_lookup(new_nodes, n, s) == spec_lookup(old_nodes, n, s),
    decreases s.len(),
{
    if s.len() > 0 {
        lemma_child_bound(old_nodes, n, s.first());
        let m = spec_child(old_nodes, n, s.first()).unwrap();
        lemma_lookup_frame(old_nodes, new_nodes, m as int, s.drop_first());
    }
}

/// Following one more character from a resolved path steps through one
/// child edge.
proof fn lemma_lookup_snoc(nodes: Seq<TrieNode>, n: int, s: Seq<char>, c: char)
    requires
        trie_wf(nodes),
        0 <= n < nodes.len(),
        spec_lookup(nodes, n, s) is Some,
    ensures
        spec_lookup(nodes, n, s.push(c)) == (match spec_child(
            nodes,
            spec_lookup(nodes, n, s).unwrap(),
            c,
        ) {
            Some(m) => Some(m as int),
            None => None::<int>,
        }),
    decreases s.len(),
{
    if s.len() == 0 {
        assert(s.push(c).len() == 1);
        assert(s.push(c).first() == c);
        assert(s.push(c).drop_first() =~= Seq::<char>::empty());
        assert(spec_lookup(nodes, n, s) == Some(n));
        match spec_child(nodes, n, c) {
            Some(m) => {
                assert(spec_lookup(nodes, n, s.push(c)) == spec_lookup(
                    nodes,
                    m as int,
                    s.push(c).drop_first(),
                ));
            },
            None => {
                assert(spec_lookup(nodes, n, s.push(c)) is None);
            },
        }
    } else {
        lemma_child_bound(nodes, n, s.first());
        let m = spec_child(nodes, n, s.first()).unwrap();
        lemma_lookup_snoc(nodes, m as int, s.drop_first(), c);
        assert(s.push(c).drop_first() =~= s.drop_first().push(c));
        assert(s.push(c).first() == s.first());
        assert(spec_lookup(nodes, n, s.push(c)) == spec_lookup(
            nodes,
            m as int,
            s.drop_first().push(c),
        ));
        assert(spec_lookup(nodes, n, s).unwrap() == spec_lookup(
            nodes,
            m as int,
            s.drop_first(),
        ).unwrap());
    }
}

impl Trie {
    /// An empty trie: a lone non-terminal root.
    pub fn new() -> (t: Trie)
        ensures
            trie_wf(t.nodes@),
            t.nodes@.len() == 1,
            !t.nodes@[0].word,
            t.nodes@[0].typ.bits == 0,
            t.nodes@[0].children@.len() == 0,
    {
        let mut nodes: Vec<TrieNode> = Vec::new();
        nodes.push(TrieNode { children: Vec::new(), word: false, typ: Type::none() });
        Trie { nodes }
    }

    /// The root node's index.
    pub fn root(&self) -> (r: usize)
        ensures
            r == 0,
    {
        0
    }

    /// The first child of node `n` along character `c`, if any.
    pub fn child_of(&self, n: usize, c: char) -> (r: Option<usize>)
        requires
            n < self.nodes@.len(),
        ensures
            r == spec_child(self.nodes@, n as int, c),
    {
        let children = &self.nodes[n].children;
        let mut i: usize = 0;
        while i < children.len()
            invariant
                i <= children@.len(),
                children@ == self.nodes@[n as int].children@,
                forall|k: int| 0 <= k < i ==> children@[k].0 != c,
            decreases children@.len() - i,
        {
            if children[i].0 == c {
                proof {
                    lemma_child_in_at(children@, c, i as int);
                }
                return Some(children[i].1);
            }
            i += 1;
        }
        proof {
            lemma_child_in_none(children@, c);
        }
        None
    }

    /// Adds a phrase with the given type.  The phrase is lowercased first,
    /// so matching is case-insensitive; the type of a phrase already present
    /// is extended by bitwise OR.
    ///
    /// The contract records, besides well-formedness, that existing paths
    /// and their nodes survive (types only ever gain the new bits, terminals
    /// stay terminal), that any node created carries either no type or the
    /// new type, and that the lowercased phrase now resolves to a terminal
    /// holding the old type of that node extended by the new bits.
    pub fn add(&mut self, phrase: &Vec<char>, typ: Type)
        requires
            trie_wf(old(self).nodes@),
        ensures
            trie_wf(final(self).nodes@),
            final(self).nodes@.len() >= old(self).nodes@.len(),
            forall|i: int|
                0 <= i < old(self).nodes@.len() ==> (#[trigger] final(self).nodes@[i].typ.bits
                    == old(self).nodes@[i].typ.bits || final(self).nodes@[i].typ.bits == old(self).nodes@[i].typ.bits | typ.bits),
            forall|i: int|
                0 <= i < old(self).nodes@.len() ==> (old(self).nodes@[i].word ==> #[trigger] final(self).nodes@[i].word),
            forall|i: int|
                old(self).nodes@.len() <= i < final(self).nodes@.len() ==> (#[trigger] final(self).nodes@[i].typ.bits == 0 || final(self).nodes@[i].typ.bits == typ.bits),
            forall|s: Seq<char>, n: int|
                0 <= n < old(self).nodes@.len() && #[trigger] spec_lookup(old(self).nodes@, n, s)
                    is Some ==> spec_lookup(final(self).nodes@, n, s) == spec_lookup(
                    old(self).nodes@,
                    n,
                    s,
                ),
            spec_lookup(final(self).nodes@, 0, lower_seq(phrase@)) is Some,
            ({
                let k = spec_lookup(final(self).nodes@, 0, lower_seq(phrase@)).unwrap();
                &&& final(self).nodes@[k].word
                &&& final(self).nodes@[k].typ.bits == (match spec_lookup(
                    old(self).nodes@,
                    0,
                    lower_seq(phrase@),
                ) {
                    Some(j) => old(self).nodes@[j].typ.bits | typ.bits,
                    None => typ.bits,
                })
            }),
    {
        let low = lower_phrase(phrase);
        self.add_lowered(&low, typ);
    }

    /// Adds an already-lowercased phrase; see `add`.
    fn add_lowered(&mut self, low: &Vec<char>, typ: Type)
        requires
            trie_wf(old(self).nodes@),
        ensures
            trie_wf(final(self).nodes@),
            final(self).nodes@.len() >= old(self).nodes@.len(),
            forall|i: int|
                0 <= i < old(self).nodes@.len() ==> (#[trigger] final(self).nodes@[i].typ.bits
                    == old(self).nodes@[i].typ.bits || final(self).nodes@[i].typ.bits == old(self).nodes@[i].typ.bits | typ.bits),
            forall|i: int|
                0 <= i < old(self).nodes@.len() ==> (old(self).nodes@[i].word ==> #[trigger] final(self).nodes@[i].word),
            forall|i: int|
                old(self).nodes@.len() <= i < final(self).nodes@.len() ==> (#[trigger] final(self).nodes@[i].typ.bits == 0 || final(self).nodes@[i].typ.bits == typ.bits),
            forall|s: Seq<char>, n: int|
                0 <= n < old(self).nodes@.len() && #[trigger] spec_lookup(old(self).nodes@, n, s)
                    is Some ==> spec_lookup(final(self).nodes@, n, s) == spec_lookup(
                    old(self).nodes@,
                    n,
                    s,
                ),
            spec_lookup(final(self).nodes@, 0, low@) is Some,
            ({
                let k = spec_lookup(final(self).nodes@, 0, low@).unwrap();
                &&& final(self).nodes@[k].word
                &&& final(self).nodes@[k].typ.bits == (match spec_lookup(
                    old(self).nodes@,
                    0,
                    low@,
                ) {
                    Some(j) => old(self).nodes@[j].typ.bits | typ.bits,
                    None => typ.bits,
                })
            }),
    {
        let ghost orig = self.nodes@;
        let mut n: usize = 0;
        let mut i: usize = 0;
        while i < low.len()
            invariant
                trie_wf(self.nodes@),
                i <= low@.len(),
                n < self.nodes@.len(),
                orig.len() >= 1,
                self.nodes@.len() >= orig.len(),
                trie_wf(orig),
                spec_lookup(self.nodes@, 0, low@.take(i as int)) == Some(n as int),
                (spec_lookup(orig, 0, low@.take(i as int)) == Some(n as int) && n < orig.len()) || (
                spec_lookup(orig, 0, low@.take(i as int)) is None && n >= orig.len()),
                forall|k: int|
                    0 <= k < orig.len() ==> #[trigger] self.nodes@[k].typ == orig[k].typ,
                forall|k: int|
                    0 <= k < orig.len() ==> #[trigger] self.nodes@[k].word == orig[k].word,
                forall|k: int|
                    orig.len() <= k < self.nodes@.len() ==> #[trigger] self.nodes@[k].typ.bits
                        == 0,
                forall|k: int|
                    orig.len() <= k < self.nodes@.len() ==> !(#[trigger] self.nodes@[k].word),
                forall|k: int|
                    n <= k < orig.len() ==> #[trigger] self.nodes@[k].children@ == orig[k].children@,
                forall|k: int, j: int|
                    orig.len() <= k < self.nodes@.len() && 0 <= j
                        < self.nodes@[k].children@.len() ==> #[trigger] self.nodes@[k].children@[j].1
                        >= orig.len(),
                forall|k: int, c: char|
                    0 <= k < orig.len() && #[trigger] spec_child(orig, k, c) is Some ==> spec_child(
                        self.nodes@,
                        k,
                        c,
                    ) == spec_child(orig, k, c),
            decreases low@.len() - i,
        {
            let c = low[i];
            let ghost pre = self.nodes@;
            let next = match self.child_of(n, c) {
                Some(m) => {
                    proof {
                        lemma_child_bound(pre, n as int, c);
                        lemma_lookup_snoc(pre, 0, low@.take(i as int), c);
                        assert(low@.take(i + 1) =~= low@.take(i as int).push(c));
                        if n < orig.len() {
                            // The current node's edges are untouched, so this
                            // step is also a step of the original trie.
                            assert(spec_child(orig, n as int, c) == spec_child(pre, n as int, c));
                            lemma_lookup_snoc(orig, 0, low@.take(i as int), c);
                            lemma_child_bound(orig, n as int, c);
                        } else {
                            lemma_lookup_snoc_none(orig, 0, low@.take(i as int), c);
                        }
                    }
                    m
                },
                None => {
                    let m = self.nodes.len();
                    self.nodes.push(
                        TrieNode { children: Vec::new(), word: false, typ: Type::none() },
                    );
                    let node = &mut self.nodes[n];
                    node.children.push((c, m));
                    proof {
                        assert(self.nodes@.len() == pre.len() + 1);
                        assert(self.nodes@[m as int].children@.len() == 0);
                        assert(self.nodes@[m as int].typ.bits == 0);
                        assert(!self.nodes@[m as int].word);
                        assert(self.nodes@[n as int].children@ == pre[n as int].children@.push(
                            (c, m),
                        ));
                        assert(self.nodes@[n as int].typ == pre[n as int].typ);
                        assert(self.nodes@[n as int].word == pre[n as int].word);
                        assert(forall|k: int|
                            0 <= k < pre.len() && k != n ==> #[trigger] self.nodes@[k] == pre[k]);
                        assert forall|k: int, j: int|
                            0 <= k < self.nodes@.len() && 0 <= j
                                < self.nodes@[k].children@.len() implies k
                            < #[trigger] self.nodes@[k].children@[j].1 < self.nodes@.len() by {
                            if k == n && j == pre[n as int].children@.len() {
                            } else if k < pre.len() {
                                assert(self.nodes@[k].children@[j] == pre[k].children@[j]);
                            }
                        }
                        assert(trie_wf(self.nodes@));
                        assert forall|k: int, d: char|
                            0 <= k < pre.len() && #[trigger] spec_child(pre, k, d) is Some implies spec_child(
                            self.nodes@,
                            k,
                            d,
                        ) == spec_child(pre, k, d) by {
                            if k == n {
                                lemma_child_in_push(pre[k].children@, c, m, d);
                            } else {
                                assert(self.nodes@[k].children@ == pre[k].children@);
                            }
                        }
                        lemma_child_in_push(pre[n as int].children@, c, m, c);
                        assert(spec_child(self.nodes@, n as int, c) == Some(m));
                        lemma_lookup_frame(pre, self.nodes@, 0, low@.take(i as int));
                        lemma_lookup_snoc(self.nodes@, 0, low@.take(i as int), c);
                        assert(low@.take(i + 1) =~= low@.take(i as int).push(c));
                        if n < orig.len() {
                            // No original edge on `c` exists here either.
                            assert(spec_child(orig, n as int, c) == spec_child(pre, n as int, c));
                            lemma_lookup_snoc(orig, 0, low@.take(i as int), c);
                        } else {
                            lemma_lookup_snoc_none(orig, 0, low@.take(i as int), c);
                        }
                        assert forall|k: int|
                            0 <= k < orig.len() implies #[trigger] self.nodes@[k].typ
                            == orig[k].typ by {
                            if k != n {
                                assert(self.nodes@[k] == pre[k]);
                            }
                            assert(pre[k].typ == orig[k].typ);
                        }
                        assert forall|k: int|
                            0 <= k < orig.len() implies #[trigger] self.nodes@[k].word
                            == orig[k].word by {
                            if k != n {
                                assert(self.nodes@[k] == pre[k]);
                            }
                            assert(pre[k].word == orig[k].word);
                        }
                        assert forall|k: int|
                            orig.len() <= k < self.nodes@.len() implies #[trigger] self.nodes@[k].typ.bits
                            == 0 by {
                            if k != n && k != m {
                                assert(self.nodes@[k] == pre[k]);
                            }
                        }
                        assert forall|k: int|
                            orig.len() <= k < self.nodes@.len() implies !(
                            #[trigger] self.nodes@[k].word) by {
                            if k != n && k != m {
                                assert(self.nodes@[k] == pre[k]);
                            }
                        }
                        assert forall|k: int, j: int|
                            orig.len() <= k < self.nodes@.len() && 0 <= j
                                < self.nodes@[k].children@.len() implies #[trigger] self.nodes@[k].children@[j].1
                            >= orig.len() by {
                            if k != n && k != m && k < pre.len() {
                                assert(self.nodes@[k] == pre[k]);
                            } else if k == n {
                                if j < pre[k].children@.len() {
                                    assert(self.nodes@[k].children@[j] == pre[k].children@[j]);
                                }
                            }
                        }
                    }
                    m
                },
            };
            n = next;
            i += 1;
        }
        proof {
            assert(low@.take(low@.len() as int) == low@);
        }
        let ghost pre = self.nodes@;
        let node = &mut self.nodes[n];
        node.word = true;
        let new_typ = node.typ.union(typ);
        node.typ = new_typ;
        proof {
            assert(self.nodes@.len() == pre.len());
            assert(self.nodes@[n as int].children@ == pre[n as int].children@);
            assert(self.nodes@[n as int].word);
            assert(forall|k: int|
                0 <= k < pre.len() && k != n ==> #[trigger] self.nodes@[k] == pre[k]);
            assert(self.nodes@[n as int].typ.bits == pre[n as int].typ.bits | typ.bits);
            assert forall|k: int, d: char|
                0 <= k < pre.len() && #[trigger] spec_child(pre, k, d) is Some implies spec_child(
                self.nodes@,
                k,
                d,
            ) == spec_child(pre, k, d) by {
                assert(self.nodes@[k].children@ == pre[k].children@);
            }
            lemma_lookup_frame(pre, self.nodes@, 0, low@);
            assert forall|s: Seq<char>, m: int|
                0 <= m < orig.len() && #[trigger] spec_lookup(orig, m, s) is Some implies spec_lookup(
                self.nodes@,
                m,
                s,
            ) == spec_lookup(orig, m, s) by {
                assert forall|k: int, d: char|
                    0 <= k < orig.len() && #[trigger] spec_child(orig, k, d) is Some implies spec_child(
                    self.nodes@,
                    k,
                    d,
                ) == spec_child(orig, k, d) by {
                    assert(spec_child(pre, k, d) == spec_child(orig, k, d));
                }
                lemma_lookup_frame(orig, self.nodes@, m, s);
            }
            if n >= orig.len() {
                assert(pre[n as int].typ.bits == 0);
                let tb = typ.bits;
                assert((0u32 | tb) == tb) by (bit_vector);
            }
            assert forall|k: int|
                0 <= k < orig.len() implies (#[trigger] self.nodes@[k].typ.bits
                == orig[k].typ.bits || self.nodes@[k].typ.bits == orig[k].typ.bits | typ.bits) by {
                if k != n {
                    assert(self.nodes@[k] == pre[k]);
                    assert(pre[k].typ == orig[k].typ);
                }
            }
            assert forall|k: int|
                orig.len() <= k < self.nodes@.len() implies (#[trigger] self.nodes@[k].typ.bits
                == 0 || self.nodes@[k].typ.bits == typ.bits) by {
                if k != n {
                    assert(self.nodes@[k] == pre[k]);
                    assert(pre[k].typ.bits == 0);
                }
            }
            assert forall|k: int| 0 <= k < orig.len() && orig[k].word implies #[trigger] self.nodes@[k].word by {
                if k != n {
                    assert(self.nodes@[k] == pre[k]);
                    assert(pre[k].word == orig[k].word);
                }
            }
        }
    }
}

/// The concatenated lowercase expansion of a phrase.
pub(crate) fn lower_phrase(phrase: &Vec<char>) -> (r: Vec<char>)
    ensures
        r@ == lower_seq(phrase@),
{
    let mut out: Vec<char> = Vec::new();
    let mut i: usize = 0;
    while i < phrase.len()
        invariant
            i <= phrase@.len(),
            out@ == lower_seq(phrase@.take(i as int)),
        decreases phrase@.len() - i,
    {
        let mut expansion = lowercase_char(phrase[i]);
        let mut j: usize = 0;
        while j < expansion.len()
            invariant
                j <= expansion@.len(),
                expansion@ == lower_of(phrase@[i as int]),
                i < phrase@.len(),
                out@ == lower_seq(phrase@.take(i as int)) + expansion@.take(j as int),
            decreases expansion@.len() - j,
        {
            out.push(expansion[j]);
            proof {
                assert(expansion@.take(j + 1) =~= expansion@.take(j as int).push(
                    expansion@[j as int],
                ));
            }
            j += 1;
        }
        proof {
            assert(expansion@.take(expansion@.len() as int) == expansion@);
            lemma_lower_seq_snoc(phrase@, i as int);
            assert(out@ == lower_seq(phrase@.take(i + 1)));
        }
        i += 1;
    }
    proof {
        assert(phrase@.take(phrase@.len() as int) == phrase@);
    }
    out
}

/// Lowercasing one more character appends that character's expansion.
proof fn lemma_lower_seq_snoc(s: Seq<char>, i: int)
    requires
        0 <= i < s.len(),
    ensures
        lower_seq(s.take(i + 1)) == lower_seq(s.take(i)) + lower_of(s[i]),
    decreases i,
{
    if i == 0 {
        assert(s.take(1).first() == s[0]);
        assert(s.take(1).drop_first() =~= Seq::<char>::empty());
        assert(lower_seq(s.take(1)) == lower_of(s[0]) + lower_seq(Seq::<char>::empty()));
        assert(lower_of(s[0]) + Seq::<char>::empty() =~= lower_of(s[0]));
        assert(s.take(0) =~= Seq::<char>::empty());
        assert(lower_seq(s.take(0)) + lower_of(s[0]) =~= lower_of(s[0]));
    } else {
        lemma_lower_seq_snoc(s.drop_first(), i - 1);
        assert(s.take(i + 1).drop_first() =~= s.drop_first().take(i));
        assert(s.take(i).drop_first() =~= s.drop_first().take(i - 1));
        assert(s.take(i + 1).first() == s[0]);
        assert(s.take(i).first() == s[0]);
        assert(s.drop_first()[i - 1] == s[i]);
        assert(lower_seq(s.take(i + 1)) == lower_of(s[0]) + lower_seq(s.drop_first().take(i)));
        assert(lower_seq(s.take(i)) == lower_of(s[0]) + lower_seq(s.drop_first().take(i - 1)));
        assert(lower_of(s[0]) + (lower_seq(s.drop_first().take(i - 1)) + lower_of(s[i])) =~= (
        lower_of(s[0]) + lower_seq(s.drop_first().take(i - 1))) + lower_of(s[i]));
    }
}

} // verus!
