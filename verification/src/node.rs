//! The nodes that a digest is built of.

use crate::boundary::{keys_of, lemma_boundaries_below_gap};
use crate::mass::{
    lemma_compress_mass, lemma_kid_mass_le, lemma_kids_weight_below_gap, lemma_kids_weight_le_mass,
    lemma_leaf_mass, lemma_mass_below_gap, lemma_mass_below_mono,
};
use crate::rank::{lemma_last_byte_below_gap, lemma_select_from_gap};
use crate::trie::Trie;
use std::collections::BTreeMap;
use vstd::prelude::*;
use vstd::std_specs::btree::*;
use vstd::std_specs::cmp::OrdSpec;
use vstd::std_specs::iter::IteratorSpec;

verus! {

/// A node of the prefix tree: the weight it holds and, in the order of their
/// bytes, the nodes that continue its key.
#[derive(Debug)]
pub(crate) struct Node {
    weight: u64,
    children: BTreeMap<u8, Node>,
}

impl View for Node {
    type V = Trie;

    closed spec fn view(&self) -> Trie {
        self.model()
    }
}

/// Bytes that a map of nodes lists in increasing order differ from place to
/// place, the smaller first.
proof fn lemma_increasing_bytes(s: Seq<u8>)
    requires
        increasing_seq(s),
    ensures
        forall|i: int, j: int| 0 <= i < j < s.len() ==> s[i] < s[j],
{
    assert forall|i: int, j: int| 0 <= i < j < s.len() implies s[i] < s[j] by {
        assert(s[i].cmp_spec(&s[j]) is Less);
    }
}

/// The byte at place `i` of `bytes`, or 256 past the end: every byte before
/// place `i` is smaller.
spec fn bound(bytes: Seq<u8>, i: int) -> int {
    if 0 <= i < bytes.len() {
        bytes[i] as int
    } else {
        256
    }
}

/// Whether `bytes` lists exactly the bytes under which `t` has a child, in
/// increasing order.
spec fn lists_children(bytes: Seq<u8>, t: Trie) -> bool {
    &&& forall|i: int, j: int| 0 <= i < j < bytes.len() ==> bytes[i] < bytes[j]
    &&& forall|b: u8| t.children.contains_key(b) <==> bytes.contains(b)
}

/// No child stands under a byte between two neighbours of the list.
proof fn lemma_between_labels(bytes: Seq<u8>, t: Trie, i: int)
    requires
        lists_children(bytes, t),
        0 <= i <= bytes.len(),
    ensures
        forall|c: int|
            (if i == 0 {
                0
            } else {
                bytes[i - 1] + 1
            }) <= c < bound(bytes, i) ==> !t.has(c),
        i < bytes.len() ==> t.has(bytes[i] as int),
        i > 0 ==> bytes[i - 1] < bound(bytes, i),
{
    assert forall|c: int|
        (if i == 0 {
            0
        } else {
            bytes[i - 1] + 1
        }) <= c < bound(bytes, i) implies !t.has(c) by {
        if t.has(c) {
            assert(bytes.contains(c as u8));
        }
    }
    if i < bytes.len() {
        assert(bytes.contains(bytes[i]));
    }
}

impl Node {
    /// The tree that this node and the nodes below it stand for.
    spec fn model(self) -> Trie
        decreases self,
    {
        Trie {
            weight: self.weight as nat,
            children: Map::new(
                |b: u8| self.children@.contains_key(b),
                |b: u8|
                    if self.children@.contains_key(b) {
                        self.children@[b].model()
                    } else {
                        Trie::empty()
                    },
            ),
        }
    }

    /// A node without weight and without children.
    pub(crate) fn new() -> (node: Node)
        ensures
            node@ == Trie::empty(),
    {
        let node = Node { weight: 0, children: BTreeMap::new() };
        assert(node@.children =~= Map::<u8, Trie>::empty());
        node
    }

    /// The bytes under which this node has a child, in increasing order.
    fn labels(&self) -> (bytes: Vec<u8>)
        ensures
            lists_children(bytes@, self@),
    {
        let mut bytes: Vec<u8> = Vec::new();
        let ghost all = spec_btree_map_iter(&self.children).remaining();
        for entry in it: self.children.iter()
            invariant
                it.seq() == all,
                increasing_seq(all.map_values(|e: (&u8, &Node)| *e.0)),
                bytes@.len() == it.index(),
                forall|i: int| 0 <= i < bytes@.len() ==> bytes@[i] == *all[i].0,
        {
            bytes.push(*entry.0);
        }
        proof {
            let keys = all.map_values(|e: (&u8, &Node)| *e.0);
            assert(bytes@ =~= keys);
            lemma_increasing_bytes(keys);
            assert forall|b: u8| self@.children.contains_key(b) implies bytes@.contains(b) by {
                let e = (&b, &self.children@[b]);
                let i = choose|i: int| 0 <= i < all.len() && all[i] == e;
                assert(bytes@[i] == b);
            }
        }
        bytes
    }

    /// Adds `weight` at the key made of the bytes of `key` from `at` on.
    pub(crate) fn insert(&mut self, key: &[u8], at: usize, weight: u64)
        requires
            at <= key@.len(),
            old(self)@.mass() + weight <= u64::MAX,
        ensures
            final(self)@ == old(self)@.insert(key@.skip(at as int), weight as nat),
        decreases key@.len() - at,
    {
        if at == key.len() {
            self.weight = self.weight + weight;
        } else {
            let b = key[at];
            let found = self.children.remove(&b);
            let mut child = match found {
                Some(node) => node,
                None => Node::new(),
            };
            proof {
                if old(self)@.children.contains_key(b) {
                    lemma_kid_mass_le(old(self)@, b as int);
                } else {
                    lemma_leaf_mass(Trie::empty());
                }
                assert(key@.skip(at as int).drop_first() =~= key@.skip(at + 1));
            }
            child.insert(key, at + 1, weight);
            self.children.insert(b, child);
            assert(self@.children =~= old(self)@.children.insert(b, child@));
        }
    }

    /// Compresses the tree below this node: from the leaves up, a node whose
    /// weight together with that of its children is at most `threshold`
    /// takes their weight over and drops the children that have none of
    /// their own.
    pub(crate) fn compress(&mut self, threshold: u64)
        requires
            old(self)@.mass() <= u64::MAX,
        ensures
            final(self)@ == old(self)@.compress(threshold as nat),
        decreases *old(self),
    {
        let bytes = self.labels();
        let ghost start = *self;
        let ghost settled = start@.settle_children(threshold as nat);
        proof {
            lemma_compress_mass(start@, threshold as nat);
            lemma_between_labels(bytes@, settled, 0);
            lemma_kids_weight_below_gap(settled, 0, bound(bytes@, 0));
            assert forall|b: u8| b < bound(bytes@, 0) implies !start.children@.contains_key(b) by {
                assert(!settled.has(b as int));
            }
        }
        let mut total: u64 = self.weight;
        let mut i: usize = 0;
        while i < bytes.len()
            invariant
                i <= bytes.len(),
                lists_children(bytes@, settled),
                settled == start@.settle_children(threshold as nat),
                settled.mass() <= u64::MAX,
                start@.mass() <= u64::MAX,
                start == *old(self),
                self.weight == start.weight,
                self.children@.dom() == start.children@.dom(),
                forall|b: u8|
                    start.children@.contains_key(b) && b >= bound(bytes@, i as int)
                        ==> self.children@[b] == start.children@[b],
                forall|b: u8|
                    start.children@.contains_key(b) && b < bound(bytes@, i as int)
                        ==> self.children@[b]@ == settled.children[b],
                total == start.weight + settled.kids_weight_below(bound(bytes@, i as int)),
            decreases bytes.len() - i,
        {
            let b = bytes[i];
            proof {
                lemma_between_labels(bytes@, settled, i as int);
                lemma_between_labels(bytes@, settled, i + 1);
                lemma_kids_weight_below_gap(settled, b + 1, bound(bytes@, i + 1));
                lemma_kids_weight_le_mass(settled, b + 1);
                lemma_mass_below_mono(settled, b + 1, 256);
                lemma_kid_mass_le(start@, b as int);
            }
            let found = self.children.remove(&b);
            let mut child = found.unwrap();
            child.compress(threshold);
            total = total + child.weight;
            self.children.insert(b, child);
            proof {
                assert forall|c: u8|
                    start.children@.contains_key(c) && c < bound(
                        bytes@,
                        i + 1,
                    ) implies self.children@[c]@ == settled.children[c] by {
                    if c > b {
                        assert(!settled.has(c as int));
                    }
                }
            }
            i = i + 1;
        }
        assert(self@.children =~= settled.children);
        if total <= threshold {
            let ghost folded = settled.fold_up();
            proof {
                assert forall|b: u8| b < bound(bytes@, 0) implies !settled.children.contains_key(
                    b,
                ) by {}
            }
            let mut j: usize = 0;
            while j < bytes.len()
                invariant
                    j <= bytes.len(),
                    lists_children(bytes@, settled),
                    folded == settled.fold_up(),
                    self.weight == settled.weight,
                    forall|b: u8|
                        b >= bound(bytes@, j as int) ==> (self@.children.contains_key(b)
                            <==> settled.children.contains_key(b)),
                    forall|b: u8|
                        settled.children.contains_key(b) && b >= bound(bytes@, j as int)
                            ==> self@.children[b] == settled.children[b],
                    forall|b: u8|
                        b < bound(bytes@, j as int) ==> (self@.children.contains_key(b)
                            <==> folded.children.contains_key(b)),
                    forall|b: u8|
                        folded.children.contains_key(b) && b < bound(bytes@, j as int)
                            ==> self@.children[b] == folded.children[b],
                decreases bytes.len() - j,
            {
                let b = bytes[j];
                proof {
                    lemma_between_labels(bytes@, settled, j as int);
                    lemma_between_labels(bytes@, settled, j + 1);
                }
                let found = self.children.remove(&b);
                let mut child = found.unwrap();
                assert(child@.is_leaf() <==> child.children@.is_empty()) by {
                    if child.children@.is_empty() {
                        assert forall|c: u8| !child@.children.contains_key(c) by {}
                    } else if child@.is_leaf() {
                        assert forall|c: u8| !child.children@.dom().contains(c) by {
                            assert(!child@.children.contains_key(c));
                        }
                    }
                }
                if !child.children.is_empty() {
                    child.weight = 0;
                    assert(child@ == folded.children[b]);
                    self.children.insert(b, child);
                }
                proof {
                    assert forall|c: u8|
                        folded.children.contains_key(c) && c < bound(
                            bytes@,
                            j + 1,
                        ) implies self@.children[c] == folded.children[c] by {
                        if c > b {
                            assert(!settled.has(c as int));
                        }
                    }
                    assert forall|c: u8| c < bound(bytes@, j + 1) implies (
                    self@.children.contains_key(c) <==> folded.children.contains_key(c)) by {
                        if c > b {
                            assert(!settled.has(c as int));
                        }
                    }
                }
                j = j + 1;
            }
            self.weight = total;
            assert(self@.children =~= folded.children);
        }
    }

    /// Walks the tree in the order of its keys with a budget of `rank` and
    /// stops at the first node at which the weight met so far reaches it.
    /// The bytes from this node to that one are put behind `key`. Returns
    /// what is left of the budget when the whole tree holds less.
    pub(crate) fn explore(&self, rank: u64, key: &mut Vec<u8>) -> (left: u64)
        ensures
            rank <= self@.mass() ==> left == 0 && final(key)@ == old(key)@ + self@.select(
                rank as nat,
            ),
            rank > self@.mass() ==> left == rank - self@.mass() && final(key)@ == old(key)@,
        decreases self,
    {
        if rank <= self.weight {
            return 0;
        }
        let bytes = self.labels();
        let mut left: u64 = rank - self.weight;
        let mut i: usize = 0;
        proof {
            lemma_between_labels(bytes@, self@, 0);
            lemma_mass_below_gap(self@, 0, bound(bytes@, 0));
            lemma_select_from_gap(self@, left as nat, 0, bound(bytes@, 0));
        }
        while i < bytes.len()
            invariant
                i <= bytes.len(),
                lists_children(bytes@, self@),
                0 < left,
                left + self@.weight + self@.mass_below(bound(bytes@, i as int)) == rank,
                self@.select(rank as nat) == self@.select_from(
                    left as nat,
                    bound(bytes@, i as int),
                ),
                key@ == old(key)@,
            decreases bytes.len() - i,
        {
            let b = bytes[i];
            proof {
                lemma_between_labels(bytes@, self@, i as int);
                lemma_between_labels(bytes@, self@, i + 1);
                lemma_mass_below_gap(self@, b + 1, bound(bytes@, i + 1));
                lemma_kid_mass_le(self@, b as int);
            }
            let found = self.children.get(&b);
            let child = found.unwrap();
            key.push(b);
            let rest = child.explore(left, key);
            if rest == 0 {
                return 0;
            }
            key.pop();
            proof {
                lemma_select_from_gap(self@, rest as nat, b + 1, bound(bytes@, i + 1));
            }
            left = rest;
            i = i + 1;
        }
        left
    }

    /// Puts behind `key` the bytes from this node to the last node below it
    /// in the order of keys.
    pub(crate) fn last_key(&self, key: &mut Vec<u8>)
        ensures
            final(key)@ == old(key)@ + self@.last_path(),
        decreases self,
    {
        let bytes = self.labels();
        proof {
            lemma_between_labels(bytes@, self@, bytes@.len() as int);
        }
        if bytes.len() > 0 {
            let b = bytes[bytes.len() - 1];
            proof {
                lemma_between_labels(bytes@, self@, bytes@.len() - 1);
                lemma_last_byte_below_gap(self@, b + 1, 256);
            }
            let found = self.children.get(&b);
            let child = found.unwrap();
            key.push(b);
            child.last_key(key);
        } else {
            proof {
                lemma_last_byte_below_gap(self@, 0, 256);
            }
        }
    }

    /// Puts behind `out`, in the order of keys, the key of each node below
    /// and including this one that holds more weight than its children do
    /// together. `prefix` is the key of this node.
    pub(crate) fn collect_boundaries(&self, prefix: &mut Vec<u8>, out: &mut Vec<Vec<u8>>)
        requires
            self@.mass() <= u64::MAX,
        ensures
            final(prefix)@ == old(prefix)@,
            keys_of(final(out)@) == keys_of(old(out)@) + self@.boundaries(old(prefix)@),
        decreases self,
    {
        let bytes = self.labels();
        let mut below: u64 = 0;
        let mut i: usize = 0;
        proof {
            lemma_between_labels(bytes@, self@, 0);
            lemma_kids_weight_below_gap(self@, 0, bound(bytes@, 0));
        }
        while i < bytes.len()
            invariant
                i <= bytes.len(),
                lists_children(bytes@, self@),
                self@.mass() <= u64::MAX,
                below == self@.kids_weight_below(bound(bytes@, i as int)),
            decreases bytes.len() - i,
        {
            let b = bytes[i];
            proof {
                lemma_between_labels(bytes@, self@, i as int);
                lemma_between_labels(bytes@, self@, i + 1);
                lemma_kids_weight_below_gap(self@, b + 1, bound(bytes@, i + 1));
                lemma_kids_weight_le_mass(self@, b + 1);
                lemma_mass_below_mono(self@, b + 1, 256);
            }
            let found = self.children.get(&b);
            let child = found.unwrap();
            assert(child@.weight == child.weight);
            below = below + child.weight;
            i = i + 1;
        }
        if below < self.weight {
            let own = prefix.clone();
            out.push(own);
        }
        let ghost head = keys_of(out@);
        proof {
            lemma_boundaries_below_gap(self@, prefix@, 0, bound(bytes@, 0));
        }
        let mut j: usize = 0;
        while j < bytes.len()
            invariant
                j <= bytes.len(),
                lists_children(bytes@, self@),
                self@.mass() <= u64::MAX,
                prefix@ == old(prefix)@,
                keys_of(out@) == head + self@.boundaries_below(
                    old(prefix)@,
                    bound(bytes@, j as int),
                ),
            decreases bytes.len() - j,
        {
            let b = bytes[j];
            proof {
                lemma_between_labels(bytes@, self@, j as int);
                lemma_between_labels(bytes@, self@, j + 1);
                lemma_boundaries_below_gap(self@, prefix@, b + 1, bound(bytes@, j + 1));
                lemma_kid_mass_le(self@, b as int);
            }
            let found = self.children.get(&b);
            let child = found.unwrap();
            prefix.push(b);
            child.collect_boundaries(prefix, out);
            prefix.pop();
            j = j + 1;
        }
    }
}

} // verus!
