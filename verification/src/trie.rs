//! The mathematical model of a digest: a prefix tree of weights.
//!
//! A [`Trie`] is one node together with everything below it. The key of a
//! node is the string of bytes on the way from the root to it; the root has
//! the empty key. Every function here is a specification: it says what the
//! operations of a digest compute, with unbounded weights.

use vstd::prelude::*;

verus! {

/// A node of the prefix tree, with the subtrees below it.
pub ghost struct Trie {
    /// The weight held by this node itself.
    pub weight: nat,
    /// The subtree under each byte that continues this node's key.
    pub children: Map<u8, Trie>,
}

impl Trie {
    /// The tree that holds a single node without weight.
    pub open spec fn empty() -> Trie {
        Trie { weight: 0, children: Map::empty() }
    }

    /// Whether a child stands under the byte `b`.
    pub open spec fn has(self, b: int) -> bool {
        0 <= b < 256 && self.children.contains_key(b as u8)
    }

    /// The child under the byte `b`.
    pub open spec fn kid(self, b: int) -> Trie
        recommends
            self.has(b),
    {
        self.children[b as u8]
    }

    /// Whether this node has no child.
    pub open spec fn is_leaf(self) -> bool {
        forall|b: u8| !self.children.contains_key(b)
    }

    /// The weight of this node and of every node below it.
    pub open spec fn mass(self) -> nat
        decreases self, 257int,
    {
        self.weight + self.mass_below(256)
    }

    /// The weight of the subtrees under the bytes smaller than `b`.
    pub open spec fn mass_below(self, b: int) -> nat
        decreases self, b,
    {
        if b <= 0 {
            0
        } else if b > 256 {
            self.mass_below(256)
        } else {
            self.mass_below(b - 1) + if self.children.contains_key((b - 1) as u8) {
                self.children[(b - 1) as u8].mass()
            } else {
                0
            }
        }
    }

    /// The weight that the children under the bytes smaller than `b` hold
    /// themselves, not counting what lies below them.
    pub open spec fn kids_weight_below(self, b: int) -> nat
        decreases b,
    {
        if b <= 0 {
            0
        } else if b > 256 {
            self.kids_weight_below(256)
        } else {
            self.kids_weight_below(b - 1) + if self.has(b - 1) {
                self.kid(b - 1).weight
            } else {
                0
            }
        }
    }

    /// The weight of this node and of its children, not counting what lies
    /// below the children.
    pub open spec fn family(self) -> nat {
        self.weight + self.kids_weight_below(256)
    }

    /// Whether a node stands at the key `path`, seen from this node.
    pub open spec fn has_path(self, path: Seq<u8>) -> bool
        decreases path.len(),
    {
        path.len() == 0 || (self.children.contains_key(path[0]) && self.children[path[0]].has_path(
            path.drop_first(),
        ))
    }

    /// The node at the key `path`, seen from this node, with what lies
    /// below it; the empty tree where no node stands there.
    pub open spec fn at(self, path: Seq<u8>) -> Trie
        decreases path.len(),
    {
        if path.len() == 0 {
            self
        } else if self.children.contains_key(path[0]) {
            self.children[path[0]].at(path.drop_first())
        } else {
            Trie::empty()
        }
    }

    /// The weight that the node at the key `path` holds itself; nothing
    /// where no node stands there.
    pub open spec fn weight_at(self, path: Seq<u8>) -> nat
        decreases path.len(),
    {
        if path.len() == 0 {
            self.weight
        } else if self.children.contains_key(path[0]) {
            self.children[path[0]].weight_at(path.drop_first())
        } else {
            0
        }
    }

    /// The tree after `weight` has been added at `key`: the nodes on the way
    /// to `key` are made where they are missing, and only the node at `key`
    /// gains weight.
    pub open spec fn insert(self, key: Seq<u8>, weight: nat) -> Trie
        decreases key.len(),
    {
        if key.len() == 0 {
            Trie { weight: self.weight + weight, children: self.children }
        } else {
            let below = if self.children.contains_key(key[0]) {
                self.children[key[0]]
            } else {
                Trie::empty()
            };
            Trie {
                weight: self.weight,
                children: self.children.insert(key[0], below.insert(key.drop_first(), weight)),
            }
        }
    }

    /// This node with each of its subtrees compressed.
    pub open spec fn settle_children(self, threshold: nat) -> Trie
        decreases self, 0int,
    {
        Trie {
            weight: self.weight,
            children: Map::new(
                |b: u8| self.children.contains_key(b),
                |b: u8|
                    if self.children.contains_key(b) {
                        self.children[b].compress(threshold)
                    } else {
                        Trie::empty()
                    },
            ),
        }
    }

    /// This node after it has taken over the weight of its children: each
    /// child is left without weight, and a child without children is gone.
    pub open spec fn fold_up(self) -> Trie {
        Trie {
            weight: self.family(),
            children: Map::new(
                |b: u8| self.children.contains_key(b) && !self.children[b].is_leaf(),
                |b: u8| Trie { weight: 0, children: self.children[b].children },
            ),
        }
    }

    /// The tree after compression: from the leaves up, a node whose weight
    /// together with that of its children is at most `threshold` takes their
    /// weight over.
    pub open spec fn compress(self, threshold: nat) -> Trie
        decreases self, 1int,
    {
        let settled = self.settle_children(threshold);
        if settled.family() <= threshold {
            settled.fold_up()
        } else {
            settled
        }
    }

    /// The number of nodes, below and at this one, that compression with
    /// `threshold` leaves unfolded: those that weigh, together with their
    /// compressed children, more than the threshold.
    pub open spec fn kept_count(self, threshold: nat) -> nat
        decreases self, 257int,
    {
        self.kept_count_below(threshold, 256) + if self.settle_children(threshold).family()
            > threshold {
            1nat
        } else {
            0nat
        }
    }

    /// The same for the subtrees under the bytes smaller than `b`.
    pub open spec fn kept_count_below(self, threshold: nat, b: int) -> nat
        decreases self, b,
    {
        if b <= 0 {
            0
        } else if b > 256 {
            self.kept_count_below(threshold, 256)
        } else {
            self.kept_count_below(threshold, b - 1) + if self.children.contains_key((b - 1) as u8) {
                self.children[(b - 1) as u8].kept_count(threshold)
            } else {
                0
            }
        }
    }

    /// Whether compression with `threshold` has nothing left to do: below
    /// and at this node, a node either holds, together with its children,
    /// more than the threshold, or has handed it all up already, so that its
    /// children hold no weight and each of them has children.
    pub open spec fn settled(self, threshold: nat) -> bool
        decreases self,
    {
        &&& forall|b: u8|
            self.children.contains_key(b) ==> (#[trigger] self.children[b]).settled(threshold)
        &&& (self.family() > threshold || forall|b: u8|
            self.children.contains_key(b) ==> (#[trigger] self.children[b]).weight == 0
                && !self.children[b].is_leaf())
    }

    /// The weight held at the keys that are at most `x` in lexicographic
    /// order.
    pub open spec fn weight_le(self, x: Seq<u8>) -> nat
        decreases x.len(),
    {
        self.weight + if x.len() == 0 {
            0
        } else {
            self.mass_below(x[0] as int) + if self.children.contains_key(x[0]) {
                self.children[x[0]].weight_le(x.drop_first())
            } else {
                0
            }
        }
    }

    /// The first key, in lexicographic order, up to which the tree holds a
    /// weight of at least `rank`; the empty key when there is none.
    pub open spec fn select(self, rank: nat) -> Seq<u8>
        decreases self, 257int,
    {
        if rank <= self.weight {
            Seq::empty()
        } else {
            self.select_from((rank - self.weight) as nat, 0)
        }
    }

    /// The same below this node, for the children under the bytes from `b`
    /// on.
    pub open spec fn select_from(self, rank: nat, b: int) -> Seq<u8>
        decreases self, 256 - b,
    {
        if b < 0 || b >= 256 {
            Seq::empty()
        } else if !self.children.contains_key(b as u8) {
            self.select_from(rank, b + 1)
        } else if rank <= self.children[b as u8].mass() {
            seq![b as u8] + self.children[b as u8].select(rank)
        } else {
            self.select_from((rank - self.children[b as u8].mass()) as nat, b + 1)
        }
    }

    /// The greatest byte under which a child stands, among those smaller
    /// than `b`; -1 when there is none.
    pub open spec fn last_byte_below(self, b: int) -> int
        decreases b,
    {
        if b <= 0 {
            -1
        } else if self.has(b - 1) {
            b - 1
        } else {
            self.last_byte_below(b - 1)
        }
    }

    /// The greatest key at which a node stands.
    pub open spec fn last_path(self) -> Seq<u8>
        decreases self,
    {
        let b = self.last_byte_below(256);
        if 0 <= b < 256 && self.children.contains_key(b as u8) {
            seq![b as u8] + self.children[b as u8].last_path()
        } else {
            Seq::empty()
        }
    }

    /// Whether this node holds weight that its children do not account for.
    pub open spec fn is_boundary(self) -> bool {
        self.kids_weight_below(256) < self.weight
    }

    /// The keys of the boundary nodes in lexicographic order, each with
    /// `prefix` in front.
    pub open spec fn boundaries(self, prefix: Seq<u8>) -> Seq<Seq<u8>>
        decreases self, 257int,
    {
        (if self.is_boundary() {
            seq![prefix]
        } else {
            Seq::empty()
        }) + self.boundaries_below(prefix, 256)
    }

    /// The same for the subtrees under the bytes smaller than `b`.
    pub open spec fn boundaries_below(self, prefix: Seq<u8>, b: int) -> Seq<Seq<u8>>
        decreases self, b,
    {
        if b <= 0 {
            Seq::empty()
        } else if b > 256 {
            self.boundaries_below(prefix, 256)
        } else {
            self.boundaries_below(prefix, b - 1) + if self.children.contains_key((b - 1) as u8) {
                self.children[(b - 1) as u8].boundaries(prefix.push((b - 1) as u8))
            } else {
                Seq::empty()
            }
        }
    }
}

} // verus!
