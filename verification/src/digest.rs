//! The quantile digest: a prefix tree of weighted keys that can be
//! compressed to a chosen accuracy and asked for approximate quantiles.

use crate::boundary::{keys_of, lemma_boundaries_ascending};
use crate::mass::{lemma_compress_mass, lemma_insert_mass, lemma_leaf_mass};
use crate::node::Node;
use crate::order::strictly_ascending;
use crate::trie::Trie;
use vstd::prelude::*;

verus! {

/// Why a digest refused a call.
#[derive(Debug, Clone, Copy, PartialEq, Eq)]
pub enum DigestError {
    /// An argument lies outside the range that the operation accepts.
    InvalidArgument,
}

/// A summary of weighted byte-string keys.
///
/// The digest never holds more than `u64::MAX` in total. An insert that would
/// go beyond that adds only the part that still fits.
#[derive(Debug)]
pub struct QDigest {
    root: Node,
    total_weight: u64,
}

impl View for QDigest {
    type V = Trie;

    closed spec fn view(&self) -> Trie {
        self.root@
    }
}

/// The part of `weight` that a digest holding `held` takes in.
pub open spec fn accepted(held: nat, weight: u64) -> nat {
    if held + weight <= u64::MAX {
        weight as nat
    } else {
        (u64::MAX - held) as nat
    }
}

/// The rank that stands for the fraction `numer / denom` of `total`.
pub open spec fn rank_of(total: nat, numer: nat, denom: nat) -> nat {
    (total * numer) / denom
}

/// The key that a digest answers for a rank: the first key up to which it
/// holds at least that weight, and its last key where it holds less.
pub open spec fn located(t: Trie, rank: nat) -> Seq<u8> {
    if rank <= t.mass() {
        t.select(rank)
    } else {
        t.last_path()
    }
}

impl QDigest {
    #[verifier::type_invariant]
    spec fn balanced(self) -> bool {
        self.root@.mass() == self.total_weight
    }

    /// A digest that holds nothing.
    pub fn new() -> (digest: QDigest)
        ensures
            digest@ == Trie::empty(),
            digest@.mass() == 0,
    {
        proof {
            lemma_leaf_mass(Trie::empty());
        }
        QDigest { root: Node::new(), total_weight: 0 }
    }

    /// Hands out what the digest holds and leaves it empty.
    fn take(&mut self) -> (held: QDigest)
        ensures
            held@ == old(self)@,
            held.root@.mass() == held.total_weight,
            final(self)@ == Trie::empty(),
    {
        let mut held = QDigest::new();
        core::mem::swap(self, &mut held);
        proof {
            use_type_invariant(&held);
        }
        held
    }

    /// The weight that the digest holds.
    pub fn total_weight(&self) -> (total: u64)
        ensures
            total == self@.mass(),
    {
        proof {
            use_type_invariant(self);
        }
        self.total_weight
    }

    /// Adds `weight` at `key`. Only the node at `key` gains weight, none of
    /// the nodes on the way to it.
    pub fn insert(&mut self, key: &[u8], weight: u64)
        ensures
            final(self)@ == old(self)@.insert(key@, accepted(old(self)@.mass(), weight)),
            final(self)@.mass() == old(self)@.mass() + accepted(old(self)@.mass(), weight),
    {
        let QDigest { mut root, total_weight } = self.take();
        let room = u64::MAX - total_weight;
        let added = if weight <= room {
            weight
        } else {
            room
        };
        proof {
            lemma_insert_mass(root@, key@, added as nat);
            assert(key@.skip(0) =~= key@);
        }
        root.insert(key, 0, added);
        *self = QDigest { root, total_weight: total_weight + added };
    }

    /// Compresses the digest to about `k` buckets: with a threshold of the
    /// total weight divided by `k`, every node whose weight together with
    /// that of its children is at most the threshold takes their weight
    /// over. Refuses `k == 0` and leaves the digest as it is.
    pub fn compress(&mut self, k: u64) -> (done: Result<(), DigestError>)
        ensures
            k == 0 ==> done == Err::<(), DigestError>(DigestError::InvalidArgument) && final(self)@
                == old(self)@,
            k > 0 ==> done is Ok && final(self)@ == old(self)@.compress(
                old(self)@.mass() / k as nat,
            ),
            final(self)@.mass() == old(self)@.mass(),
    {
        if k == 0 {
            return Err(DigestError::InvalidArgument);
        }
        let QDigest { mut root, total_weight } = self.take();
        let threshold = total_weight / k;
        proof {
            lemma_compress_mass(root@, threshold as nat);
        }
        root.compress(threshold);
        *self = QDigest { root, total_weight };
        Ok(())
    }

    /// The key at the rank `rank`: the first key, in lexicographic order, up
    /// to which the digest holds a weight of at least `rank`. For a rank
    /// beyond the total weight this is the last key of the digest.
    pub fn quantile_at(&self, rank: u64) -> (key: Vec<u8>)
        ensures
            key@ == located(self@, rank as nat),
    {
        let mut key: Vec<u8> = Vec::new();
        let left = self.root.explore(rank, &mut key);
        if left > 0 {
            self.root.last_key(&mut key);
        }
        key
    }

    /// The key at the fraction `numer / denom` of the total weight. Refuses
    /// a fraction that is not within 0 and 1.
    pub fn quantile(&self, numer: u64, denom: u64) -> (found: Result<Vec<u8>, DigestError>)
        ensures
            denom == 0 || numer > denom ==> found == Err::<Vec<u8>, DigestError>(
                DigestError::InvalidArgument,
            ),
            0 < denom && numer <= denom ==> found is Ok && found->Ok_0@ == self@.select(
                rank_of(self@.mass(), numer as nat, denom as nat),
            ),
    {
        if denom == 0 || numer > denom {
            return Err(DigestError::InvalidArgument);
        }
        proof {
            use_type_invariant(self);
        }
        let total = self.total_weight;
        assert(total * numer <= total * denom) by (nonlinear_arith)
            requires
                numer <= denom,
        ;
        assert(total * denom <= u64::MAX * u64::MAX) by (nonlinear_arith)
            requires
                total <= u64::MAX,
                denom <= u64::MAX,
        ;
        let scaled: u128 = (total as u128) * (numer as u128);
        let rank: u128 = scaled / (denom as u128);
        assert(rank <= total) by (nonlinear_arith)
            requires
                rank == (total * numer) / (denom as int),
                total * numer <= total * denom,
                0 < denom,
                0 <= total,
        ;
        Ok(self.quantile_at(rank as u64))
    }

    /// The keys of the nodes that hold more weight than their children do
    /// together, in lexicographic order.
    pub fn boundaries(&self) -> (keys: Vec<Vec<u8>>)
        ensures
            keys_of(keys@) == self@.boundaries(Seq::empty()),
            strictly_ascending(keys_of(keys@)),
    {
        proof {
            use_type_invariant(self);
            lemma_boundaries_ascending(self@, Seq::empty());
        }
        let mut prefix: Vec<u8> = Vec::new();
        let mut keys: Vec<Vec<u8>> = Vec::new();
        self.root.collect_boundaries(&mut prefix, &mut keys);
        keys
    }
}

impl Default for QDigest {
    fn default() -> (digest: QDigest)
        ensures
            digest@ == Trie::empty(),
            digest@.mass() == 0,
    {
        QDigest::new()
    }
}

} // verus!
