//! How the weight of a tree is made up of the weights of its subtrees, and
//! what insertion and compression do to it.

use crate::trie::Trie;
use vstd::prelude::*;

verus! {

/// The weight under the smaller bytes grows with the bound.
pub proof fn lemma_mass_below_mono(t: Trie, a: int, b: int)
    requires
        a <= b,
    ensures
        t.mass_below(a) <= t.mass_below(b),
    decreases b,
{
    if a < b && 0 < b {
        if b > 256 {
            if a <= 256 {
                lemma_mass_below_mono(t, a, 256);
            }
        } else {
            lemma_mass_below_mono(t, a, b - 1);
        }
    }
}

/// The weight that the children hold themselves grows with the bound.
pub proof fn lemma_kids_weight_below_mono(t: Trie, a: int, b: int)
    requires
        a <= b,
    ensures
        t.kids_weight_below(a) <= t.kids_weight_below(b),
    decreases b,
{
    if a < b && 0 < b {
        if b > 256 {
            if a <= 256 {
                lemma_kids_weight_below_mono(t, a, 256);
            }
        } else {
            lemma_kids_weight_below_mono(t, a, b - 1);
        }
    }
}

/// Bytes without a child add nothing to the weight under a bound.
pub proof fn lemma_mass_below_gap(t: Trie, a: int, b: int)
    requires
        0 <= a <= b <= 256,
        forall|c: int| a <= c < b ==> !t.has(c),
    ensures
        t.mass_below(a) == t.mass_below(b),
    decreases b - a,
{
    if a < b {
        assert(!t.has(b - 1));
        lemma_mass_below_gap(t, a, b - 1);
    }
}

/// The same for the weight that the children hold themselves.
pub proof fn lemma_kids_weight_below_gap(t: Trie, a: int, b: int)
    requires
        0 <= a <= b <= 256,
        forall|c: int| a <= c < b ==> !t.has(c),
    ensures
        t.kids_weight_below(a) == t.kids_weight_below(b),
    decreases b - a,
{
    if a < b {
        lemma_kids_weight_below_gap(t, a, b - 1);
    }
}

/// Two nodes whose subtrees under the bytes smaller than `b` weigh the same
/// have the same weight under `b`.
pub proof fn lemma_mass_below_agree(s: Trie, t: Trie, b: int)
    requires
        0 <= b <= 256,
        forall|c: int| 0 <= c < b ==> s.has(c) == t.has(c),
        forall|c: int| 0 <= c < b && s.has(c) ==> s.kid(c).mass() == t.kid(c).mass(),
    ensures
        s.mass_below(b) == t.mass_below(b),
    decreases b,
{
    if 0 < b {
        lemma_mass_below_agree(s, t, b - 1);
        assert(s.has(b - 1) == t.has(b - 1));
    }
}

/// Two nodes whose children under the bytes smaller than `b` hold the same
/// weight themselves have the same children's weight under `b`.
pub proof fn lemma_kids_weight_below_agree(s: Trie, t: Trie, b: int)
    requires
        0 <= b <= 256,
        forall|c: int| 0 <= c < b ==> s.has(c) == t.has(c),
        forall|c: int| 0 <= c < b && s.has(c) ==> s.kid(c).weight == t.kid(c).weight,
    ensures
        s.kids_weight_below(b) == t.kids_weight_below(b),
    decreases b,
{
    if 0 < b {
        lemma_kids_weight_below_agree(s, t, b - 1);
        assert(s.has(b - 1) == t.has(b - 1));
    }
}

/// The weight of the subtree under `c`, or nothing where there is none.
pub open spec fn kid_mass(t: Trie, c: int) -> nat {
    if t.has(c) {
        t.kid(c).mass()
    } else {
        0
    }
}

/// Putting the subtree `x` under the byte `c` changes the weight under a
/// bound by the difference between `x` and what stood there.
pub proof fn lemma_mass_below_put(s: Trie, t: Trie, c: u8, x: Trie, b: int)
    requires
        0 <= b <= 256,
        t.children == s.children.insert(c, x),
    ensures
        t.mass_below(b) + (if c < b {
            kid_mass(s, c as int)
        } else {
            0
        }) == s.mass_below(b) + (if c < b {
            x.mass()
        } else {
            0
        }),
    decreases b,
{
    if 0 < b {
        lemma_mass_below_put(s, t, c, x, b - 1);
        assert(t.has(b - 1) == (s.has(b - 1) || b - 1 == c));
    }
}

/// A subtree weighs no more than the tree it stands in, together with the
/// subtrees under the smaller bytes.
pub proof fn lemma_kid_mass_le(t: Trie, c: int)
    requires
        t.has(c),
    ensures
        t.mass_below(c) + t.kid(c).mass() <= t.mass_below(256),
        t.weight + t.kid(c).mass() <= t.mass(),
{
    lemma_mass_below_mono(t, c + 1, 256);
}

/// The weight that the children hold themselves is part of the weight of
/// their subtrees.
pub proof fn lemma_kids_weight_le_mass(t: Trie, b: int)
    ensures
        t.kids_weight_below(b) <= t.mass_below(b),
    decreases b,
{
    if 0 < b {
        if b > 256 {
            lemma_kids_weight_le_mass(t, 256);
        } else {
            lemma_kids_weight_le_mass(t, b - 1);
            if t.has(b - 1) {
                assert(t.kid(b - 1).weight <= t.kid(b - 1).mass());
            }
        }
    }
}

/// A node without children weighs what it holds.
pub proof fn lemma_leaf_mass(t: Trie)
    requires
        t.is_leaf(),
    ensures
        t.mass_below(256) == 0,
        t.kids_weight_below(256) == 0,
        t.mass() == t.weight,
{
    assert forall|c: int| 0 <= c < 256 implies !t.has(c) by {}
    lemma_mass_below_gap(t, 0, 256);
    lemma_kids_weight_below_gap(t, 0, 256);
}

/// Inserting a weight adds exactly that weight to the tree.
pub proof fn lemma_insert_mass(t: Trie, key: Seq<u8>, weight: nat)
    ensures
        t.insert(key, weight).mass() == t.mass() + weight,
    decreases key.len(),
{
    let after = t.insert(key, weight);
    if key.len() == 0 {
        lemma_mass_below_agree(t, after, 256);
    } else {
        let c = key[0];
        let below = if t.children.contains_key(c) {
            t.children[c]
        } else {
            Trie::empty()
        };
        let x = below.insert(key.drop_first(), weight);
        lemma_insert_mass(below, key.drop_first(), weight);
        lemma_mass_below_put(t, after, c, x, 256);
        if !t.children.contains_key(c) {
            lemma_leaf_mass(Trie::empty());
        }
    }
}

/// A node that keeps its children and gives up its own weight weighs what
/// lies below it.
pub proof fn lemma_strip_mass(t: Trie)
    ensures
        (Trie { weight: 0, children: t.children }).mass() + t.weight == t.mass(),
{
    lemma_mass_below_agree(Trie { weight: 0, children: t.children }, t, 256);
}

/// Folding the children's weight into a node moves weight and loses none.
pub proof fn lemma_fold_up_mass_below(t: Trie, b: int)
    requires
        0 <= b <= 256,
    ensures
        t.fold_up().mass_below(b) + t.kids_weight_below(b) == t.mass_below(b),
    decreases b,
{
    if 0 < b {
        lemma_fold_up_mass_below(t, b - 1);
        if t.has(b - 1) {
            let kid = t.kid(b - 1);
            if kid.is_leaf() {
                lemma_leaf_mass(kid);
            } else {
                lemma_strip_mass(kid);
            }
        }
    }
}

/// Folding the children's weight into a node keeps the weight of the tree.
pub proof fn lemma_fold_up_mass(t: Trie)
    ensures
        t.fold_up().mass() == t.mass(),
{
    lemma_fold_up_mass_below(t, 256);
}

/// Compression keeps the weight of the tree.
pub proof fn lemma_compress_mass(t: Trie, threshold: nat)
    ensures
        t.compress(threshold).mass() == t.mass(),
        t.settle_children(threshold).mass() == t.mass(),
    decreases t,
{
    let settled = t.settle_children(threshold);
    assert forall|c: int| 0 <= c < 256 && settled.has(c) implies settled.kid(c).mass() == t.kid(
        c,
    ).mass() by {
        lemma_compress_mass(t.children[c as u8], threshold);
    }
    lemma_mass_below_agree(settled, t, 256);
    lemma_fold_up_mass(settled);
}

} // verus!
