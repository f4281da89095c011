//! When compressing again changes nothing.
//!
//! A node that hands its weight up is left without weight. If it was itself
//! too heavy to fold before, it may be light enough afterwards, and a second
//! compression with the same threshold then folds it. Compression is a
//! fixed point exactly on the trees that are settled.

use crate::mass::{lemma_compress_mass, lemma_mass_below_agree};
use crate::trie::Trie;
use vstd::prelude::*;

verus! {

/// Children without weight add nothing to the weight of the family.
pub proof fn lemma_weightless_kids(t: Trie, b: int)
    requires
        0 <= b <= 256,
        forall|c: u8| t.children.contains_key(c) ==> (#[trigger] t.children[c]).weight == 0,
    ensures
        t.kids_weight_below(b) == 0,
    decreases b,
{
    if b > 0 {
        lemma_weightless_kids(t, b - 1);
    }
}

/// Compressing a settled tree leaves it as it is.
pub proof fn lemma_settled_is_fixed(t: Trie, threshold: nat)
    requires
        t.settled(threshold),
    ensures
        t.compress(threshold) == t,
    decreases t,
{
    let s = t.settle_children(threshold);
    assert forall|b: u8| t.children.contains_key(b) implies s.children[b] == t.children[b] by {
        lemma_settled_is_fixed(t.children[b], threshold);
    }
    assert(s.children =~= t.children);
    if t.family() <= threshold {
        lemma_weightless_kids(t, 256);
        let f = t.fold_up();
        assert forall|b: u8| t.children.contains_key(b) implies f.children.contains_key(b)
            && f.children[b] == t.children[b] by {}
        assert(f.children =~= t.children);
    }
}

/// A tree that compression leaves as it is was settled.
pub proof fn lemma_fixed_is_settled(t: Trie, threshold: nat)
    requires
        t.compress(threshold) == t,
    ensures
        t.settled(threshold),
    decreases t,
{
    let s = t.settle_children(threshold);
    if s.family() <= threshold {
        assert forall|b: u8| t.children.contains_key(b) implies (#[trigger] t.children[b]).weight
            == 0 && !t.children[b].is_leaf() && t.children[b].settled(threshold) by {
            let kid = t.children[b];
            let pressed = kid.compress(threshold);
            lemma_compress_mass(kid, threshold);
            lemma_mass_below_agree(kid, pressed, 256);
            lemma_fixed_is_settled(kid, threshold);
        }
    } else {
        assert forall|b: u8| t.children.contains_key(b) implies (#[trigger] t.children[b]).settled(
            threshold,
        ) by {
            lemma_fixed_is_settled(t.children[b], threshold);
        }
    }
}

/// Compressing a second time with the same threshold changes nothing,
/// where the first compression left a settled tree, and only there.
pub proof fn lemma_compress_twice(t: Trie, threshold: nat)
    ensures
        t.compress(threshold).settled(threshold) <==> t.compress(threshold).compress(threshold)
            == t.compress(threshold),
{
    let once = t.compress(threshold);
    if once.settled(threshold) {
        lemma_settled_is_fixed(once, threshold);
    }
    if once.compress(threshold) == once {
        lemma_fixed_is_settled(once, threshold);
    }
}

} // verus!
