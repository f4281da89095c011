//! How many boundary keys a compressed tree can have.
//!
//! A boundary below the root stands under a node that compression left
//! unfolded, for a folded node leaves its children without weight. A node is
//! left unfolded only where it weighs, with its children, more than the
//! threshold, and no weight is counted for more than two such nodes. So the
//! number of boundary keys depends on the number of buckets asked for, and
//! not on how many keys went in.

use crate::trie::Trie;
use vstd::prelude::*;

verus! {

/// Every node that compression leaves unfolded accounts for more than the
/// threshold, out of twice the weight of the tree.
pub proof fn lemma_kept_weight(t: Trie, threshold: nat)
    ensures
        t.kept_count(threshold) * (threshold + 1) + t.compress(threshold).weight <= 2 * t.mass(),
    decreases t, 257int,
{
    let below = t.kept_count_below(threshold, 256);
    lemma_kept_weight_below(t, threshold, 256);
    assert((below + 1) * (threshold + 1) == below * (threshold + 1) + threshold + 1)
        by (nonlinear_arith);
}

/// The same for the subtrees under the bytes smaller than `b`.
pub proof fn lemma_kept_weight_below(t: Trie, threshold: nat, b: int)
    requires
        0 <= b <= 256,
    ensures
        t.kept_count_below(threshold, b) * (threshold + 1) + t.settle_children(
            threshold,
        ).kids_weight_below(b) <= 2 * t.mass_below(b),
    decreases t, b,
{
    if b > 0 {
        let c = (b - 1) as u8;
        lemma_kept_weight_below(t, threshold, b - 1);
        if t.children.contains_key(c) {
            let kid = t.children[c];
            let head = t.kept_count_below(threshold, b - 1);
            let more = kid.kept_count(threshold);
            lemma_kept_weight(kid, threshold);
            assert((head + more) * (threshold + 1) == head * (threshold + 1) + more * (threshold
                + 1)) by (nonlinear_arith);
        }
    } else {
        assert(0 * (threshold + 1) == 0) by (nonlinear_arith);
    }
}

/// Nodes with the same children have the same boundary keys below them.
pub proof fn lemma_boundaries_below_of_children(s: Trie, t: Trie, prefix: Seq<u8>, b: int)
    requires
        s.children == t.children,
    ensures
        s.boundaries_below(prefix, b) == t.boundaries_below(prefix, b),
    decreases b,
{
    if b > 0 {
        if b > 256 {
            lemma_boundaries_below_of_children(s, t, prefix, 256);
        } else {
            lemma_boundaries_below_of_children(s, t, prefix, b - 1);
        }
    }
}

/// Below the root of a compressed tree there are at most 256 boundary keys
/// for each node that compression left unfolded.
pub proof fn lemma_boundaries_below_kept(t: Trie, threshold: nat, prefix: Seq<u8>)
    ensures
        t.compress(threshold).boundaries_below(prefix, 256).len() <= 256 * t.kept_count(threshold),
    decreases t, 257int,
{
    lemma_settled_boundaries(t, threshold, prefix, 256);
    lemma_folded_boundaries(t, threshold, prefix, 256);
}

/// The boundary keys under a node whose children were compressed and that
/// was left unfolded itself.
pub proof fn lemma_settled_boundaries(t: Trie, threshold: nat, prefix: Seq<u8>, b: int)
    requires
        0 <= b <= 256,
    ensures
        t.settle_children(threshold).boundaries_below(prefix, b).len() <= b + 256
            * t.kept_count_below(threshold, b),
    decreases t, b,
{
    if b > 0 {
        let c = (b - 1) as u8;
        let s = t.settle_children(threshold);
        lemma_settled_boundaries(t, threshold, prefix, b - 1);
        if t.children.contains_key(c) {
            let pressed = t.children[c].compress(threshold);
            lemma_boundaries_below_kept(t.children[c], threshold, prefix.push(c));
            assert(s.boundaries_below(prefix, b) == s.boundaries_below(prefix, b - 1)
                + pressed.boundaries(prefix.push(c)));
        }
    }
}

/// The boundary keys under a node whose children were compressed and that
/// took their weight over.
pub proof fn lemma_folded_boundaries(t: Trie, threshold: nat, prefix: Seq<u8>, b: int)
    requires
        0 <= b <= 256,
    ensures
        t.settle_children(threshold).fold_up().boundaries_below(prefix, b).len() <= 256
            * t.kept_count_below(threshold, b),
    decreases t, b,
{
    if b > 0 {
        let c = (b - 1) as u8;
        let s = t.settle_children(threshold);
        let f = s.fold_up();
        lemma_folded_boundaries(t, threshold, prefix, b - 1);
        if f.children.contains_key(c) {
            let pressed = t.children[c].compress(threshold);
            lemma_boundaries_below_of_children(f.children[c], pressed, prefix.push(c), 256);
            lemma_boundaries_below_kept(t.children[c], threshold, prefix.push(c));
            assert(f.children[c].boundaries(prefix.push(c)) =~= f.children[c].boundaries_below(
                prefix.push(c),
                256,
            ));
        }
    }
}

/// A digest compressed to `k` buckets has fewer than `512 * k` boundary
/// keys, whatever it held.
pub proof fn lemma_boundaries_bounded(t: Trie, k: nat, prefix: Seq<u8>)
    requires
        k > 0,
    ensures
        t.compress(t.mass() / k).boundaries(prefix).len() <= 512 * k - 255,
{
    let threshold = t.mass() / k;
    let kept = t.kept_count(threshold);
    lemma_kept_weight(t, threshold);
    lemma_boundaries_below_kept(t, threshold, prefix);
    assert(t.mass() < (threshold + 1) * k) by (nonlinear_arith)
        requires
            threshold == t.mass() / k,
            k > 0,
    ;
    assert(kept < 2 * k) by (nonlinear_arith)
        requires
            kept * (threshold + 1) <= 2 * t.mass(),
            t.mass() < (threshold + 1) * k,
    ;
}

} // verus!
