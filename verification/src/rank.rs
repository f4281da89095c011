//! Ranks: how much weight a tree holds up to a key, and which key a rank
//! selects.

use crate::mass::{
    lemma_compress_mass, lemma_fold_up_mass_below, lemma_insert_mass, lemma_kid_mass_le,
    lemma_kids_weight_below_mono, lemma_leaf_mass, lemma_mass_below_agree, lemma_mass_below_gap,
    lemma_mass_below_mono, lemma_mass_below_put,
};
use crate::order::{lemma_not_lt_is_ge, lex_le, lex_lt};
use crate::trie::Trie;
use vstd::prelude::*;

verus! {

/// Bytes without a child are passed over when a rank is looked up.
pub proof fn lemma_select_from_gap(t: Trie, rank: nat, a: int, b: int)
    requires
        0 <= a <= b <= 256,
        forall|c: int| a <= c < b ==> !t.has(c),
    ensures
        t.select_from(rank, a) == t.select_from(rank, b),
    decreases b - a,
{
    if a < b {
        assert(!t.has(a));
        lemma_select_from_gap(t, rank, a + 1, b);
    }
}

/// Bytes without a child are passed over when the last child is looked up.
pub proof fn lemma_last_byte_below_gap(t: Trie, a: int, b: int)
    requires
        0 <= a <= b <= 256,
        forall|c: int| a <= c < b ==> !t.has(c),
    ensures
        t.last_byte_below(a) == t.last_byte_below(b),
    decreases b - a,
{
    if a < b {
        lemma_last_byte_below_gap(t, a, b - 1);
    }
}

/// The weight up to a key is part of the weight of the tree.
pub proof fn lemma_weight_le_bounded(t: Trie, x: Seq<u8>)
    ensures
        t.weight <= t.weight_le(x) <= t.mass(),
    decreases x.len(),
{
    if x.len() > 0 {
        let c = x[0] as int;
        if t.has(c) {
            lemma_weight_le_bounded(t.kid(c), x.drop_first());
            lemma_kid_mass_le(t, c);
        } else {
            lemma_mass_below_mono(t, c, 256);
        }
    }
}

/// The weight up to a key grows with the key.
pub proof fn lemma_weight_le_mono(t: Trie, x: Seq<u8>, y: Seq<u8>)
    requires
        lex_le(x, y),
    ensures
        t.weight_le(x) <= t.weight_le(y),
    decreases x.len(),
{
    if x.len() > 0 {
        let c = x[0] as int;
        let d = y[0] as int;
        if c == d {
            if t.has(c) {
                lemma_weight_le_mono(t.kid(c), x.drop_first(), y.drop_first());
            }
        } else {
            // everything under `c` lies below `d`
            lemma_mass_below_mono(t, c + 1, d);
            if t.has(c) {
                lemma_weight_le_bounded(t.kid(c), x.drop_first());
            }
        }
    }
}

/// The key that a rank selects is the first key up to which the tree holds
/// at least that weight: the weight up to it reaches the rank, and the
/// weight up to any earlier key does not.
pub proof fn lemma_select_is_least(t: Trie, rank: nat)
    requires
        rank <= t.mass(),
    ensures
        t.has_path(t.select(rank)),
        rank <= t.weight_le(t.select(rank)),
        forall|y: Seq<u8>| lex_lt(y, t.select(rank)) ==> t.weight_le(y) < rank,
    decreases t, 257int,
{
    let q = t.select(rank);
    if rank > t.weight {
        lemma_select_from_is_least(t, (rank - t.weight) as nat, 0);
        let c = q[0] as int;
        assert forall|y: Seq<u8>| lex_lt(y, q) implies t.weight_le(y) < rank by {
            if y.len() > 0 {
                let d = y[0] as int;
                if d < c {
                    lemma_mass_below_mono(t, d + 1, c);
                    if t.has(d) {
                        lemma_weight_le_bounded(t.kid(d), y.drop_first());
                    }
                } else {
                    if y.drop_first() == q.drop_first() {
                        assert(y =~= seq![y[0]] + y.drop_first());
                        assert(q =~= seq![q[0]] + q.drop_first());
                    }
                    assert(lex_lt(y.drop_first(), q.drop_first()));
                }
            }
        }
    } else {
        assert forall|y: Seq<u8>| lex_lt(y, q) implies t.weight_le(y) < rank by {
            assert(y =~= q);
        }
    }
}

/// The same below a node, for a rank counted from the byte `b` on.
pub proof fn lemma_select_from_is_least(t: Trie, rank: nat, b: int)
    requires
        0 <= b <= 256,
        0 < rank,
        rank + t.mass_below(b) <= t.mass_below(256),
    ensures
        ({
            let q = t.select_from(rank, b);
            let c = q[0] as int;
            &&& q.len() > 0
            &&& b <= c
            &&& t.has(c)
            &&& t.kid(c).has_path(q.drop_first())
            &&& t.mass_below(c) < rank + t.mass_below(b)
            &&& rank + t.mass_below(b) <= t.mass_below(c) + t.kid(c).weight_le(q.drop_first())
            &&& forall|y: Seq<u8>|
                lex_lt(y, q.drop_first()) ==> t.mass_below(c) + t.kid(c).weight_le(y) < rank
                    + t.mass_below(b)
        }),
    decreases t, 256 - b,
{
    if b < 256 {
        if !t.has(b) {
            lemma_select_from_is_least(t, rank, b + 1);
        } else if rank <= t.kid(b).mass() {
            let kid = t.kid(b);
            let q = t.select_from(rank, b);
            lemma_select_is_least(kid, rank);
            assert(q.drop_first() =~= kid.select(rank));
        } else {
            lemma_select_from_is_least(t, (rank - t.kid(b).mass()) as nat, b + 1);
        }
    }
}

/// The tree without nodes but the root holds no weight up to any key.
pub proof fn lemma_empty_weight_le(x: Seq<u8>)
    ensures
        Trie::empty().weight_le(x) == 0,
{
    lemma_leaf_mass(Trie::empty());
    if x.len() > 0 {
        lemma_mass_below_mono(Trie::empty(), x[0] as int, 256);
    }
}

/// An inserted weight counts up to every key from its own key on, and up to
/// no earlier key.
pub proof fn lemma_insert_weight_le(t: Trie, key: Seq<u8>, weight: nat, x: Seq<u8>)
    ensures
        t.insert(key, weight).weight_le(x) == t.weight_le(x) + if lex_le(key, x) {
            weight
        } else {
            0
        },
    decreases key.len(),
{
    let after = t.insert(key, weight);
    if key.len() == 0 {
        if x.len() > 0 {
            lemma_mass_below_agree(after, t, x[0] as int);
        }
    } else if x.len() > 0 {
        let c = key[0];
        let below = if t.children.contains_key(c) {
            t.children[c]
        } else {
            Trie::empty()
        };
        let put = below.insert(key.drop_first(), weight);
        lemma_insert_mass(below, key.drop_first(), weight);
        lemma_mass_below_put(t, after, c, put, x[0] as int);
        if !t.children.contains_key(c) {
            lemma_leaf_mass(Trie::empty());
            lemma_empty_weight_le(x.drop_first());
        }
        if x[0] == c {
            lemma_insert_weight_le(below, key.drop_first(), weight, x.drop_first());
        }
    }
}

/// A node that gives up its own weight holds that much less up to any key.
pub proof fn lemma_strip_weight_le(t: Trie, x: Seq<u8>)
    ensures
        (Trie { weight: 0, children: t.children }).weight_le(x) + t.weight == t.weight_le(x),
{
    if x.len() > 0 {
        lemma_mass_below_agree(Trie { weight: 0, children: t.children }, t, x[0] as int);
    }
}

/// Folding the children's weight into a node takes no weight away from the
/// keys up to any key: weight only moves to an earlier key.
pub proof fn lemma_fold_up_weight_le(t: Trie, x: Seq<u8>)
    ensures
        t.weight_le(x) <= t.fold_up().weight_le(x),
{
    if x.len() > 0 {
        let c = x[0] as int;
        lemma_fold_up_mass_below(t, c);
        lemma_kids_weight_below_mono(t, c + 1, 256);
        if t.has(c) {
            let kid = t.kid(c);
            if kid.is_leaf() {
                lemma_leaf_mass(kid);
                lemma_weight_le_bounded(kid, x.drop_first());
            } else {
                lemma_strip_weight_le(kid, x.drop_first());
            }
        }
    }
}

/// Compression takes no weight away from the keys up to any key.
pub proof fn lemma_compress_weight_le(t: Trie, threshold: nat, x: Seq<u8>)
    ensures
        t.weight_le(x) <= t.compress(threshold).weight_le(x),
    decreases t,
{
    let settled = t.settle_children(threshold);
    if x.len() > 0 {
        let c = x[0] as int;
        assert forall|d: int| 0 <= d < c && settled.has(d) implies settled.kid(d).mass() == t.kid(
            d,
        ).mass() by {
            lemma_compress_mass(t.kid(d), threshold);
        }
        lemma_mass_below_agree(settled, t, c);
        if t.has(c) {
            lemma_compress_weight_le(t.children[x[0]], threshold, x.drop_first());
        }
    }
    lemma_fold_up_weight_le(settled, x);
}

/// The key that a rank selects in a compressed tree is at most the key that
/// it selects in the tree as it was.
pub proof fn lemma_compress_select_le(t: Trie, threshold: nat, rank: nat)
    requires
        rank <= t.mass(),
    ensures
        lex_le(t.compress(threshold).select(rank), t.select(rank)),
{
    let after = t.compress(threshold);
    lemma_compress_mass(t, threshold);
    lemma_select_is_least(t, rank);
    lemma_select_is_least(after, rank);
    lemma_compress_weight_le(t, threshold, t.select(rank));
    lemma_not_lt_is_ge(t.select(rank), after.select(rank));
}

/// The rank 0 selects the empty key, which comes before every other key.
pub proof fn lemma_select_zero(t: Trie, y: Seq<u8>)
    ensures
        t.select(0) == Seq::<u8>::empty(),
        t.has_path(t.select(0)),
        lex_le(t.select(0), y),
{
}

/// The rank of the whole weight selects the first key up to which the tree
/// holds all of its weight: no key after it holds any.
pub proof fn lemma_select_all(t: Trie)
    ensures
        t.has_path(t.select(t.mass())),
        t.weight_le(t.select(t.mass())) == t.mass(),
        forall|y: Seq<u8>| lex_lt(y, t.select(t.mass())) ==> t.weight_le(y) < t.mass(),
{
    lemma_select_is_least(t, t.mass());
    lemma_weight_le_bounded(t, t.select(t.mass()));
}

/// What the search for the last child finds: a byte with a child and none
/// above it, or no child at all.
pub proof fn lemma_last_byte_below(t: Trie, b: int)
    requires
        0 <= b <= 256,
    ensures
        -1 <= t.last_byte_below(b) < b,
        t.last_byte_below(b) >= 0 ==> t.has(t.last_byte_below(b)),
        forall|c: int| t.last_byte_below(b) < c < b ==> !t.has(c),
    decreases b,
{
    if b > 0 && !t.has(b - 1) {
        lemma_last_byte_below(t, b - 1);
    }
}

/// A node holds no more than its subtree.
pub proof fn lemma_weight_at_bounded(t: Trie, path: Seq<u8>)
    ensures
        t.weight_at(path) <= t.mass(),
    decreases path.len(),
{
    if path.len() > 0 && t.children.contains_key(path[0]) {
        lemma_weight_at_bounded(t.children[path[0]], path.drop_first());
        lemma_kid_mass_le(t, path[0] as int);
    }
}

/// Up to its last key a tree holds all of its weight.
pub proof fn lemma_last_path_holds_all(t: Trie)
    ensures
        t.has_path(t.last_path()),
        t.weight_le(t.last_path()) == t.mass(),
    decreases t,
{
    let b = t.last_byte_below(256);
    lemma_last_byte_below(t, 256);
    if b >= 0 {
        let last = t.last_path();
        lemma_last_path_holds_all(t.children[b as u8]);
        lemma_mass_below_gap(t, b + 1, 256);
        assert(last.drop_first() =~= t.children[b as u8].last_path());
    } else {
        lemma_mass_below_gap(t, 0, 256);
    }
}

/// Up to a key before the last one a tree holds none of the weight of its
/// last node.
pub proof fn lemma_before_last_path(t: Trie, y: Seq<u8>)
    requires
        lex_lt(y, t.last_path()),
    ensures
        t.weight_le(y) + t.weight_at(t.last_path()) <= t.mass(),
    decreases t,
{
    let b = t.last_byte_below(256);
    let last = t.last_path();
    if b >= 0 {
        let kid = t.children[b as u8];
        assert(last.drop_first() =~= kid.last_path());
        lemma_weight_at_bounded(kid, kid.last_path());
        lemma_kid_mass_le(t, b);
        if y.len() > 0 {
            let d = y[0] as int;
            if d < b {
                lemma_mass_below_mono(t, d + 1, b);
                if t.has(d) {
                    lemma_weight_le_bounded(t.kid(d), y.drop_first());
                }
            } else {
                if y.drop_first() == last.drop_first() {
                    assert(y =~= seq![y[0]] + y.drop_first());
                }
                lemma_before_last_path(kid, y.drop_first());
            }
        }
    } else {
        assert(y =~= last);
    }
}

/// The rank of the whole weight selects the last key of the tree, where the
/// node at that key holds weight or the tree is a single node.
pub proof fn lemma_select_all_is_last(t: Trie)
    requires
        t.weight_at(t.last_path()) > 0 || t.is_leaf(),
    ensures
        t.select(t.mass()) == t.last_path(),
{
    let q = t.select(t.mass());
    let last = t.last_path();
    if t.is_leaf() {
        lemma_leaf_mass(t);
    } else {
        lemma_select_all(t);
        lemma_last_path_holds_all(t);
        if lex_lt(q, last) {
            lemma_before_last_path(t, q);
        }
        lemma_not_lt_is_ge(last, q);
    }
}

/// A rank above 0 selects a key at which the tree holds weight.
pub proof fn lemma_select_holds_weight(t: Trie, rank: nat)
    requires
        0 < rank <= t.mass(),
    ensures
        t.weight_at(t.select(rank)) > 0,
    decreases t, 257int,
{
    if rank > t.weight {
        lemma_select_from_holds_weight(t, (rank - t.weight) as nat, 0);
    }
}

/// The same below a node, for a rank counted from the byte `b` on.
pub proof fn lemma_select_from_holds_weight(t: Trie, rank: nat, b: int)
    requires
        0 <= b <= 256,
        0 < rank,
        rank + t.mass_below(b) <= t.mass_below(256),
    ensures
        t.weight_at(t.select_from(rank, b)) > 0,
    decreases t, 256 - b,
{
    if b < 256 {
        if !t.has(b) {
            lemma_select_from_holds_weight(t, rank, b + 1);
        } else if rank <= t.kid(b).mass() {
            lemma_select_holds_weight(t.kid(b), rank);
            assert(t.select_from(rank, b).drop_first() =~= t.kid(b).select(rank));
        } else {
            lemma_select_from_holds_weight(t, (rank - t.kid(b).mass()) as nat, b + 1);
        }
    }
}

/// An inserted weight is held at its own key and at no other.
pub proof fn lemma_insert_weight_at(t: Trie, key: Seq<u8>, weight: nat, x: Seq<u8>)
    ensures
        t.insert(key, weight).weight_at(x) == t.weight_at(x) + if x == key {
            weight
        } else {
            0
        },
    decreases key.len(),
{
    if key.len() > 0 && x.len() > 0 && x[0] == key[0] {
        let below = if t.children.contains_key(key[0]) {
            t.children[key[0]]
        } else {
            Trie::empty()
        };
        lemma_insert_weight_at(below, key.drop_first(), weight, x.drop_first());
        if x.drop_first() == key.drop_first() {
            assert(x =~= seq![x[0]] + x.drop_first());
            assert(key =~= seq![key[0]] + key.drop_first());
        }
        if !t.children.contains_key(key[0]) {
            lemma_empty_weight_at(x.drop_first());
        }
    } else if key.len() == 0 && x.len() == 0 {
        assert(x =~= key);
    }
}

/// The tree without nodes but the root holds no weight at any key.
pub proof fn lemma_empty_weight_at(x: Seq<u8>)
    ensures
        Trie::empty().weight_at(x) == 0,
{
}

} // verus!
