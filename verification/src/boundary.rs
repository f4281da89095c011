//! Boundary keys: the nodes that hold weight of their own beyond what their
//! children hold.

use crate::order::{lemma_prefix_le, lex_lt, strictly_ascending};
use crate::trie::Trie;
use vstd::prelude::*;

verus! {

/// The keys that a list of byte vectors holds.
pub open spec fn keys_of(v: Seq<Vec<u8>>) -> Seq<Seq<u8>> {
    v.map_values(|k: Vec<u8>| k@)
}

/// Bytes without a child add no boundary key.
pub proof fn lemma_boundaries_below_gap(t: Trie, prefix: Seq<u8>, a: int, b: int)
    requires
        0 <= a <= b <= 256,
        forall|c: int| a <= c < b ==> !t.has(c),
    ensures
        t.boundaries_below(prefix, a) == t.boundaries_below(prefix, b),
    decreases b - a,
{
    if a < b {
        assert(!t.has(b - 1));
        lemma_boundaries_below_gap(t, prefix, a, b - 1);
    }
}

/// Whether the key `e` begins with `prefix`.
pub open spec fn extends(e: Seq<u8>, prefix: Seq<u8>) -> bool {
    prefix.len() <= e.len() && e.subrange(0, prefix.len() as int) == prefix
}

/// Two keys that agree up to a place and differ there are ordered as the
/// bytes at that place.
pub proof fn lemma_lex_lt_at(a: Seq<u8>, b: Seq<u8>, n: int)
    requires
        0 <= n < a.len(),
        n < b.len(),
        a.subrange(0, n) == b.subrange(0, n),
        a[n] < b[n],
    ensures
        lex_lt(a, b),
    decreases n,
{
    if n > 0 {
        assert(b[0] == b.subrange(0, n)[0]);
        assert(a.drop_first().subrange(0, n - 1) =~= a.subrange(0, n).drop_first());
        assert(b.drop_first().subrange(0, n - 1) =~= b.subrange(0, n).drop_first());
        lemma_lex_lt_at(a.drop_first(), b.drop_first(), n - 1);
    }
}

/// A key comes strictly before each key that it is a proper prefix of.
pub proof fn lemma_prefix_lt(prefix: Seq<u8>, e: Seq<u8>)
    requires
        extends(e, prefix),
        prefix.len() < e.len(),
    ensures
        lex_lt(prefix, e),
{
    let rest = e.subrange(prefix.len() as int, e.len() as int);
    assert(e =~= prefix + rest);
    lemma_prefix_le(prefix, rest);
}

/// The boundary keys of a tree come in strictly ascending order, so none
/// comes twice, and each begins with the key of the tree's root.
pub proof fn lemma_boundaries_ascending(t: Trie, prefix: Seq<u8>)
    ensures
        strictly_ascending(t.boundaries(prefix)),
        forall|i: int|
            0 <= i < t.boundaries(prefix).len() ==> extends(
                #[trigger] t.boundaries(prefix)[i],
                prefix,
            ),
    decreases t, 257int,
{
    let all = t.boundaries(prefix);
    lemma_boundaries_below_ascending(t, prefix, 256);
    assert(prefix.subrange(0, prefix.len() as int) =~= prefix);
    if t.is_boundary() {
        assert forall|i: int, j: int| 0 <= i < j < all.len() implies lex_lt(all[i], all[j]) by {
            if i == 0 {
                lemma_prefix_lt(prefix, all[j]);
            }
        }
        assert forall|i: int| 0 <= i < all.len() implies extends(#[trigger] all[i], prefix) by {}
    }
}

/// The same for the subtrees under the bytes smaller than `b`: each of their
/// boundary keys goes on from `prefix` with a byte smaller than `b`.
pub proof fn lemma_boundaries_below_ascending(t: Trie, prefix: Seq<u8>, b: int)
    requires
        0 <= b <= 256,
    ensures
        strictly_ascending(t.boundaries_below(prefix, b)),
        forall|i: int|
            0 <= i < t.boundaries_below(prefix, b).len() ==> {
                let e = #[trigger] t.boundaries_below(prefix, b)[i];
                extends(e, prefix) && prefix.len() < e.len() && e[prefix.len() as int] < b
            },
    decreases t, b,
{
    if b > 0 {
        let c = (b - 1) as u8;
        let n = prefix.len() as int;
        let head = t.boundaries_below(prefix, b - 1);
        let all = t.boundaries_below(prefix, b);
        lemma_boundaries_below_ascending(t, prefix, b - 1);
        if t.children.contains_key(c) {
            let longer = prefix.push(c);
            let tail = t.children[c].boundaries(longer);
            lemma_boundaries_ascending(t.children[c], longer);
            assert forall|j: int| 0 <= j < tail.len() implies extends(tail[j], prefix) && n
                < tail[j].len() && tail[j][n] == c by {
                assert(tail[j].subrange(0, n + 1)[n] == longer[n]);
                assert(tail[j].subrange(0, n) =~= tail[j].subrange(0, n + 1).subrange(0, n));
                assert(longer.subrange(0, n) =~= prefix);
            }
            assert forall|i: int, j: int| 0 <= i < j < all.len() implies lex_lt(all[i], all[j]) by {
                if i < head.len() <= j {
                    lemma_lex_lt_at(all[i], all[j], n);
                }
            }
            assert forall|i: int| 0 <= i < all.len() implies {
                let e = #[trigger] all[i];
                extends(e, prefix) && n < e.len() && e[n] < b
            } by {}
        }
    }
}

/// The boundary keys are the keys of the boundary nodes: a key is listed
/// where a node stands at it that holds more than its children together.
pub proof fn lemma_boundaries_members(t: Trie, prefix: Seq<u8>, x: Seq<u8>)
    ensures
        t.boundaries(prefix).contains(prefix + x) <==> t.has_path(x) && t.at(x).is_boundary(),
    decreases t, 257int,
{
    let all = t.boundaries(prefix);
    let below = t.boundaries_below(prefix, 256);
    let n = prefix.len() as int;
    lemma_boundaries_below_ascending(t, prefix, 256);
    lemma_boundaries_below_members(t, prefix, x, 256);
    if x.len() == 0 {
        assert(prefix + x =~= prefix);
        if t.is_boundary() {
            assert(all[0] == prefix);
        }
        if all.contains(prefix) {
            let i = choose|i: int| 0 <= i < all.len() && all[i] == prefix;
            if !t.is_boundary() || i > 0 {
                assert(n < below[i - if t.is_boundary() { 1int } else { 0int }].len());
            }
        }
    } else {
        assert((prefix + x)[n] == x[0]);
        if below.contains(prefix + x) {
            let i = choose|i: int| 0 <= i < below.len() && below[i] == prefix + x;
            assert(all[i + if t.is_boundary() { 1int } else { 0int }] == prefix + x);
        }
        if all.contains(prefix + x) {
            let i = choose|i: int| 0 <= i < all.len() && all[i] == prefix + x;
            assert(below[i - if t.is_boundary() { 1int } else { 0int }] == prefix + x);
        }
    }
}

/// The same for the subtrees under the bytes smaller than `b`.
pub proof fn lemma_boundaries_below_members(t: Trie, prefix: Seq<u8>, x: Seq<u8>, b: int)
    requires
        0 <= b <= 256,
    ensures
        x.len() > 0 ==> (t.boundaries_below(prefix, b).contains(prefix + x) <==> x[0] < b
            && t.has_path(x) && t.at(x).is_boundary()),
    decreases t, b,
{
    if b > 0 && x.len() > 0 {
        let c = (b - 1) as u8;
        let n = prefix.len() as int;
        let head = t.boundaries_below(prefix, b - 1);
        let all = t.boundaries_below(prefix, b);
        let key = prefix + x;
        lemma_boundaries_below_members(t, prefix, x, b - 1);
        lemma_boundaries_below_ascending(t, prefix, b - 1);
        assert(key[n] == x[0]);
        if t.children.contains_key(c) {
            let longer = prefix.push(c);
            let tail = t.children[c].boundaries(longer);
            lemma_boundaries_ascending(t.children[c], longer);
            lemma_boundaries_members(t.children[c], longer, x.drop_first());
            if x[0] == c {
                assert(longer + x.drop_first() =~= key);
            }
            if head.contains(key) {
                let i = choose|i: int| 0 <= i < head.len() && head[i] == key;
                assert(all[i] == key);
            }
            if tail.contains(key) {
                let i = choose|i: int| 0 <= i < tail.len() && tail[i] == key;
                assert(all[head.len() + i] == key);
                assert(key.subrange(0, n + 1)[n] == longer[n]);
            }
            if all.contains(key) {
                let i = choose|i: int| 0 <= i < all.len() && all[i] == key;
                if i < head.len() {
                    assert(head[i] == key);
                } else {
                    assert(tail[i - head.len()] == key);
                }
            }
        }
    }
}

} // verus!
