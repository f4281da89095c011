//! The exact reference: every inserted key with the weight inserted at it,
//! the keys in lexicographic order.

use crate::order::{
    lemma_lex_le_antisym, lemma_lex_le_refl, lemma_lex_lt_le_trans, lemma_not_lt_is_ge, lex_le,
    lex_lt,
};
use vstd::prelude::*;

verus! {

/// Whether the keys of `e` come in strictly ascending order.
pub open spec fn ascending(e: Seq<(Seq<u8>, nat)>) -> bool {
    forall|i: int, j: int| 0 <= i < j < e.len() ==> lex_lt(e[i].0, e[j].0)
}

/// Whether `e` has an entry for the key `x`.
pub open spec fn has_key(e: Seq<(Seq<u8>, nat)>, x: Seq<u8>) -> bool {
    exists|i: int| 0 <= i < e.len() && (#[trigger] e[i]).0 == x
}

/// The weight that the entries of `e` hold together.
pub open spec fn held(e: Seq<(Seq<u8>, nat)>) -> nat
    decreases e.len(),
{
    if e.len() == 0 {
        0
    } else {
        held(e.drop_last()) + e.last().1
    }
}

/// The weight that `e` holds at the keys that are at most `x`.
pub open spec fn held_up_to(e: Seq<(Seq<u8>, nat)>, x: Seq<u8>) -> nat
    decreases e.len(),
{
    if e.len() == 0 {
        0
    } else {
        held_up_to(e.drop_last(), x) + if lex_le(e.last().0, x) {
            e.last().1
        } else {
            0
        }
    }
}

/// The weight that the first `n` entries of `e` hold together.
pub open spec fn held_first(e: Seq<(Seq<u8>, nat)>, n: int) -> nat {
    held(e.take(n))
}

/// The entries after `weight` has been added at `key`: the entry of `key`
/// gains the weight, and is made in its place where there was none.
pub open spec fn put(e: Seq<(Seq<u8>, nat)>, key: Seq<u8>, weight: nat) -> Seq<(Seq<u8>, nat)>
    decreases e.len(),
{
    if e.len() == 0 {
        seq![(key, weight)]
    } else if e.last().0 == key {
        e.drop_last().push((key, e.last().1 + weight))
    } else if lex_le(e.last().0, key) {
        e.push((key, weight))
    } else {
        put(e.drop_last(), key, weight).push(e.last())
    }
}

/// The place of the first entry, from the place `i` on, up to which `e`
/// holds a weight of at least `rank`; the length of `e` where there is
/// none.
pub open spec fn pick_at(e: Seq<(Seq<u8>, nat)>, rank: nat, i: int) -> int
    decreases e.len() - i,
{
    if i < 0 || i >= e.len() {
        e.len() as int
    } else if rank <= held_first(e, i + 1) {
        i
    } else {
        pick_at(e, rank, i + 1)
    }
}

/// The exact answer for `rank`: the first key up to which `e` holds a weight
/// of at least `rank`, and the empty key where there is none.
pub open spec fn pick(e: Seq<(Seq<u8>, nat)>, rank: nat) -> Seq<u8> {
    let i = pick_at(e, rank, 0);
    if 0 <= i < e.len() {
        e[i].0
    } else {
        Seq::empty()
    }
}

/// One more entry adds its weight to what the entries hold.
pub proof fn lemma_held_push(e: Seq<(Seq<u8>, nat)>, last: (Seq<u8>, nat), x: Seq<u8>)
    ensures
        held(e.push(last)) == held(e) + last.1,
        held_up_to(e.push(last), x) == held_up_to(e, x) + if lex_le(last.0, x) {
            last.1
        } else {
            0
        },
{
    assert(e.push(last).drop_last() =~= e);
    assert(e.push(last).last() == last);
}

/// Adding a weight adds it to what the entries hold.
pub proof fn lemma_put_held(e: Seq<(Seq<u8>, nat)>, key: Seq<u8>, weight: nat)
    ensures
        held(put(e, key, weight)) == held(e) + weight,
    decreases e.len(),
{
    let none = Seq::<u8>::empty();
    if e.len() == 0 {
        assert(seq![(key, weight)] =~= e.push((key, weight)));
        lemma_held_push(e, (key, weight), none);
    } else if e.last().0 == key {
        lemma_held_push(e.drop_last(), (key, e.last().1 + weight), none);
    } else if lex_le(e.last().0, key) {
        lemma_held_push(e, (key, weight), none);
    } else {
        lemma_put_held(e.drop_last(), key, weight);
        lemma_held_push(put(e.drop_last(), key, weight), e.last(), none);
    }
}

/// An added weight counts up to every key from its own key on, and up to no
/// earlier key.
pub proof fn lemma_put_held_up_to(e: Seq<(Seq<u8>, nat)>, key: Seq<u8>, weight: nat, x: Seq<u8>)
    ensures
        held_up_to(put(e, key, weight), x) == held_up_to(e, x) + if lex_le(key, x) {
            weight
        } else {
            0
        },
    decreases e.len(),
{
    if e.len() == 0 {
        assert(seq![(key, weight)] =~= e.push((key, weight)));
        lemma_held_push(e, (key, weight), x);
    } else if e.last().0 == key {
        lemma_held_push(e.drop_last(), (key, e.last().1 + weight), x);
    } else if lex_le(e.last().0, key) {
        lemma_held_push(e, (key, weight), x);
    } else {
        lemma_put_held_up_to(e.drop_last(), key, weight, x);
        lemma_held_push(put(e.drop_last(), key, weight), e.last(), x);
    }
}

/// Adding a weight at a key makes an entry for that key and for no other,
/// and keeps the entries that were there.
pub proof fn lemma_put_keys(e: Seq<(Seq<u8>, nat)>, key: Seq<u8>, weight: nat)
    ensures
        has_key(put(e, key, weight), key),
        forall|i: int|
            0 <= i < e.len() ==> has_key(put(e, key, weight), (#[trigger] e[i]).0),
        forall|i: int|
            0 <= i < put(e, key, weight).len() ==> (#[trigger] put(e, key, weight)[i]).0 == key
                || has_key(e, put(e, key, weight)[i].0),
    decreases e.len(),
{
    let after = put(e, key, weight);
    if e.len() == 0 {
        assert(after[0].0 == key);
    } else if e.last().0 == key {
        assert(after[after.len() - 1].0 == key);
        assert forall|i: int| 0 <= i < e.len() implies has_key(after, (#[trigger] e[i]).0) by {
            assert(after[i].0 == e[i].0);
        }
        assert forall|i: int| 0 <= i < after.len() implies (#[trigger] after[i]).0 == key
            || has_key(e, after[i].0) by {
            assert(e[i].0 == after[i].0);
        }
    } else if lex_le(e.last().0, key) {
        assert(after[after.len() - 1].0 == key);
        assert forall|i: int| 0 <= i < e.len() implies has_key(after, (#[trigger] e[i]).0) by {
            assert(after[i].0 == e[i].0);
        }
        assert forall|i: int| 0 <= i < after.len() implies (#[trigger] after[i]).0 == key
            || has_key(e, after[i].0) by {
            if i < e.len() {
                assert(e[i].0 == after[i].0);
            }
        }
    } else {
        let rest = e.drop_last();
        let head = put(rest, key, weight);
        lemma_put_keys(rest, key, weight);
        assert(after == head.push(e.last()));
        assert(has_key(after, key)) by {
            let i = choose|i: int| 0 <= i < head.len() && (#[trigger] head[i]).0 == key;
            assert(after[i].0 == key);
        }
        assert forall|i: int| 0 <= i < e.len() implies has_key(after, (#[trigger] e[i]).0) by {
            if i < rest.len() {
                assert(rest[i] == e[i]);
                assert(has_key(head, rest[i].0));
                let j = choose|j: int| 0 <= j < head.len() && (#[trigger] head[j]).0 == e[i].0;
                assert(after[j].0 == e[i].0);
            } else {
                assert(after[after.len() - 1].0 == e[i].0);
            }
        }
        assert forall|i: int| 0 <= i < after.len() implies (#[trigger] after[i]).0 == key
            || has_key(e, after[i].0) by {
            if i < head.len() {
                assert(after[i] == head[i]);
                if head[i].0 != key {
                    assert(has_key(rest, head[i].0));
                    let j = choose|j: int|
                        0 <= j < rest.len() && (#[trigger] rest[j]).0 == head[i].0;
                    assert(e[j].0 == head[i].0);
                }
            } else {
                assert(e[e.len() - 1].0 == after[i].0);
            }
        }
    }
}

/// Where the entries after the place `i` have keys after `key`, adding a
/// weight at `key` leaves them as they are.
pub proof fn lemma_put_split(e: Seq<(Seq<u8>, nat)>, key: Seq<u8>, weight: nat, i: int)
    requires
        0 <= i <= e.len(),
        forall|j: int| i <= j < e.len() ==> !lex_le((#[trigger] e[j]).0, key),
    ensures
        put(e, key, weight) == put(e.take(i), key, weight) + e.skip(i),
    decreases e.len() - i,
{
    if i == e.len() {
        assert(e.take(i) =~= e);
    } else {
        let rest = e.drop_last();
        lemma_lex_le_refl(key);
        assert forall|j: int| i <= j < rest.len() implies !lex_le((#[trigger] rest[j]).0, key) by {}
        lemma_put_split(rest, key, weight, i);
        assert(rest.take(i) =~= e.take(i));
    }
}

/// Entries in ascending order without the last of them are in ascending
/// order, and their keys come before the last key.
pub proof fn lemma_ascending_drop_last(e: Seq<(Seq<u8>, nat)>)
    requires
        ascending(e),
        e.len() > 0,
    ensures
        ascending(e.drop_last()),
        forall|i: int|
            0 <= i < e.drop_last().len() ==> lex_lt((#[trigger] e.drop_last()[i]).0, e.last().0),
{
    let rest = e.drop_last();
    assert forall|i: int, j: int| 0 <= i < j < rest.len() implies lex_lt(rest[i].0, rest[j].0) by {
        assert(lex_lt(e[i].0, e[j].0));
    }
    assert forall|i: int| 0 <= i < rest.len() implies lex_lt(
        (#[trigger] rest[i]).0,
        e.last().0,
    ) by {
        assert(lex_lt(e[i].0, e[e.len() - 1].0));
    }
}

/// Adding a weight keeps the keys in ascending order.
pub proof fn lemma_put_ascending(e: Seq<(Seq<u8>, nat)>, key: Seq<u8>, weight: nat)
    requires
        ascending(e),
    ensures
        ascending(put(e, key, weight)),
    decreases e.len(),
{
    let after = put(e, key, weight);
    if e.len() == 0 {
    } else if e.last().0 == key {
        assert forall|i: int, j: int| 0 <= i < j < after.len() implies lex_lt(
            after[i].0,
            after[j].0,
        ) by {
            assert(after[i].0 == e[i].0 && after[j].0 == e[j].0);
            assert(lex_lt(e[i].0, e[j].0));
        }
    } else if lex_le(e.last().0, key) {
        lemma_ascending_drop_last(e);
        assert forall|i: int, j: int| 0 <= i < j < after.len() implies lex_lt(
            after[i].0,
            after[j].0,
        ) by {
            if j == e.len() {
                if i < e.len() - 1 {
                    assert(e.drop_last()[i] == e[i]);
                    lemma_lex_lt_le_trans(e[i].0, e.last().0, key);
                }
            } else {
                assert(after[i].0 == e[i].0 && after[j].0 == e[j].0);
                assert(lex_lt(e[i].0, e[j].0));
            }
        }
    } else {
        let rest = e.drop_last();
        let head = put(rest, key, weight);
        lemma_ascending_drop_last(e);
        lemma_put_ascending(rest, key, weight);
        lemma_put_keys(rest, key, weight);
        lemma_not_lt_is_ge(e.last().0, key);
        assert(after == head.push(e.last()));
        assert forall|i: int, j: int| 0 <= i < j < after.len() implies lex_lt(
            after[i].0,
            after[j].0,
        ) by {
            if j < head.len() {
                assert(after[i] == head[i] && after[j] == head[j]);
                assert(lex_lt(head[i].0, head[j].0));
            } else {
                assert(after[i] == head[i]);
                if head[i].0 != key {
                    assert(has_key(rest, head[i].0));
                    let m = choose|m: int|
                        0 <= m < rest.len() && (#[trigger] rest[m]).0 == head[i].0;
                    assert(lex_lt(rest[m].0, e.last().0));
                }
            }
        }
    }
}

/// Up to the key of an entry, entries in ascending order hold what the
/// entries up to that one hold.
pub proof fn lemma_held_up_to_entry(e: Seq<(Seq<u8>, nat)>, i: int)
    requires
        ascending(e),
        0 <= i < e.len(),
    ensures
        held_up_to(e, e[i].0) == held_first(e, i + 1),
    decreases e.len(),
{
    let x = e[i].0;
    let rest = e.drop_last();
    lemma_ascending_drop_last(e);
    if i == e.len() - 1 {
        lemma_lex_le_refl(x);
        lemma_held_up_to_all(rest, x);
        assert(e.take(i + 1) =~= e);
    } else {
        lemma_held_up_to_entry(rest, i);
        assert(e.take(i + 1) =~= rest.take(i + 1));
        if lex_le(e.last().0, x) {
            lemma_lex_le_antisym(x, e.last().0);
        }
    }
}

/// Up to a key that comes after all of their keys, entries hold all of
/// their weight.
pub proof fn lemma_held_up_to_all(e: Seq<(Seq<u8>, nat)>, x: Seq<u8>)
    requires
        forall|i: int| 0 <= i < e.len() ==> lex_le((#[trigger] e[i]).0, x),
    ensures
        held_up_to(e, x) == held(e),
    decreases e.len(),
{
    if e.len() > 0 {
        assert forall|i: int| 0 <= i < e.drop_last().len() implies lex_le(
            (#[trigger] e.drop_last()[i]).0,
            x,
        ) by {}
        lemma_held_up_to_all(e.drop_last(), x);
    }
}

/// The entries up to a place hold no more than all of them.
pub proof fn lemma_held_take(e: Seq<(Seq<u8>, nat)>, n: int)
    requires
        0 <= n <= e.len(),
    ensures
        held_first(e, n) <= held(e),
    decreases e.len(),
{
    if n < e.len() {
        lemma_held_take(e.drop_last(), n);
        assert(e.take(n) =~= e.drop_last().take(n));
    } else {
        assert(e.take(n) =~= e);
    }
}

/// The place that a rank picks is the first one up to which the entries
/// hold at least that weight.
pub proof fn lemma_pick_at(e: Seq<(Seq<u8>, nat)>, rank: nat, i: int)
    requires
        0 <= i <= e.len(),
    ensures
        i <= pick_at(e, rank, i) <= e.len(),
        pick_at(e, rank, i) < e.len() ==> rank <= held_first(e, pick_at(e, rank, i) + 1),
        forall|n: int| i < n <= pick_at(e, rank, i) ==> #[trigger] held_first(e, n) < rank,
    decreases e.len() - i,
{
    if i < e.len() && rank > held_first(e, i + 1) {
        lemma_pick_at(e, rank, i + 1);
    }
}

/// The exact answer is an inserted key up to which the entries hold at
/// least the rank, and up to no earlier inserted key they do.
pub proof fn lemma_pick_is_exact(e: Seq<(Seq<u8>, nat)>, rank: nat)
    requires
        ascending(e),
        0 < e.len(),
        rank <= held(e),
    ensures
        has_key(e, pick(e, rank)),
        rank <= held_up_to(e, pick(e, rank)),
        forall|j: int|
            0 <= j < e.len() && lex_lt((#[trigger] e[j]).0, pick(e, rank)) ==> held_up_to(
                e,
                e[j].0,
            ) < rank,
{
    let i = pick_at(e, rank, 0);
    lemma_pick_at(e, rank, 0);
    if i == e.len() {
        assert(e.take(e.len() as int) =~= e);
        assert(held_first(e, e.len() as int) < rank);
    }
    lemma_held_up_to_entry(e, i);
    assert forall|j: int|
        0 <= j < e.len() && lex_lt((#[trigger] e[j]).0, pick(e, rank)) implies held_up_to(
        e,
        e[j].0,
    ) < rank by {
        if j > i {
            assert(lex_lt(e[i].0, e[j].0));
            lemma_lex_le_antisym(e[i].0, e[j].0);
        }
        lemma_held_up_to_entry(e, j);
    }
}

} // verus!
