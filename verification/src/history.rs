//! What a digest holds after a sequence of insertions, held against the
//! exact answer over the same insertions.

use crate::digest::{accepted, rank_of};
use crate::exact::{
    ascending, has_key, held, held_up_to, lemma_pick_is_exact, lemma_put_ascending,
    lemma_put_held, lemma_put_held_up_to, lemma_put_keys, pick, put,
};
use crate::mass::{lemma_compress_mass, lemma_insert_mass, lemma_leaf_mass};
use crate::order::{lemma_lex_le_antisym, lemma_not_lt_is_ge, lex_le, lex_lt};
use crate::rank::{
    lemma_compress_weight_le, lemma_empty_weight_at, lemma_empty_weight_le,
    lemma_insert_weight_at, lemma_insert_weight_le, lemma_select_holds_weight,
    lemma_select_is_least,
};
use crate::trie::Trie;
use vstd::prelude::*;

verus! {

/// The weights of a sequence of insertions, added up.
pub open spec fn sum_of(ops: Seq<(Seq<u8>, u64)>) -> nat
    decreases ops.len(),
{
    if ops.len() == 0 {
        0
    } else {
        sum_of(ops.drop_last()) + ops.last().1 as nat
    }
}

/// What a digest holds after the insertions `ops`, made in this order into a
/// digest that held nothing.
pub open spec fn built(ops: Seq<(Seq<u8>, u64)>) -> Trie
    decreases ops.len(),
{
    if ops.len() == 0 {
        Trie::empty()
    } else {
        let before = built(ops.drop_last());
        before.insert(ops.last().0, accepted(before.mass(), ops.last().1))
    }
}

/// The weight that the insertions put at the keys that are at most `x`.
pub open spec fn weight_up_to(ops: Seq<(Seq<u8>, u64)>, x: Seq<u8>) -> nat
    decreases ops.len(),
{
    if ops.len() == 0 {
        0
    } else {
        weight_up_to(ops.drop_last(), x) + if lex_le(ops.last().0, x) {
            ops.last().1 as nat
        } else {
            0
        }
    }
}

/// Whether `x` is the exact answer for `rank`: the first of the inserted
/// keys up to which the insertions put a weight of at least `rank`, and the
/// empty key where nothing was inserted.
pub open spec fn exact_quantile_is(ops: Seq<(Seq<u8>, u64)>, rank: nat, x: Seq<u8>) -> bool {
    if ops.len() == 0 {
        x.len() == 0
    } else {
        &&& exists|i: int| 0 <= i < ops.len() && (#[trigger] ops[i]).0 == x
        &&& rank <= weight_up_to(ops, x)
        &&& forall|i: int|
            0 <= i < ops.len() && lex_lt((#[trigger] ops[i]).0, x) ==> weight_up_to(ops, ops[i].0)
                < rank
    }
}

/// A digest holds the sum of the inserted weights, and `u64::MAX` where the
/// sum is larger.
pub proof fn lemma_built_mass(ops: Seq<(Seq<u8>, u64)>)
    ensures
        built(ops).mass() == if sum_of(ops) <= u64::MAX {
            sum_of(ops)
        } else {
            u64::MAX as nat
        },
    decreases ops.len(),
{
    if ops.len() == 0 {
        lemma_leaf_mass(Trie::empty());
    } else {
        let before = built(ops.drop_last());
        lemma_built_mass(ops.drop_last());
        lemma_insert_mass(before, ops.last().0, accepted(before.mass(), ops.last().1));
    }
}

/// Weight conservation: after any insertions and a compression to any
/// number of buckets, the nodes of the digest hold together what was
/// inserted, as long as that fits the counter.
pub proof fn lemma_weight_conservation(ops: Seq<(Seq<u8>, u64)>, k: u64)
    requires
        k > 0,
    ensures
        built(ops).compress(built(ops).mass() / k as nat).mass() == built(ops).mass(),
        sum_of(ops) <= u64::MAX ==> built(ops).compress(built(ops).mass() / k as nat).mass()
            == sum_of(ops),
{
    lemma_built_mass(ops);
    lemma_compress_mass(built(ops), built(ops).mass() / k as nat);
}

/// Up to every key a digest holds what the insertions put there, as long as
/// their sum fits the counter.
pub proof fn lemma_built_weight_le(ops: Seq<(Seq<u8>, u64)>, x: Seq<u8>)
    requires
        sum_of(ops) <= u64::MAX,
    ensures
        built(ops).weight_le(x) == weight_up_to(ops, x),
    decreases ops.len(),
{
    if ops.len() == 0 {
        lemma_empty_weight_le(x);
    } else {
        let before = built(ops.drop_last());
        lemma_built_mass(ops.drop_last());
        lemma_built_weight_le(ops.drop_last(), x);
        lemma_insert_weight_le(before, ops.last().0, ops.last().1 as nat, x);
    }
}

/// A fraction of a weight is at most the weight.
pub proof fn lemma_rank_of_bounded(total: nat, numer: nat, denom: nat)
    requires
        0 < denom,
        numer <= denom,
    ensures
        rank_of(total, numer, denom) <= total,
{
    assert(total * numer <= total * denom) by (nonlinear_arith)
        requires
            numer <= denom,
    ;
    assert((total * numer) / denom <= total) by (nonlinear_arith)
        requires
            total * numer <= total * denom,
            0 < denom,
    ;
}

/// The lower bound: whatever was inserted and however far the digest was
/// compressed, the key that it answers for a rank is at most every key up to
/// which the insertions put at least that weight.
pub proof fn lemma_select_lower_bound(
    ops: Seq<(Seq<u8>, u64)>,
    threshold: nat,
    rank: nat,
    x: Seq<u8>,
)
    requires
        sum_of(ops) <= u64::MAX,
        rank <= sum_of(ops),
        rank <= weight_up_to(ops, x),
    ensures
        lex_le(built(ops).compress(threshold).select(rank), x),
{
    let t = built(ops);
    let after = t.compress(threshold);
    lemma_built_mass(ops);
    lemma_built_weight_le(ops, x);
    lemma_compress_mass(t, threshold);
    lemma_compress_weight_le(t, threshold, x);
    lemma_select_is_least(after, rank);
    lemma_not_lt_is_ge(x, after.select(rank));
}

/// The lower bound for quantiles: for every fraction within 0 and 1 and
/// every number of buckets, the quantile of the compressed digest is at most
/// the exact quantile of what was inserted.
pub proof fn lemma_quantile_lower_bound(
    ops: Seq<(Seq<u8>, u64)>,
    k: u64,
    numer: u64,
    denom: u64,
    x: Seq<u8>,
)
    requires
        sum_of(ops) <= u64::MAX,
        k > 0,
        0 < denom,
        numer <= denom,
        exact_quantile_is(ops, rank_of(sum_of(ops), numer as nat, denom as nat), x),
    ensures
        lex_le(
            built(ops).compress(sum_of(ops) / k as nat).select(
                rank_of(sum_of(ops), numer as nat, denom as nat),
            ),
            x,
        ),
{
    let rank = rank_of(sum_of(ops), numer as nat, denom as nat);
    lemma_rank_of_bounded(sum_of(ops), numer as nat, denom as nat);
    if ops.len() > 0 {
        lemma_select_lower_bound(ops, sum_of(ops) / k as nat, rank, x);
    }
}

/// What the exact reference holds after the insertions `ops`, made in this
/// order into a reference that held nothing.
pub open spec fn recorded(ops: Seq<(Seq<u8>, u64)>) -> Seq<(Seq<u8>, nat)>
    decreases ops.len(),
{
    if ops.len() == 0 {
        Seq::empty()
    } else {
        let before = recorded(ops.drop_last());
        put(before, ops.last().0, accepted(held(before), ops.last().1))
    }
}

/// After the same insertions the digest and the exact reference hold the
/// same weight, in total and up to every key, and the reference has its
/// keys in ascending order.
pub proof fn lemma_built_matches_recorded(ops: Seq<(Seq<u8>, u64)>, x: Seq<u8>)
    ensures
        ascending(recorded(ops)),
        built(ops).mass() == held(recorded(ops)),
        built(ops).weight_le(x) == held_up_to(recorded(ops), x),
        ops.len() > 0 ==> recorded(ops).len() > 0,
    decreases ops.len(),
{
    if ops.len() == 0 {
        lemma_leaf_mass(Trie::empty());
        lemma_empty_weight_le(x);
    } else {
        let before = recorded(ops.drop_last());
        let key = ops.last().0;
        let added = accepted(held(before), ops.last().1);
        lemma_built_matches_recorded(ops.drop_last(), x);
        lemma_insert_mass(built(ops.drop_last()), key, added);
        lemma_insert_weight_le(built(ops.drop_last()), key, added, x);
        lemma_put_ascending(before, key, added);
        lemma_put_held(before, key, added);
        lemma_put_held_up_to(before, key, added, x);
    }
}

/// The exact reference has an entry for each inserted key and for no other.
pub proof fn lemma_recorded_keys(ops: Seq<(Seq<u8>, u64)>)
    ensures
        forall|i: int| 0 <= i < ops.len() ==> has_key(recorded(ops), (#[trigger] ops[i]).0),
        forall|j: int|
            0 <= j < recorded(ops).len() ==> exists|i: int|
                0 <= i < ops.len() && (#[trigger] ops[i]).0 == (#[trigger] recorded(ops)[j]).0,
    decreases ops.len(),
{
    if ops.len() > 0 {
        let rest = ops.drop_last();
        let before = recorded(rest);
        let after = recorded(ops);
        let key = ops.last().0;
        let added = accepted(held(before), ops.last().1);
        lemma_recorded_keys(rest);
        lemma_put_keys(before, key, added);
        assert forall|i: int| 0 <= i < ops.len() implies has_key(after, (#[trigger] ops[i]).0) by {
            if i < rest.len() {
                assert(has_key(before, rest[i].0));
                let m = choose|m: int|
                    0 <= m < before.len() && (#[trigger] before[m]).0 == ops[i].0;
                assert(has_key(after, before[m].0));
            }
        }
        assert forall|j: int| 0 <= j < after.len() implies exists|i: int|
            0 <= i < ops.len() && (#[trigger] ops[i]).0 == (#[trigger] after[j]).0 by {
            if after[j].0 == key {
                assert(ops[ops.len() - 1].0 == after[j].0);
            } else {
                let m = choose|m: int|
                    0 <= m < before.len() && (#[trigger] before[m]).0 == after[j].0;
                let i = choose|i: int| 0 <= i < rest.len() && (#[trigger] rest[i]).0 == before[m].0;
                assert(ops[i].0 == after[j].0);
            }
        }
    }
}

/// Up to every key the exact reference holds what the insertions put there,
/// as long as their sum fits the counter.
pub proof fn lemma_recorded_weight(ops: Seq<(Seq<u8>, u64)>, x: Seq<u8>)
    requires
        sum_of(ops) <= u64::MAX,
    ensures
        held(recorded(ops)) == sum_of(ops),
        held_up_to(recorded(ops), x) == weight_up_to(ops, x),
{
    lemma_built_matches_recorded(ops, x);
    lemma_built_mass(ops);
    lemma_built_weight_le(ops, x);
}

/// The answer of the exact reference is the exact quantile of what was
/// inserted.
pub proof fn lemma_pick_recorded_is_exact(ops: Seq<(Seq<u8>, u64)>, rank: nat)
    requires
        sum_of(ops) <= u64::MAX,
        rank <= sum_of(ops),
    ensures
        exact_quantile_is(ops, rank, pick(recorded(ops), rank)),
{
    let e = recorded(ops);
    let x = pick(e, rank);
    if ops.len() > 0 {
        lemma_recorded_weight(ops, x);
        lemma_built_matches_recorded(ops, x);
        lemma_pick_is_exact(e, rank);
        lemma_recorded_keys(ops);
        assert forall|i: int|
            0 <= i < ops.len() && lex_lt((#[trigger] ops[i]).0, x) implies weight_up_to(
            ops,
            ops[i].0,
        ) < rank by {
            lemma_recorded_weight(ops, ops[i].0);
        }
    }
}

/// The lower bound against the exact reference: after the same insertions,
/// however far the digest is compressed, the key that it answers for a rank
/// is at most the key that the reference answers.
pub proof fn lemma_digest_below_oracle(ops: Seq<(Seq<u8>, u64)>, threshold: nat, rank: nat)
    requires
        rank <= built(ops).mass(),
    ensures
        lex_le(built(ops).compress(threshold).select(rank), pick(recorded(ops), rank)),
{
    let t = built(ops);
    let after = t.compress(threshold);
    let e = recorded(ops);
    let x = pick(e, rank);
    lemma_built_matches_recorded(ops, x);
    lemma_compress_mass(t, threshold);
    if ops.len() > 0 {
        lemma_pick_is_exact(e, rank);
        lemma_compress_weight_le(t, threshold, x);
        lemma_select_is_least(after, rank);
        lemma_not_lt_is_ge(x, after.select(rank));
    }
}

/// A digest holds weight only at inserted keys.
pub proof fn lemma_built_weight_at(ops: Seq<(Seq<u8>, u64)>, x: Seq<u8>)
    requires
        built(ops).weight_at(x) > 0,
    ensures
        exists|i: int| 0 <= i < ops.len() && (#[trigger] ops[i]).0 == x,
    decreases ops.len(),
{
    if ops.len() == 0 {
        lemma_empty_weight_at(x);
    } else {
        let rest = ops.drop_last();
        let before = built(rest);
        lemma_insert_weight_at(before, ops.last().0, accepted(before.mass(), ops.last().1), x);
        if ops.last().0 == x {
            assert(ops[ops.len() - 1].0 == x);
        } else {
            lemma_built_weight_at(rest, x);
            let i = choose|i: int| 0 <= i < rest.len() && (#[trigger] rest[i]).0 == x;
            assert(ops[i].0 == x);
        }
    }
}

/// Before any compression the digest is exact: for every rank above 0 it
/// answers the key that the exact reference answers.
pub proof fn lemma_uncompressed_is_exact(ops: Seq<(Seq<u8>, u64)>, rank: nat)
    requires
        0 < rank <= built(ops).mass(),
    ensures
        built(ops).select(rank) == pick(recorded(ops), rank),
{
    let t = built(ops);
    let e = recorded(ops);
    let q = t.select(rank);
    let x = pick(e, rank);
    lemma_built_matches_recorded(ops, x);
    lemma_built_matches_recorded(ops, q);
    if ops.len() == 0 {
        lemma_leaf_mass(Trie::empty());
    }
    lemma_pick_is_exact(e, rank);
    lemma_select_is_least(t, rank);
    lemma_not_lt_is_ge(x, q);
    lemma_select_holds_weight(t, rank);
    lemma_built_weight_at(ops, q);
    lemma_recorded_keys(ops);
    let i = choose|i: int| 0 <= i < ops.len() && (#[trigger] ops[i]).0 == q;
    assert(has_key(e, ops[i].0));
    let j = choose|j: int| 0 <= j < e.len() && (#[trigger] e[j]).0 == q;
    assert(!lex_lt(e[j].0, x));
    lemma_not_lt_is_ge(q, x);
    lemma_lex_le_antisym(q, x);
}

} // verus!
