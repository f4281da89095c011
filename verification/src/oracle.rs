//! An exact digest: it keeps every key that was inserted, and answers the
//! exact quantile. It is what the approximate digest is held against.

use crate::digest::accepted;
use crate::exact::{
    ascending, held, held_first, lemma_held_take, lemma_put_ascending, lemma_put_held,
    lemma_put_split, pick, pick_at, put,
};
use crate::order::{key_le, lemma_lex_le_antisym, lex_le};
use vstd::prelude::*;

verus! {

/// The entries that a list of keys and weights stands for.
pub open spec fn entries_of(data: Seq<(Vec<u8>, u64)>) -> Seq<(Seq<u8>, nat)> {
    data.map_values(|e: (Vec<u8>, u64)| (e.0@, e.1 as nat))
}

/// A copy of the bytes of `key`.
fn copy_of(key: &[u8]) -> (copy: Vec<u8>)
    ensures
        copy@ == key@,
{
    let mut copy: Vec<u8> = Vec::new();
    let mut i: usize = 0;
    while i < key.len()
        invariant
            i <= key@.len(),
            copy@ == key@.take(i as int),
        decreases key@.len() - i,
    {
        copy.push(key[i]);
        i = i + 1;
    }
    copy
}

/// The exact reference: every inserted key with its weight, the keys in
/// lexicographic order.
///
/// Like the digest it never holds more than `u64::MAX` in total, and takes
/// in only the part of a weight that still fits.
#[derive(Debug)]
pub struct Oracle {
    total_weight: u64,
    data: Vec<(Vec<u8>, u64)>,
}

impl View for Oracle {
    type V = Seq<(Seq<u8>, nat)>;

    closed spec fn view(&self) -> Seq<(Seq<u8>, nat)> {
        entries_of(self.data@)
    }
}

impl Oracle {
    #[verifier::type_invariant]
    spec fn sound(self) -> bool {
        ascending(entries_of(self.data@)) && held(entries_of(self.data@)) == self.total_weight
    }

    /// A reference that holds nothing.
    pub fn new() -> (oracle: Oracle)
        ensures
            oracle@ == Seq::<(Seq<u8>, nat)>::empty(),
    {
        let oracle = Oracle { total_weight: 0, data: Vec::new() };
        oracle
    }

    /// Hands out what the reference holds and leaves it empty.
    fn take(&mut self) -> (was: Oracle)
        ensures
            was@ == old(self)@,
            ascending(was@),
            held(was@) == was.total_weight,
            was@ == entries_of(was.data@),
    {
        let mut was = Oracle::new();
        core::mem::swap(self, &mut was);
        proof {
            use_type_invariant(&was);
        }
        was
    }

    /// The weight that the reference holds.
    pub fn total_weight(&self) -> (total: u64)
        ensures
            total == held(self@),
    {
        proof {
            use_type_invariant(self);
        }
        self.total_weight
    }

    /// Adds `weight` at `key`.
    pub fn insert(&mut self, key: &[u8], weight: u64)
        ensures
            final(self)@ == put(old(self)@, key@, accepted(held(old(self)@), weight)),
            ascending(final(self)@),
    {
        let Oracle { total_weight, mut data } = self.take();
        let ghost before = entries_of(data@);
        let room = u64::MAX - total_weight;
        let added = if weight <= room {
            weight
        } else {
            room
        };
        let mut i: usize = data.len();
        while i > 0 && !key_le(data[i - 1].0.as_slice(), key)
            invariant
                i <= data@.len(),
                before == entries_of(data@),
                forall|j: int| i <= j < before.len() ==> !lex_le((#[trigger] before[j]).0, key@),
            decreases i,
        {
            i = i - 1;
        }
        proof {
            lemma_put_split(before, key@, added as nat, i as int);
            lemma_put_ascending(before, key@, added as nat);
            lemma_put_held(before, key@, added as nat);
        }
        if i > 0 && key_le(key, data[i - 1].0.as_slice()) {
            proof {
                lemma_lex_le_antisym(key@, before[i - 1].0);
                lemma_held_take(before, i as int);
            }
            let (same, had) = data.remove(i - 1);
            data.insert(i - 1, (same, had + added));
            assert(entries_of(data@) =~= put(before, key@, added as nat)) by {}
        } else {
            let fresh = copy_of(key);
            data.insert(i, (fresh, added));
            assert(entries_of(data@) =~= put(before, key@, added as nat)) by {}
        }
        *self = Oracle { total_weight: total_weight + added, data };
    }

    /// The exact key at the rank `rank`: the first inserted key up to which
    /// the reference holds a weight of at least `rank`, and the empty key
    /// where there is none.
    pub fn quantile_at(&self, rank: u64) -> (key: Vec<u8>)
        ensures
            key@ == pick(self@, rank as nat),
    {
        let ghost e = self@;
        let mut gas: u64 = rank;
        let mut i: usize = 0;
        while i < self.data.len()
            invariant
                i <= self.data@.len(),
                e == entries_of(self.data@),
                gas + held_first(e, i as int) == rank,
                pick_at(e, rank as nat, 0) == pick_at(e, rank as nat, i as int),
            decreases self.data@.len() - i,
        {
            let weight = self.data[i].1;
            proof {
                assert(e.take(i + 1).drop_last() =~= e.take(i as int));
            }
            if gas <= weight {
                let key = self.data[i].0.clone();
                return key;
            }
            gas = gas - weight;
            i = i + 1;
        }
        Vec::new()
    }
}

impl Default for Oracle {
    fn default() -> (oracle: Oracle)
        ensures
            oracle@ == Seq::<(Seq<u8>, nat)>::empty(),
    {
        Oracle::new()
    }
}

} // verus!
