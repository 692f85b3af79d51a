//! The reconciliation driver state: a geometric ladder of sketches over
//! item surrogates, plus the dictionary that translates surrogates back to
//! items.
//!
//! Every item is hashed to a 64-bit surrogate and folded into all twenty
//! ladder sketches, whose capacities grow as powers of two.  To reconcile,
//! two parties exchange ladder levels from a small floor upward: each level
//! is merged with the peer's and peel-decoded, and the first level large
//! enough for the symmetric difference yields the surrogates each side is
//! missing.  The dictionary then splits those into items to send and items
//! to request.

use crate::blt::BLT;
use crate::blt::all_zero;
use crate::blt::x_apply;
use crate::blt::x_apply_all;
use crate::hashing::digest;
use crate::hashing::keyed_digest;
use std::collections::HashMap;
use vstd::prelude::*;

verus! {

broadcast use vstd::std_specs::hash::group_hash_axioms, vstd::set::group_set_axioms;

/// Seed of the item-to-surrogate hash; distinct from every ladder seed.
pub const ITEM_SEED: u64 = u64::MAX;

/// Number of ladder levels; level `i` holds roughly `2^i` cells.
pub const LADDER_LEVELS: usize = 20;

/// The surrogate of each item, in order.
pub open spec fn surrogates(items: Seq<u64>) -> Seq<u64> {
    items.map_values(|it: u64| digest(ITEM_SEED, it))
}

/// The dictionary after each item in turn is recorded under its surrogate.
pub open spec fn insert_all(m: Map<u64, u64>, items: Seq<u64>) -> Map<u64, u64>
    decreases items.len(),
{
    if items.len() == 0 {
        m
    } else {
        insert_all(m, items.drop_last()).insert(
            digest(ITEM_SEED, items.last()),
            items.last(),
        )
    }
}

/// The items that the dictionary holds for the given surrogates, in order.
pub open spec fn knowns(m: Map<u64, u64>, s: Seq<u64>) -> Seq<u64>
    decreases s.len(),
{
    if s.len() == 0 {
        Seq::empty()
    } else {
        let rest = knowns(m, s.drop_last());
        if m.contains_key(s.last()) {
            rest.push(m[s.last()])
        } else {
            rest
        }
    }
}

/// The given surrogates that the dictionary does not know, in order.
pub open spec fn unknowns(m: Map<u64, u64>, s: Seq<u64>) -> Seq<u64>
    decreases s.len(),
{
    if s.len() == 0 {
        Seq::empty()
    } else {
        let rest = unknowns(m, s.drop_last());
        if m.contains_key(s.last()) {
            rest
        } else {
            rest.push(s.last())
        }
    }
}

/// One party's reconciliation state: the ladder and the dictionary.
pub struct BltGraph {
    /// Ladder of sketches; level `i` was built with capacity `2^i` and seed
    /// `i`.
    pub blts: Vec<BLT>,
    /// Maps an item's surrogate back to the item.
    pub h2e: HashMap<u64, u64>,
}

impl BltGraph {
    /// Structural soundness: twenty well-formed ladder levels, each pinned
    /// to its own seed.
    pub open spec fn wf(&self) -> bool {
        &&& self.blts@.len() == LADDER_LEVELS
        &&& forall|i: int|
            0 <= i < LADDER_LEVELS ==> (#[trigger] self.blts@[i]).wf()
                && self.blts@[i].spec_seed() == i as u64
    }

    /// Builds an empty driver: an all-zero ladder and an empty dictionary.
    /// Level `i` gets the smallest table of shape `2^k + 2` holding at
    /// least `2^i` cells; both parties build the same ladder, so levels
    /// merge.
    pub fn new() -> (s: Self)
        ensures
            s.wf(),
            s.h2e@ == Map::<u64, u64>::empty(),
            forall|i: int|
                0 <= i < LADDER_LEVELS ==> all_zero((#[trigger] s.blts@[i])@)
                    && s.blts@[i].spec_capacity() as int >= (1u64 << (i as u64)) && (
                s.blts@[i].spec_k() == 0 || crate::positions::table_size(
                    (s.blts@[i].spec_k() - 1) as u64,
                ) < (1u64 << (i as u64))),
    {
        let mut blts: Vec<BLT> = Vec::new();
        for i in 0..LADDER_LEVELS
            invariant
                blts@.len() == i,
                forall|t: int|
                    0 <= t < i ==> (#[trigger] blts@[t]).wf() && blts@[t].spec_seed() == t as u64
                        && all_zero(blts@[t]@) && blts@[t].spec_capacity() as int >= (1u64 << (t
                        as u64)) && (blts@[t].spec_k() == 0 || crate::positions::table_size(
                        (blts@[t].spec_k() - 1) as u64,
                    ) < (1u64 << (t as u64))),
        {
            proof {
                assert((1u64 << (i as u64)) <= 0x80000u64) by (bit_vector)
                    requires
                        i < 20usize,
                ;
            }
            let cap64: u64 = 1u64 << (i as u64);
            let cap: usize = cap64 as usize;
            blts.push(BLT::new(cap, i as u64));
        }
        Self { blts, h2e: HashMap::new() }
    }

    /// The surrogate of an item.
    pub fn hash_of_item(&self, item: u64) -> (r: u64)
        ensures
            r == digest(ITEM_SEED, item),
    {
        keyed_digest(u64::MAX, item)
    }

    /// Records an item in the dictionary and folds its surrogate into every
    /// ladder level.
    pub fn add_item(&mut self, item: u64)
        requires
            old(self).wf(),
        ensures
            final(self).wf(),
            final(self).h2e@ == old(self).h2e@.insert(digest(ITEM_SEED, item), item),
            forall|i: int|
                0 <= i < LADDER_LEVELS ==> (#[trigger] final(self).blts@[i])@ == x_apply(
                    old(self).blts@[i]@,
                    old(self).blts@[i].spec_k(),
                    old(self).blts@[i].spec_seed(),
                    digest(ITEM_SEED, item),
                ) && final(self).blts@[i].spec_k() == old(self).blts@[i].spec_k(),
    {
        let h = keyed_digest(u64::MAX, item);
        self.h2e.insert(h, item);
        let ghost blts0 = self.blts@;
        for i in 0..LADDER_LEVELS
            invariant
                self.wf(),
                blts0.len() == LADDER_LEVELS,
                self.blts@.len() == LADDER_LEVELS,
                h == digest(ITEM_SEED, item),
                self.h2e@ == old(self).h2e@.insert(digest(ITEM_SEED, item), item),
                blts0 == old(self).blts@,
                forall|t: int|
                    0 <= t < i ==> (#[trigger] self.blts@[t])@ == x_apply(
                        blts0[t]@,
                        blts0[t].spec_k(),
                        blts0[t].spec_seed(),
                        h,
                    ) && self.blts@[t].spec_k() == blts0[t].spec_k(),
                forall|t: int| i <= t < LADDER_LEVELS ==> self.blts@[t] == blts0[t],
        {
            self.blts[i].add(h);
        }
    }

    /// Records each item of the list in turn.
    pub fn add_edges(&mut self, items: &Vec<u64>)
        requires
            old(self).wf(),
        ensures
            final(self).wf(),
            final(self).h2e@ == insert_all(old(self).h2e@, items@),
            forall|i: int|
                0 <= i < LADDER_LEVELS ==> (#[trigger] final(self).blts@[i])@ == x_apply_all(
                    old(self).blts@[i]@,
                    old(self).blts@[i].spec_k(),
                    old(self).blts@[i].spec_seed(),
                    surrogates(items@),
                ),
    {
        let ghost m0 = self.h2e@;
        let ghost blts0 = self.blts@;
        let n = items.len();
        for t in 0..n
            invariant
                self.wf(),
                n == items@.len(),
                m0 == old(self).h2e@,
                blts0 == old(self).blts@,
                blts0.len() == LADDER_LEVELS,
                self.blts@.len() == LADDER_LEVELS,
                self.h2e@ == insert_all(m0, items@.take(t as int)),
                forall|i: int|
                    0 <= i < LADDER_LEVELS ==> (#[trigger] self.blts@[i])@ == x_apply_all(
                        blts0[i]@,
                        blts0[i].spec_k(),
                        blts0[i].spec_seed(),
                        surrogates(items@.take(t as int)),
                    ) && self.blts@[i].spec_k() == blts0[i].spec_k() && self.blts@[i].spec_seed()
                        == blts0[i].spec_seed(),
        {
            let ghost pre_blts = self.blts@;
            let ghost pre_m = self.h2e@;
            self.add_item(items[t]);
            proof {
                let taken = items@.take(t as int);
                let taken1 = items@.take(t as int + 1);
                assert(taken1.drop_last() =~= taken);
                assert(taken1.last() == items@[t as int]);
                assert(surrogates(taken1).drop_last() =~= surrogates(taken));
                assert(surrogates(taken1).last() == digest(ITEM_SEED, items@[t as int]));
                assert(self.h2e@ == insert_all(m0, taken1));
                assert forall|i: int|
                    0 <= i < LADDER_LEVELS implies (#[trigger] self.blts@[i])@ == x_apply_all(
                    blts0[i]@,
                    blts0[i].spec_k(),
                    blts0[i].spec_seed(),
                    surrogates(taken1),
                ) by {
                    assert(pre_blts[i]@ == x_apply_all(
                        blts0[i]@,
                        blts0[i].spec_k(),
                        blts0[i].spec_seed(),
                        surrogates(taken),
                    ));
                }
            }
        }
        proof {
            assert(items@.take(n as int) =~= items@);
        }
    }

    /// Splits a peer-supplied list of surrogates into the items this side
    /// holds for them and the surrogates it does not know.
    pub fn split(&self, items: &Vec<u64>) -> (r: (Vec<u64>, Vec<u64>))
        ensures
            r.0@ == knowns(self.h2e@, items@),
            r.1@ == unknowns(self.h2e@, items@),
    {
        let mut local: Vec<u64> = Vec::new();
        let mut remote: Vec<u64> = Vec::new();
        let n = items.len();
        for t in 0..n
            invariant
                n == items@.len(),
                local@ == knowns(self.h2e@, items@.take(t as int)),
                remote@ == unknowns(self.h2e@, items@.take(t as int)),
        {
            let h = items[t];
            match self.h2e.get(&h) {
                Some(item) => {
                    local.push(*item);
                },
                None => {
                    remote.push(h);
                },
            }
            proof {
                let taken1 = items@.take(t as int + 1);
                assert(taken1.drop_last() =~= items@.take(t as int));
                assert(taken1.last() == items@[t as int]);
            }
        }
        proof {
            assert(items@.take(n as int) =~= items@);
        }
        (local, remote)
    }

    /// The items this side holds for the given surrogates; unknown
    /// surrogates are skipped.
    pub fn get_edges(&self, items: &Vec<u64>) -> (r: Vec<u64>)
        ensures
            r@ == knowns(self.h2e@, items@),
    {
        let mut local: Vec<u64> = Vec::new();
        let n = items.len();
        for t in 0..n
            invariant
                n == items@.len(),
                local@ == knowns(self.h2e@, items@.take(t as int)),
        {
            let h = items[t];
            match self.h2e.get(&h) {
                Some(item) => {
                    local.push(*item);
                },
                None => {},
            }
            proof {
                let taken1 = items@.take(t as int + 1);
                assert(taken1.drop_last() =~= items@.take(t as int));
                assert(taken1.last() == items@[t as int]);
            }
        }
        proof {
            assert(items@.take(n as int) =~= items@);
        }
        local
    }
}

} // verus!
