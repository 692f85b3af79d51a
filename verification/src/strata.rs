//! The strata estimator: a fixed ladder of 32 small sketches.
//!
//! An element is folded into the single stratum given by the index of the
//! lowest set bit of its digest, so stratum `i` sees roughly a `2^-(i+1)`
//! fraction of the universe.  Merging a ladder with a peer's ladder and
//! peel-decoding stratum by stratum, from the sparsest down, yields an
//! estimate of the symmetric difference: the count of elements recovered
//! before the first stratum that fails to decode, scaled by the fraction
//! that stratum represents.

use crate::blt::BLT;
use crate::blt::all_zero;
use crate::blt::lemma_merged_self;
use crate::blt::x_apply;
use crate::blt::x_apply_all;
use crate::blt::x_merged;
use crate::hashing::digest;
use crate::positions::table_size;
use vstd::prelude::*;

verus! {

/// Number of strata in the ladder.
pub const STRATA_HEIGHT: usize = 32;

/// Requested cell count of each stratum's sketch.
pub const STRATA_CELL_CAPACITY: usize = 80;

/// Seed every stratum shares.
pub const STRATA_SEED: u64 = 0;

/// Index of the lowest set bit of `h` at or above `i`, capped at 32.
pub open spec fn stratum_from(h: u64, i: int) -> int
    decreases 32 - i,
{
    if i >= 32 {
        32
    } else if h & (1u64 << (i as u64)) != 0 {
        i
    } else {
        stratum_from(h, i + 1)
    }
}

/// The stratum an element with digest `h` belongs to: the index of the
/// lowest set bit of the digest, or 32 when the low 32 bits are all clear
/// (such an element is simply not tracked).
pub open spec fn stratum_of(h: u64) -> int {
    stratum_from(h, 0)
}

/// A strata estimator: 32 sketches of identical shape and seed.
#[derive(Clone)]
pub struct Strata {
    ibf: Vec<BLT>,
}

impl View for Strata {
    type V = Seq<BLT>;

    closed spec fn view(&self) -> Seq<BLT> {
        self.ibf@
    }
}

impl Strata {
    /// Structural soundness: 32 strata, every one a well-formed sketch of
    /// the common shape and seed.
    pub open spec fn wf(&self) -> bool {
        &&& self@.len() == 32
        &&& forall|i: int|
            0 <= i < 32 ==> (#[trigger] self@[i]).wf() && self@[i].spec_k() == 7
                && self@[i].spec_seed() == STRATA_SEED
    }

    /// Builds an empty ladder.
    pub fn new() -> (s: Self)
        ensures
            s.wf(),
            forall|i: int| 0 <= i < 32 ==> all_zero((#[trigger] s@[i])@),
    {
        let mut ibf: Vec<BLT> = Vec::new();
        for i in 0..STRATA_HEIGHT
            invariant
                ibf@.len() == i,
                forall|t: int|
                    0 <= t < i ==> (#[trigger] ibf@[t]).wf() && ibf@[t].spec_k() == 7
                        && ibf@[t].spec_seed() == STRATA_SEED && all_zero(ibf@[t]@),
        {
            let b = BLT::new(STRATA_CELL_CAPACITY, STRATA_SEED);
            proof {
                let kk = b.spec_k();
                assert(1u64 << 0u64 == 1u64) by (bit_vector);
                assert(kk != 0);
                assert(kk == 7u64) by (bit_vector)
                    requires
                        1u64 <= kk <= 21u64 && (1u64 << kk) + 2 >= 80 && (1u64 << ((kk - 1)
                            as u64)) + 2 < 80,
                ;
            }
            ibf.push(b);
        }
        Self { ibf }
    }

    /// Folds `elem` into the stratum picked by the lowest set bit of its
    /// digest; an element whose digest has its low 32 bits clear is left
    /// out.
    pub fn add(&mut self, elem: u64)
        requires
            old(self).wf(),
        ensures
            final(self).wf(),
            stratum_of(digest(STRATA_SEED, elem)) < 32 ==> final(self)@ == old(self)@.update(
                stratum_of(digest(STRATA_SEED, elem)),
                final(self)@[stratum_of(digest(STRATA_SEED, elem))],
            ) && final(self)@[stratum_of(digest(STRATA_SEED, elem))]@ == x_apply(
                old(self)@[stratum_of(digest(STRATA_SEED, elem))]@,
                7,
                STRATA_SEED,
                elem,
            ),
            stratum_of(digest(STRATA_SEED, elem)) == 32 ==> final(self)@ == old(self)@,
    {
        let hash = self.ibf[0].compute_hash(elem);
        let t = Self::find_stratum(hash);
        if t < 32 {
            self.ibf[t].add(elem);
            proof {
                assert(self@ =~= old(self)@.update(t as int, self@[t as int]));
            }
        }
    }

    /// Takes `elem` back out of its stratum; over XOR cells this is the
    /// same adjustment as `add`.
    pub fn remove(&mut self, elem: u64)
        requires
            old(self).wf(),
        ensures
            final(self).wf(),
            stratum_of(digest(STRATA_SEED, elem)) < 32 ==> final(self)@ == old(self)@.update(
                stratum_of(digest(STRATA_SEED, elem)),
                final(self)@[stratum_of(digest(STRATA_SEED, elem))],
            ) && final(self)@[stratum_of(digest(STRATA_SEED, elem))]@ == x_apply(
                old(self)@[stratum_of(digest(STRATA_SEED, elem))]@,
                7,
                STRATA_SEED,
                elem,
            ),
            stratum_of(digest(STRATA_SEED, elem)) == 32 ==> final(self)@ == old(self)@,
    {
        let hash = self.ibf[0].compute_hash(elem);
        let t = Self::find_stratum(hash);
        if t < 32 {
            self.ibf[t].add(elem);
            proof {
                assert(self@ =~= old(self)@.update(t as int, self@[t as int]));
            }
        }
    }

    /// Finds the lowest set bit of `hash` among the first 32, or 32.
    fn find_stratum(hash: u64) -> (t: usize)
        ensures
            t as int == stratum_of(hash),
            t <= 32,
    {
        let mut i: usize = 0;
        while i < 32
            invariant
                i <= 32,
                stratum_of(hash) == stratum_from(hash, i as int),
            decreases 32 - i,
        {
            if hash & (1u64 << (i as u64)) != 0 {
                return i;
            }
            i += 1;
        }
        32
    }

    /// Estimates the size of the symmetric difference against a peer's
    /// ladder, clobbering this one: strata are merged and decoded from the
    /// sparsest down, and on the first failure the count recovered so far
    /// is scaled up by the fraction of the universe that stratum sees.
    /// Against a ladder whose strata hold the same cells the estimate is
    /// zero.
    pub fn destructive_strata_decode_estimator(&mut self, rhs: &Strata) -> (r: u64)
        requires
            old(self).wf(),
            rhs.wf(),
        ensures
            final(self).wf(),
            exists|em: Seq<Seq<u64>>, cut: int|
                estimator_run(old(self)@, rhs@, final(self)@, em, cut, r),
            (forall|i: int| 0 <= i < 32 ==> (#[trigger] old(self)@[i])@ == rhs@[i]@) ==> r == 0,
    {
        let ghost strata0 = self@;
        let ghost mut em: Seq<Seq<u64>> = Seq::new(32, |t: int| Seq::<u64>::empty());
        let mut count: u64 = 0;
        let mut i: usize = 32;
        while i > 0
            invariant
                self.wf(),
                rhs.wf(),
                strata0.len() == 32,
                strata0 == old(self)@,
                self@.len() == 32,
                i <= 32,
                em.len() == 32,
                count <= 1040 * (32 - i),
                count as int == emitted_above(em, i as int),
                forall|t: int| 0 <= t < i ==> self@[t] == strata0[t],
                forall|t: int|
                    i <= t < 32 ==> (#[trigger] self@[t])@ == x_apply_all(
                        x_merged(strata0[t]@, rhs@[t]@),
                        7,
                        STRATA_SEED,
                        em[t],
                    ) && all_zero(self@[t]@),
                (forall|j: int| 0 <= j < 32 ==> (#[trigger] strata0[j])@ == rhs@[j]@) ==> count
                    == 0,
            decreases i,
        {
            i -= 1;
            proof {
                assert(1u64 << 7u64 == 128u64) by (bit_vector);
                assert(table_size(7) == 130);
            }
            let ghost pre = self@[i as int]@;
            self.ibf[i].merge(&rhs.ibf[i]);
            let ghost merged = self@[i as int]@;
            proof {
                assert(merged == x_merged(pre, rhs@[i as int]@));
                if forall|j: int| 0 <= j < 32 ==> (#[trigger] strata0[j])@ == rhs@[j]@ {
                    assert(pre == (strata0[i as int])@);
                    assert(pre == rhs@[i as int]@);
                    lemma_merged_self(pre);
                }
            }
            let result = self.ibf[i].recover();
            match result {
                Err(_) => {
                    let r = count << ((i + 1) as u64);
                    proof {
                        let es = choose|es: Seq<u64>|
                            self@[i as int]@ == x_apply_all(merged, 7, STRATA_SEED, es);
                        let em0 = em;
                        em = em.update(i as int, es);
                        lemma_emitted_above_agree(em0, em, i as int + 1);
                        assert((count << ((i + 1) as u64)) as int == count * (1u64 << ((i + 1)
                            as u64))) by (bit_vector)
                            requires
                                count <= 33280u64 && i < 32usize,
                        ;
                        assert(estimator_run(strata0, rhs@, self@, em, i as int, r));
                    }
                    return r;
                },
                Ok(v) => {
                    proof {
                        let ghost em0 = em;
                        em = em.update(i as int, v@);
                        lemma_emitted_above_agree(em0, em, i as int + 1);
                        assert(emitted_above(em, i as int) == em[i as int].len()
                            + emitted_above(em, i as int + 1));
                    }
                    count += v.len() as u64;
                },
            }
        }
        proof {
            assert(estimator_run(strata0, rhs@, self@, em, -1, count));
        }
        count
    }
}

/// Total number of elements emitted across strata `j` and above.
pub open spec fn emitted_above(em: Seq<Seq<u64>>, j: int) -> int
    decreases 32 - j,
{
    if j < 0 || j >= 32 {
        0
    } else {
        em[j].len() + emitted_above(em, j + 1)
    }
}

/// Sequences that agree from `j` up have the same emitted total there.
proof fn lemma_emitted_above_agree(em1: Seq<Seq<u64>>, em2: Seq<Seq<u64>>, j: int)
    requires
        em1.len() == 32,
        em2.len() == 32,
        forall|t: int| j <= t < 32 ==> em1[t] == em2[t],
    ensures
        emitted_above(em1, j) == emitted_above(em2, j),
    decreases 32 - j,
{
    if 0 <= j < 32 {
        lemma_emitted_above_agree(em1, em2, j + 1);
    }
}

/// One full estimator pass against a peer's ladder.
///
/// Scanning strata from 31 down, each merged stratum peels to empty and its
/// emitted elements accumulate, until stratum `cut` fails to peel (or
/// `cut == -1` when every stratum decodes).  Strata below the cut are never
/// touched.  The estimate is the accumulated count, scaled by `2^(cut+1)`,
/// the fraction of the universe the failing stratum represents.
pub open spec fn estimator_run(
    a: Seq<BLT>,
    b: Seq<BLT>,
    fin: Seq<BLT>,
    em: Seq<Seq<u64>>,
    cut: int,
    r: u64,
) -> bool {
    &&& -1 <= cut < 32
    &&& em.len() == 32
    &&& forall|i: int|
        cut < i < 32 ==> (#[trigger] fin[i])@ == x_apply_all(
            x_merged(a[i]@, b[i]@),
            7,
            STRATA_SEED,
            em[i],
        ) && all_zero(fin[i]@)
    &&& cut >= 0 ==> fin[cut]@ == x_apply_all(
        x_merged(a[cut]@, b[cut]@),
        7,
        STRATA_SEED,
        em[cut],
    ) && !all_zero(fin[cut]@)
    &&& forall|i: int| 0 <= i < cut ==> (#[trigger] fin[i]) == a[i]
    &&& cut == -1 ==> r as int == emitted_above(em, 0)
    &&& cut >= 0 ==> r as int == emitted_above(em, cut + 1) * ((1u64 << ((cut + 1) as u64)) as int)
}

} // verus!
