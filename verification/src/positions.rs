//! Index derivation: the power-of-two layout with bumped indices.
//!
//! A sketch with parameter `k` holds `2^k + 2` cells.  An element's digest is
//! cut into three `k`-bit slices, and the second and third slices are bumped
//! past the earlier choices, which yields three pairwise distinct positions
//! in `[0, 2^k + 2)`.

use vstd::prelude::*;

verus! {

/// Largest admitted table parameter: tables hold at most `2^21 + 2` cells.
pub const MAX_K: u64 = 21;

/// Number of cells a table with parameter `k` holds.
pub open spec fn table_size(k: u64) -> int {
    (1u64 << k) + 2
}

/// The low `k` bits set.
pub open spec fn low_mask(k: u64) -> u64 {
    ((1u64 << k) - 1) as u64
}

/// First `k`-bit slice of the digest.
pub open spec fn raw0(k: u64, h: u64) -> int {
    (h & low_mask(k)) as int
}

/// Second `k`-bit slice of the digest.
pub open spec fn raw1(k: u64, h: u64) -> int {
    ((h >> k) & low_mask(k)) as int
}

/// Third `k`-bit slice of the digest.
pub open spec fn raw2(k: u64, h: u64) -> int {
    (((h >> k) >> k) & low_mask(k)) as int
}

/// First derived position.
pub open spec fn pos0(k: u64, h: u64) -> int {
    raw0(k, h)
}

/// Second derived position: the second slice, bumped past the first position.
pub open spec fn pos1(k: u64, h: u64) -> int {
    if raw1(k, h) >= pos0(k, h) {
        raw1(k, h) + 1
    } else {
        raw1(k, h)
    }
}

/// Third derived position: the third slice, bumped past the other two.
pub open spec fn pos2(k: u64, h: u64) -> int {
    let a = pos0(k, h);
    let b = pos1(k, h);
    let lo = if a <= b {
        a
    } else {
        b
    };
    let hi = if a <= b {
        b
    } else {
        a
    };
    let once = if raw2(k, h) >= lo {
        raw2(k, h) + 1
    } else {
        raw2(k, h)
    };
    if once >= hi {
        once + 1
    } else {
        once
    }
}

/// Whether the index `c` occurs in a queue of cell indices.
pub open spec fn in_queue(q: Seq<usize>, c: int) -> bool {
    exists|t: int| 0 <= t < q.len() && q[t] as int == c
}

/// Whether cell `i` is one of the three positions of a digest `h`.
pub open spec fn is_pos(k: u64, h: u64, i: int) -> bool {
    i == pos0(k, h) || i == pos1(k, h) || i == pos2(k, h)
}

/// Each raw slice is at most the mask, and the mask is below the table size.
proof fn lemma_raw_bounds(k: u64, h: u64)
    requires
        k <= MAX_K,
    ensures
        0 <= raw0(k, h) <= low_mask(k),
        0 <= raw1(k, h) <= low_mask(k),
        0 <= raw2(k, h) <= low_mask(k),
        low_mask(k) + 3 == table_size(k),
        1u64 << k >= 1,
        low_mask(k) <= 0x1FFFFF,
{
    assert((h & (((1u64 << k) - 1) as u64)) <= (((1u64 << k) - 1) as u64)) by (bit_vector);
    assert(((h >> k) & (((1u64 << k) - 1) as u64)) <= (((1u64 << k) - 1) as u64)) by (bit_vector);
    assert((((h >> k) >> k) & (((1u64 << k) - 1) as u64)) <= (((1u64 << k) - 1) as u64))
        by (bit_vector);
    assert(((1u64 << k) - 1) as u64 == (1u64 << k) - 1 && (1u64 << k) >= 1 && ((1u64 << k) - 1)
        as u64 <= 0x1FFFFF) by (bit_vector)
        requires
            k <= 21u64,
    ;
}

/// Table sizes stay in a narrow numeric range, so sizing arithmetic fits.
pub proof fn lemma_table_size_bound(k: u64)
    requires
        k <= MAX_K,
    ensures
        3 <= table_size(k) <= 0x200002,
{
    assert(1u64 <= (1u64 << k) && (1u64 << k) <= 0x200000u64) by (bit_vector)
        requires
            k <= 21u64,
    ;
}

/// The three positions are pairwise distinct and lie within the table.
pub proof fn lemma_positions_distinct(k: u64, h: u64)
    requires
        k <= MAX_K,
    ensures
        0 <= pos0(k, h) < table_size(k),
        0 <= pos1(k, h) < table_size(k),
        0 <= pos2(k, h) < table_size(k),
        pos0(k, h) != pos1(k, h),
        pos0(k, h) != pos2(k, h),
        pos1(k, h) != pos2(k, h),
{
    lemma_raw_bounds(k, h);
}

/// Derives the three cell positions of a digest `h` in a table with
/// parameter `k`.
pub(crate) fn derive_positions(k: u64, h: u64) -> (r: (usize, usize, usize))
    requires
        k <= MAX_K,
    ensures
        r.0 as int == pos0(k, h),
        r.1 as int == pos1(k, h),
        r.2 as int == pos2(k, h),
        (r.0 as int) < table_size(k),
        (r.1 as int) < table_size(k),
        (r.2 as int) < table_size(k),
        r.0 != r.1,
        r.0 != r.2,
        r.1 != r.2,
{
    proof {
        lemma_raw_bounds(k, h);
        lemma_positions_distinct(k, h);
    }
    let m: u64 = (1u64 << k) - 1;
    let p0: u64 = h & m;
    let mut p1: u64 = (h >> k) & m;
    let mut p2: u64 = ((h >> k) >> k) & m;
    if p1 >= p0 {
        p1 += 1;
    }
    let lo: u64 = if p0 <= p1 {
        p0
    } else {
        p1
    };
    let hi: u64 = if p0 <= p1 {
        p1
    } else {
        p0
    };
    if p2 >= lo {
        p2 += 1;
    }
    if p2 >= hi {
        p2 += 1;
    }
    (p0 as usize, p1 as usize, p2 as usize)
}

} // verus!
