//! The counted sketch variant: each cell carries a signed occupancy count
//! beside the two XOR fields.
//!
//! The count lets the sketch encode a signed multiset of insertions and
//! removals, so unbalanced histories are admitted.  A cell whose count is
//! `1` or `-1` is a candidate pure cell; the peel loop confirms it by
//! recomputing the digest of its element.

use crate::hashing::digest;
use crate::hashing::keyed_digest;
use crate::positions::MAX_K;
use crate::positions::derive_positions;
use crate::positions::in_queue;
use crate::positions::is_pos;
use crate::positions::lemma_table_size_bound;
use crate::positions::table_size;
use crate::words::lemma_xor_assoc;
use crate::words::lemma_xor_cancel;
use crate::words::lemma_xor_comm2;
use crate::words::lemma_xor_zero;
use vstd::prelude::*;

verus! {

/// Seed of the hash family that every counted sketch shares.
pub const SKETCH_SEED: u64 = 0;

/// Count headroom demanded of a sketch before it is peel-decoded: the loop
/// itself moves each count by at most a small multiple of the table size.
pub const COUNT_BOUND: i32 = 0x7D00_0000;

/// The mathematical value of one cell: the count is unbounded here, while
/// the stored cell keeps it in a machine word.
pub ghost struct CellM {
    pub count: int,
    pub xor_elem: u64,
    pub xor_hash: u64,
}

/// One stored cell: signed occupancy, XOR of elements, XOR of digests.
#[derive(Clone, Copy)]
pub struct Elem {
    pub count: i32,
    pub xor_elem: u64,
    pub xor_hash: u64,
}

impl View for Elem {
    type V = CellM;

    open spec fn view(&self) -> CellM {
        CellM { count: self.count as int, xor_elem: self.xor_elem, xor_hash: self.xor_hash }
    }
}

impl Elem {
    /// Applies one signed insertion or removal to the cell.
    pub fn adjust(&mut self, elem: u64, elem_hash: u64, count: i32)
        requires
            i32::MIN <= old(self)@.count + count <= i32::MAX,
        ensures
            final(self)@ == c_adjusted(old(self)@, elem, elem_hash, count as int),
    {
        self.count += count;
        self.xor_elem ^= elem;
        self.xor_hash ^= elem_hash;
    }

    /// Folds a peer's cell into this one; the peer's count is subtracted so
    /// that elements present on both sides cancel to zero.
    pub fn merge(&mut self, rhs: &Elem)
        requires
            i32::MIN <= old(self)@.count - rhs@.count <= i32::MAX,
        ensures
            final(self)@ == c_merged_cell(old(self)@, rhs@),
    {
        self.count -= rhs.count;
        self.xor_elem ^= rhs.xor_elem;
        self.xor_hash ^= rhs.xor_hash;
    }

    /// Whether the cell is a candidate pure cell.
    pub fn is_one(&self) -> (r: bool)
        ensures
            r == c_is_one(self@),
    {
        self.count == -1 || self.count == 1
    }
}

/// Whether a cell's count marks it as a candidate singleton.
pub open spec fn c_is_one(c: CellM) -> bool {
    c.count == -1 || c.count == 1
}

/// Whether the peel loop could still act on this cell: its count marks a
/// candidate singleton and its contents pass the digest check.
pub open spec fn c_peelable(c: CellM) -> bool {
    &&& c.count == 1 || c.count == -1
    &&& digest(SKETCH_SEED, c.xor_elem) == c.xor_hash
}

/// The empty cell.
pub open spec fn c_zero() -> CellM {
    CellM { count: 0, xor_elem: 0, xor_hash: 0 }
}

/// Whether every cell of the table is empty.
pub open spec fn c_all_zero(cells: Seq<CellM>) -> bool {
    forall|i: int| 0 <= i < cells.len() ==> cells[i] == c_zero()
}

/// A table of `n` empty cells.
pub open spec fn c_empty_cells(n: nat) -> Seq<CellM> {
    Seq::new(n, |i: int| c_zero())
}

/// A cell after one signed adjustment.
pub open spec fn c_adjusted(c: CellM, e: u64, h: u64, d: int) -> CellM {
    CellM { count: c.count + d, xor_elem: c.xor_elem ^ e, xor_hash: c.xor_hash ^ h }
}

/// Two cells merged: counts subtract, XOR fields fold.
pub open spec fn c_merged_cell(a: CellM, b: CellM) -> CellM {
    CellM {
        count: a.count - b.count,
        xor_elem: a.xor_elem ^ b.xor_elem,
        xor_hash: a.xor_hash ^ b.xor_hash,
    }
}

/// The table after one signed adjustment lands on its three positions.
pub open spec fn c_cells_adjusted(cells: Seq<CellM>, k: u64, e: u64, h: u64, d: int) -> Seq<
    CellM,
> {
    Seq::new(
        cells.len(),
        |i: int|
            if is_pos(k, h, i) {
                c_adjusted(cells[i], e, h, d)
            } else {
                cells[i]
            },
    )
}

/// One insertion (`delta == 1`) or removal (`delta == -1`) of an element;
/// the model admits any signed weight.
pub ghost struct Op {
    pub elem: u64,
    pub delta: int,
}

/// The table after one operation.
pub open spec fn c_apply(cells: Seq<CellM>, k: u64, op: Op) -> Seq<CellM> {
    c_cells_adjusted(cells, k, op.elem, digest(SKETCH_SEED, op.elem), op.delta)
}

/// The table after a sequence of operations, applied in order.
pub open spec fn c_apply_ops(cells: Seq<CellM>, k: u64, ops: Seq<Op>) -> Seq<CellM>
    decreases ops.len(),
{
    if ops.len() == 0 {
        cells
    } else {
        c_apply(c_apply_ops(cells, k, ops.drop_last()), k, ops.last())
    }
}

/// Two tables merged cell by cell.
pub open spec fn c_merged(a: Seq<CellM>, b: Seq<CellM>) -> Seq<CellM> {
    Seq::new(a.len(), |i: int| c_merged_cell(a[i], b[i]))
}

/// The same operations with their signs flipped.
pub open spec fn negate_ops(ops: Seq<Op>) -> Seq<Op> {
    ops.map_values(|op: Op| Op { elem: op.elem, delta: -op.delta })
}

/// Whether every operation carries a unit weight.
pub open spec fn unit_ops(ops: Seq<Op>) -> bool {
    forall|t: int| 0 <= t < ops.len() ==> ((#[trigger] ops[t]).delta == 1 || ops[t].delta == -1)
}

/// Whether `ops` is a peel transcript for the emitted elements `es`: same
/// elements in order, each with a unit weight.
pub open spec fn ops_match(ops: Seq<Op>, es: Seq<u64>) -> bool {
    &&& ops.len() == es.len()
    &&& forall|t: int|
        0 <= t < ops.len() ==> ops[t].elem == es[t] && (ops[t].delta == 1 || ops[t].delta == -1)
}

/// The viewed table: each stored cell replaced by its mathematical value.
pub open spec fn cells_view(data: Seq<Elem>) -> Seq<CellM> {
    data.map_values(|c: Elem| c@)
}

/// A counted sketch: a fixed table of counted XOR cells.
#[derive(Clone)]
pub struct Sketch {
    capacity: usize,
    k: u64,
    data: Vec<Elem>,
}

impl View for Sketch {
    type V = Seq<CellM>;

    closed spec fn view(&self) -> Seq<CellM> {
        cells_view(self.data@)
    }
}

impl Sketch {
    /// The table parameter: the table holds `2^k + 2` cells.
    pub closed spec fn spec_k(&self) -> u64 {
        self.k
    }

    /// The number of cells.
    pub closed spec fn spec_capacity(&self) -> usize {
        self.capacity
    }

    /// Structural soundness: the table has its stated size.
    pub open spec fn wf(&self) -> bool {
        &&& self.spec_k() <= MAX_K
        &&& self@.len() == table_size(self.spec_k())
        &&& self.spec_capacity() as int == table_size(self.spec_k())
    }

    /// Whether two sketches may be merged: same shape.
    pub open spec fn same_shape(a: Sketch, b: Sketch) -> bool {
        &&& a.spec_k() == b.spec_k()
        &&& a.spec_capacity() == b.spec_capacity()
    }

    /// Allocates the smallest table of shape `2^k + 2` that holds at least
    /// `capacity` cells, all empty.
    pub fn new(capacity: usize) -> (s: Self)
        requires
            capacity <= 0x200002,
        ensures
            s.wf(),
            s.spec_capacity() >= capacity,
            s.spec_k() == 0 || table_size((s.spec_k() - 1) as u64) < capacity,
            c_all_zero(s@),
    {
        proof {
            assert(1u64 << 0u64 == 1u64) by (bit_vector);
        }
        let mut k: u64 = 0;
        let mut size: u64 = 1;
        while size + 2 < (capacity as u64)
            invariant
                capacity <= 0x200002,
                size == 1u64 << k,
                size <= 0x200000,
                k <= MAX_K,
                k == 0 || (1u64 << ((k - 1) as u64)) + 2 < capacity,
            decreases MAX_K - k,
        {
            proof {
                assert(k < 21u64 && (1u64 << ((k + 1) as u64)) == 2 * (1u64 << k) && 2 * (1u64
                    << k) <= 0x200000u64) by (bit_vector)
                    requires
                        k <= 21u64 && size == 1u64 << k && size + 2u64 <= 0x200001u64,
                ;
            }
            size = size * 2;
            k = k + 1;
        }
        proof {
            lemma_table_size_bound(k);
        }
        let new_capacity: usize = (size as usize) + 2;
        let mut data: Vec<Elem> = Vec::new();
        for i in 0..new_capacity
            invariant
                data@.len() == i,
                forall|t: int| 0 <= t < i ==> (#[trigger] data@[t])@ == c_zero(),
        {
            data.push(Elem { count: 0, xor_elem: 0, xor_hash: 0 });
        }
        Self { capacity: new_capacity, data, k }
    }

    /// Inserts `elem` into the sketch.
    pub fn add(&mut self, elem: u64)
        requires
            old(self).wf(),
            forall|i: int|
                0 <= i < old(self)@.len() ==> i32::MIN < (#[trigger] old(self)@[i]).count < i32::MAX,
        ensures
            final(self).wf(),
            Self::same_shape(*old(self), *final(self)),
            final(self)@ == c_apply(old(self)@, old(self).spec_k(), Op { elem, delta: 1 }),
    {
        self.adjust(elem, 1)
    }

    /// Removes `elem` from the sketch.
    pub fn remove(&mut self, elem: u64)
        requires
            old(self).wf(),
            forall|i: int|
                0 <= i < old(self)@.len() ==> i32::MIN < (#[trigger] old(self)@[i]).count < i32::MAX,
        ensures
            final(self).wf(),
            Self::same_shape(*old(self), *final(self)),
            final(self)@ == c_apply(old(self)@, old(self).spec_k(), Op { elem, delta: -1 }),
    {
        self.adjust(elem, -1)
    }

    /// The digest of `elem` under the shared seed.
    fn compute_hash(elem: u64) -> (r: u64)
        ensures
            r == digest(SKETCH_SEED, elem),
    {
        keyed_digest(SKETCH_SEED, elem)
    }

    fn adjust(&mut self, elem: u64, count: i32)
        requires
            old(self).wf(),
            count == 1 || count == -1,
            forall|i: int|
                0 <= i < old(self)@.len() ==> i32::MIN < (#[trigger] old(self)@[i]).count < i32::MAX,
        ensures
            final(self).wf(),
            Self::same_shape(*old(self), *final(self)),
            final(self)@ == c_apply(old(self)@, old(self).spec_k(), Op { elem, delta: count as int }),
    {
        self.adjust_value(elem, count)
    }

    /// Merges a peer's sketch of identical shape into this one; counts
    /// subtract, so shared elements cancel.
    pub fn merge(&mut self, rhs: &Sketch)
        requires
            old(self).wf(),
            rhs.wf(),
            Self::same_shape(*old(self), *rhs),
            forall|i: int|
                0 <= i < old(self)@.len() ==> i32::MIN <= (#[trigger] old(self)@[i]).count - rhs@[i].count
                    <= i32::MAX,
        ensures
            final(self).wf(),
            Self::same_shape(*old(self), *final(self)),
            final(self)@ == c_merged(old(self)@, rhs@),
    {
        let ghost cells0 = self@;
        let capacity = self.capacity;
        for i in 0..capacity
            invariant
                self.wf(),
                rhs.wf(),
                Self::same_shape(*self, *rhs),
                capacity == self.spec_capacity(),
                cells0.len() == self@.len(),
                forall|t: int|
                    0 <= t < cells0.len() ==> i32::MIN <= (#[trigger] cells0[t]).count - rhs@[t].count
                        <= i32::MAX,
                forall|t: int| 0 <= t < i ==> self@[t] == c_merged_cell(cells0[t], rhs@[t]),
                forall|t: int| i <= t < self@.len() ==> self@[t] == cells0[t],
        {
            let ghost pre = self@;
            let ghost pred = self.data@;
            proof {
                assert(self@[i as int] == self.data@[i as int]@);
                assert(rhs@[i as int] == rhs.data@[i as int]@);
                assert(self@[i as int] == cells0[i as int]);
                assert(i32::MIN <= cells0[i as int].count - rhs@[i as int].count <= i32::MAX);
            }
            let mut c = self.data[i];
            c.merge(&rhs.data[i]);
            self.data[i] = c;
            proof {
                assert forall|t: int|
                    0 <= t < self@.len() implies self@[t] == (if t == i as int {
                        c_merged_cell(cells0[t], rhs@[t])
                    } else {
                        pre[t]
                    }) by {
                    assert(self@[t] == self.data@[t]@);
                    assert(pre[t] == pred[t]@);
                    assert(rhs@[t] == rhs.data@[t]@);
                }
            }
        }
        proof {
            assert(self@ =~= c_merged(cells0, rhs@));
        }
    }

    fn adjust_value(&mut self, elem: u64, count: i32)
        requires
            old(self).wf(),
            forall|i: int|
                0 <= i < old(self)@.len() ==> i32::MIN <= (#[trigger] old(self)@[i]).count + count <= i32::MAX,
        ensures
            final(self).wf(),
            Self::same_shape(*old(self), *final(self)),
            final(self)@ == c_apply(old(self)@, old(self).spec_k(), Op { elem, delta: count as int }),
    {
        let elem_hash = Self::compute_hash(elem);
        let mut queue: Vec<usize> = Vec::new();
        self.adjust_value2(elem, elem_hash, count, &mut queue);
    }

    /// The three cell positions of a digest in this sketch's table.
    fn generate_idx(&self, elem_hash: u64) -> (r: (usize, usize, usize))
        requires
            self.wf(),
        ensures
            r.0 as int == crate::positions::pos0(self.spec_k(), elem_hash),
            r.1 as int == crate::positions::pos1(self.spec_k(), elem_hash),
            r.2 as int == crate::positions::pos2(self.spec_k(), elem_hash),
            (r.0 as int) < table_size(self.spec_k()),
            (r.1 as int) < table_size(self.spec_k()),
            (r.2 as int) < table_size(self.spec_k()),
            r.0 != r.1,
            r.0 != r.2,
            r.1 != r.2,
    {
        derive_positions(self.k, elem_hash)
    }

    /// Applies one signed adjustment at the element's three positions and
    /// records those positions on `queue` for the peel loop to revisit.
    fn adjust_value2(&mut self, elem: u64, elem_hash: u64, count: i32, queue: &mut Vec<usize>)
        requires
            old(self).wf(),
            forall|i: int|
                0 <= i < old(self)@.len() ==> i32::MIN <= (#[trigger] old(self)@[i]).count + count <= i32::MAX,
        ensures
            final(self).wf(),
            Self::same_shape(*old(self), *final(self)),
            final(self)@ == c_cells_adjusted(
                old(self)@,
                old(self).spec_k(),
                elem,
                elem_hash,
                count as int,
            ),
            final(queue)@.len() == old(queue)@.len() + 3,
            forall|t: int| 0 <= t < old(queue)@.len() ==> final(queue)@[t] == old(queue)@[t],
            final(queue)@[old(queue)@.len() as int] as int == crate::positions::pos0(
                old(self).spec_k(),
                elem_hash,
            ),
            final(queue)@[old(queue)@.len() as int + 1] as int == crate::positions::pos1(
                old(self).spec_k(),
                elem_hash,
            ),
            final(queue)@[old(queue)@.len() as int + 2] as int == crate::positions::pos2(
                old(self).spec_k(),
                elem_hash,
            ),
            forall|t: int|
                old(queue)@.len() <= t < final(queue)@.len() ==> (final(queue)@[t] as int)
                    < table_size(old(self).spec_k()),
    {
        let ghost cells0 = self@;
        let ghost data0 = self.data@;
        let (p0, p1, p2) = self.generate_idx(elem_hash);
        proof {
            assert(self@[p0 as int] == self.data@[p0 as int]@);
            assert(self@[p1 as int] == self.data@[p1 as int]@);
            assert(self@[p2 as int] == self.data@[p2 as int]@);
        }
        let mut c0 = self.data[p0];
        c0.adjust(elem, elem_hash, count);
        self.data[p0] = c0;
        let mut c1 = self.data[p1];
        c1.adjust(elem, elem_hash, count);
        self.data[p1] = c1;
        let mut c2 = self.data[p2];
        c2.adjust(elem, elem_hash, count);
        self.data[p2] = c2;
        queue.push(p0);
        queue.push(p1);
        queue.push(p2);
        proof {
            let ghost target = c_cells_adjusted(cells0, self.spec_k(), elem, elem_hash, count as int);
            assert forall|t: int| 0 <= t < cells0.len() implies self@[t] == target[t] by {
                assert(self@[t] == self.data@[t]@);
                assert(cells0[t] == data0[t]@);
            }
            assert(self@ =~= target);
        }
    }

    /// Peel-decodes the sketch destructively.
    ///
    /// Returns the emitted elements and a success flag.  The flag is set
    /// exactly when every cell ended up empty, in which case the emitted
    /// elements, each with a unit sign, are exactly the adjustments that
    /// emptied the table.  The loop spends at most eight work units per
    /// cell; whenever fewer elements than cells were emitted — every decode
    /// that can fully succeed — the budget was not the stopping reason, and
    /// the decoder stopped only because no candidate pure cell passing the
    /// digest check was left.
    #[verifier::rlimit(60)]
    #[verifier::spinoff_prover]
    pub fn try_recover(&mut self) -> (r: (Vec<u64>, bool))
        requires
            old(self).wf(),
            forall|i: int|
                0 <= i < old(self)@.len() ==> -COUNT_BOUND <= (#[trigger] old(self)@[i]).count <= COUNT_BOUND,
        ensures
            final(self).wf(),
            Self::same_shape(*old(self), *final(self)),
            exists|ops: Seq<Op>|
                ops_match(ops, r.0@) && final(self)@ == c_apply_ops(
                    old(self)@,
                    old(self).spec_k(),
                    ops,
                ),
            r.1 <==> c_all_zero(final(self)@),
            c_all_zero(old(self)@) ==> r.0@ == Seq::<u64>::empty() && r.1,
            r.0@.len() <= 8 * old(self)@.len(),
            r.0@.len() < old(self)@.len() ==> forall|c: int|
                0 <= c < final(self)@.len() ==> !c_peelable(#[trigger] final(self)@[c]),
    {
        let ghost cells0 = self@;
        let ghost k0 = self.spec_k();
        let mut result: Vec<u64> = Vec::new();
        let mut to_check: Vec<usize> = Vec::new();
        let ghost mut ops: Seq<Op> = Seq::empty();
        let capacity = self.capacity;
        proof {
            lemma_table_size_bound(self.spec_k());
        }
        let mut fuel: usize = capacity * 8;
        let ghost fuel0 = fuel as int;
        for i in 0..capacity
            invariant
                self.wf(),
                self.spec_k() == k0,
                capacity == self.spec_capacity(),
                cells0.len() == self@.len(),
                cells0 == old(self)@,
                k0 == old(self).spec_k(),
                capacity == old(self).spec_capacity(),
                fuel <= fuel0,
                fuel0 == 8 * cells0.len(),
                fuel0 <= 0x1000010,
                ops_match(ops, result@),
                self@ == c_apply_ops(cells0, k0, ops),
                forall|t: int|
                    0 <= t < cells0.len() ==> -COUNT_BOUND <= (#[trigger] cells0[t]).count <= COUNT_BOUND,
                forall|t: int|
                    0 <= t < self@.len() ==> -COUNT_BOUND - (fuel0 - fuel) <= (
                    #[trigger] self@[t]).count <= COUNT_BOUND + (fuel0 - fuel),
                forall|t: int|
                    0 <= t < to_check@.len() ==> (to_check@[t] as int) < table_size(k0),
                result@.len() + fuel <= fuel0,
                to_check@.len() + (fuel0 - fuel) == i + 4 * result@.len(),
                fuel == 0 || to_check@.len() == 0,
                forall|c: int|
                    0 <= c < self@.len() && #[trigger] c_peelable(self@[c]) ==> in_queue(
                        to_check@,
                        c,
                    ) || i <= c,
                c_all_zero(cells0) ==> result@ == Seq::<u64>::empty() && self@ == cells0,
        {
            let ghost q_out = to_check@;
            to_check.push(i);
            proof {
                assert forall|c: int|
                    0 <= c < self@.len() && #[trigger] c_peelable(self@[c]) implies in_queue(
                    to_check@,
                    c,
                ) || i + 1 <= c by {
                    if c == i as int {
                        assert(to_check@[to_check@.len() - 1] as int == c);
                    } else if in_queue(q_out, c) {
                        let t0 = choose|t: int| 0 <= t < q_out.len() && q_out[t] as int == c;
                        assert(to_check@[t0] as int == c);
                    }
                }
            }
            while fuel > 0 && to_check.len() > 0
                invariant
                    self.wf(),
                    self.spec_k() == k0,
                    capacity == self.spec_capacity(),
                    cells0.len() == self@.len(),
                    cells0 == old(self)@,
                    k0 == old(self).spec_k(),
                    capacity == old(self).spec_capacity(),
                    fuel <= fuel0,
                    fuel0 == 8 * cells0.len(),
                    fuel0 <= 0x1000010,
                    ops_match(ops, result@),
                    self@ == c_apply_ops(cells0, k0, ops),
                    forall|t: int|
                        0 <= t < self@.len() ==> -COUNT_BOUND - (fuel0 - fuel) <= (
                        #[trigger] self@[t]).count <= COUNT_BOUND + (fuel0 - fuel),
                    forall|t: int|
                        0 <= t < to_check@.len() ==> (to_check@[t] as int) < table_size(k0),
                    result@.len() + fuel <= fuel0,
                    to_check@.len() + (fuel0 - fuel) == i + 1 + 4 * result@.len(),
                    forall|c: int|
                        0 <= c < self@.len() && #[trigger] c_peelable(self@[c]) ==> in_queue(
                            to_check@,
                            c,
                        ) || i + 1 <= c,
                    c_all_zero(cells0) ==> result@ == Seq::<u64>::empty() && self@ == cells0,
                decreases fuel,
            {
                fuel -= 1;
                let ghost q0 = to_check@;
                let j = to_check.pop().unwrap();
                proof {
                    assert(self@[j as int] == self.data@[j as int]@);
                }
                let cell = self.data[j];
                let mut peeled = false;
                if cell.count == -1 || cell.count == 1 {
                    let elem = cell.xor_elem;
                    let elem_hash = Self::compute_hash(elem);
                    if elem_hash == cell.xor_hash {
                        peeled = true;
                        let ghost emitted0 = result@;
                        let ghost ops0 = ops;
                        let ghost pre = self@;
                        let ghost q1 = to_check@;
                        let delta: i32 = 0 - cell.count;
                        proof {
                            assert forall|t: int|
                                0 <= t < self@.len() implies i32::MIN <= (
                            #[trigger] self@[t]).count + (delta as int) <= i32::MAX by {}
                        }
                        result.push(elem);
                        proof {
                            ops = ops.push(Op { elem, delta: delta as int });
                        }
                        self.adjust_value2(elem, elem_hash, delta, &mut to_check);
                        to_check.push(j);
                        proof {
                            assert(result@.drop_last() =~= emitted0);
                            assert(ops.drop_last() =~= ops0);
                            assert(ops.last() == Op { elem, delta: delta as int });
                            assert(self@ == c_apply(c_apply_ops(cells0, k0, ops0), k0, ops.last()));
                            assert(self@ == c_apply_ops(cells0, k0, ops));
                            assert forall|c: int|
                                0 <= c < self@.len() && #[trigger] c_peelable(
                                    self@[c],
                                ) implies in_queue(to_check@, c) || i + 1 <= c by {
                                if c == j as int {
                                    assert(to_check@[to_check@.len() - 1] as int == c);
                                } else if is_pos(k0, elem_hash, c) {
                                    if c == crate::positions::pos0(k0, elem_hash) {
                                        assert(to_check@[q1.len() as int] as int == c);
                                    } else if c == crate::positions::pos1(k0, elem_hash) {
                                        assert(to_check@[q1.len() as int + 1] as int == c);
                                    } else {
                                        assert(to_check@[q1.len() as int + 2] as int == c);
                                    }
                                } else {
                                    assert(self@[c] == pre[c]);
                                    assert(c_peelable(pre[c]));
                                    if in_queue(q0, c) {
                                        let t0 = choose|t: int|
                                            0 <= t < q0.len() && q0[t] as int == c;
                                        if t0 < q0.len() - 1 {
                                            assert(to_check@[t0] as int == c);
                                        } else {
                                            assert(q0[t0] == j);
                                        }
                                    }
                                }
                            }
                        }
                    }
                }
                proof {
                    if !peeled {
                        assert(!c_peelable(self@[j as int]));
                        assert forall|c: int|
                            0 <= c < self@.len() && #[trigger] c_peelable(
                                self@[c],
                            ) implies in_queue(to_check@, c) || i + 1 <= c by {
                            if c != j as int && in_queue(q0, c) {
                                let t0 = choose|t: int| 0 <= t < q0.len() && q0[t] as int == c;
                                if t0 < q0.len() - 1 {
                                    assert(to_check@[t0] as int == c);
                                } else {
                                    assert(q0[t0] == j);
                                }
                            }
                        }
                    }
                }
            }
        }
        proof {
            if result@.len() < cells0.len() {
                assert(fuel > 0);
                assert(to_check@.len() == 0);
                assert forall|c: int| 0 <= c < self@.len() implies !c_peelable(self@[c]) by {
                    if c_peelable(self@[c]) {
                        assert(in_queue(to_check@, c) || cells0.len() <= c);
                    }
                }
            }
        }
        let mut ok = true;
        let ghost cells1 = self@;
        for i in 0..capacity
            invariant
                self.wf(),
                self.spec_k() == k0,
                capacity == self.spec_capacity(),
                cells0.len() == self@.len(),
                cells0 == old(self)@,
                k0 == old(self).spec_k(),
                capacity == old(self).spec_capacity(),
                self@ == cells1,
                ops_match(ops, result@),
                self@ == c_apply_ops(cells0, k0, ops),
                result@.len() <= 8 * cells0.len(),
                result@.len() < cells0.len() ==> forall|c: int|
                    0 <= c < cells1.len() ==> !c_peelable(#[trigger] cells1[c]),
                c_all_zero(cells0) ==> result@ == Seq::<u64>::empty() && self@ == cells0,
                ok <==> (forall|t: int| 0 <= t < i ==> self@[t] == c_zero()),
        {
            proof {
                assert(self@[i as int] == self.data@[i as int]@);
            }
            let cell = self.data[i];
            if !(cell.count == 0 && cell.xor_elem == 0 && cell.xor_hash == 0) {
                proof {
                    assert(self@[i as int] != c_zero());
                }
                ok = false;
            }
        }
        let r = (result, ok);
        proof {
            assert(ops_match(ops, r.0@));
            assert(self@ == c_apply_ops(old(self)@, old(self).spec_k(), ops));
        }
        r
    }

    /// Peel-decodes the sketch destructively, surfacing an incomplete
    /// decode as an error; `try_recover` carries the full decode contract.
    pub fn recover(&mut self) -> (r: Result<Vec<u64>, &'static str>)
        requires
            old(self).wf(),
            forall|i: int|
                0 <= i < old(self)@.len() ==> -COUNT_BOUND <= (#[trigger] old(self)@[i]).count <= COUNT_BOUND,
        ensures
            final(self).wf(),
            Self::same_shape(*old(self), *final(self)),
            r is Ok ==> exists|ops: Seq<Op>|
                ops_match(ops, r->Ok_0@) && final(self)@ == c_apply_ops(
                    old(self)@,
                    old(self).spec_k(),
                    ops,
                ),
            r is Ok ==> c_all_zero(final(self)@) && r->Ok_0@.len() <= 8 * old(self)@.len(),
            r is Err ==> !c_all_zero(final(self)@),
            r is Err ==> exists|ops: Seq<Op>|
                unit_ops(ops) && final(self)@ == c_apply_ops(
                    old(self)@,
                    old(self).spec_k(),
                    ops,
                ),
            c_all_zero(old(self)@) ==> r is Ok && r->Ok_0@ == Seq::<u64>::empty(),
    {
        let (result, ok) = self.try_recover();
        proof {
            let ops = choose|ops: Seq<Op>|
                ops_match(ops, result@) && self@ == c_apply_ops(
                    old(self)@,
                    old(self).spec_k(),
                    ops,
                );
            assert forall|t: int|
                0 <= t < ops.len() implies ((#[trigger] ops[t]).delta == 1 || ops[t].delta
                    == -1) by {
                assert(ops[t].elem == result@[t] && (ops[t].delta == 1 || ops[t].delta == -1));
            }
            assert(unit_ops(ops));
        }
        if !ok {
            return Err("unable to recover result");
        }
        let r: Result<Vec<u64>, &'static str> = Ok(result);
        proof {
            let ops = choose|ops: Seq<Op>|
                ops_match(ops, r->Ok_0@) && self@ == c_apply_ops(
                    old(self)@,
                    old(self).spec_k(),
                    ops,
                );
            assert(ops_match(ops, r->Ok_0@));
        }
        r
    }
}


/// Applying operations preserves the table length.
pub proof fn lemma_apply_ops_len(cells: Seq<CellM>, k: u64, ops: Seq<Op>)
    ensures
        c_apply_ops(cells, k, ops).len() == cells.len(),
    decreases ops.len(),
{
    if ops.len() > 0 {
        lemma_apply_ops_len(cells, k, ops.drop_last());
    }
}

/// An insertion followed by the matching removal restores the table: on a
/// fresh sketch, `add(e)` then `remove(e)` leaves every cell all-zero.
pub proof fn lemma_add_remove_identity(cells: Seq<CellM>, k: u64, e: u64, d: int)
    ensures
        c_apply(c_apply(cells, k, Op { elem: e, delta: d }), k, Op { elem: e, delta: -d })
            == cells,
{
    let h = digest(SKETCH_SEED, e);
    let twice = c_apply(c_apply(cells, k, Op { elem: e, delta: d }), k, Op { elem: e, delta: -d });
    assert forall|i: int| 0 <= i < cells.len() implies twice[i] == cells[i] by {
        if is_pos(k, h, i) {
            lemma_xor_cancel(cells[i].xor_elem, e);
            lemma_xor_cancel(cells[i].xor_hash, h);
        }
    }
    assert(twice =~= cells);
}

/// Operations on two elements commute; with the order law below, a sketch
/// depends only on the signed multiset of operations, not their order.
pub proof fn lemma_apply_commutes(cells: Seq<CellM>, k: u64, op1: Op, op2: Op)
    ensures
        c_apply(c_apply(cells, k, op1), k, op2) == c_apply(c_apply(cells, k, op2), k, op1),
{
    let h1 = digest(SKETCH_SEED, op1.elem);
    let h2 = digest(SKETCH_SEED, op2.elem);
    let ab = c_apply(c_apply(cells, k, op1), k, op2);
    let ba = c_apply(c_apply(cells, k, op2), k, op1);
    assert forall|i: int| 0 <= i < cells.len() implies ab[i] == ba[i] by {
        if is_pos(k, h1, i) && is_pos(k, h2, i) {
            lemma_xor_comm2(cells[i].xor_elem, op1.elem, op2.elem);
            lemma_xor_comm2(cells[i].xor_hash, h1, h2);
        }
    }
    assert(ab =~= ba);
}

/// A table built from a list of operations equals the table built from the
/// list with one entry pulled out, then that entry applied last.
pub proof fn lemma_apply_ops_remove(cells: Seq<CellM>, k: u64, ops: Seq<Op>, i: int)
    requires
        0 <= i < ops.len(),
    ensures
        c_apply_ops(cells, k, ops) == c_apply(c_apply_ops(cells, k, ops.remove(i)), k, ops[i]),
    decreases ops.len(),
{
    if i == ops.len() - 1 {
        assert(ops.remove(i) =~= ops.drop_last());
    } else {
        let last = ops.last();
        let rest = ops.drop_last();
        lemma_apply_ops_remove(cells, k, rest, i);
        lemma_apply_commutes(c_apply_ops(cells, k, rest.remove(i)), k, rest[i], last);
        assert(ops.remove(i).drop_last() =~= rest.remove(i));
        assert(ops.remove(i).last() == last);
    }
}

/// The table a sequence of operations builds depends only on the signed
/// multiset of operations, not on their order.
pub proof fn lemma_order_irrelevant(cells: Seq<CellM>, k: u64, ops1: Seq<Op>, ops2: Seq<Op>)
    requires
        ops1.to_multiset() == ops2.to_multiset(),
    ensures
        c_apply_ops(cells, k, ops1) == c_apply_ops(cells, k, ops2),
    decreases ops1.len(),
{
    broadcast use vstd::seq_lib::group_to_multiset_ensures;

    if ops1.len() == 0 {
        assert(ops2.to_multiset().len() == 0);
        assert(ops2 =~= ops1);
    } else {
        let last = ops1.last();
        assert(ops1[ops1.len() - 1] == last);
        assert(ops1.contains(last));
        assert(ops2.to_multiset().count(last) > 0);
        assert(ops2.contains(last));
        let j = choose|j: int| 0 <= j < ops2.len() && ops2[j] == last;
        lemma_apply_ops_remove(cells, k, ops2, j);
        assert(ops1.drop_last() =~= ops1.remove(ops1.len() - 1));
        assert(ops1.remove(ops1.len() - 1).to_multiset() =~= ops1.to_multiset().remove(last));
        assert(ops2.remove(j).to_multiset() =~= ops2.to_multiset().remove(last));
        lemma_order_irrelevant(cells, k, ops1.drop_last(), ops2.remove(j));
    }
}

/// Merging with a table and then applying a flipped operation equals
/// applying the operation on the right before merging.
proof fn lemma_merged_apply(a: Seq<CellM>, b: Seq<CellM>, k: u64, op: Op)
    requires
        a.len() == b.len(),
    ensures
        c_merged(a, c_apply(b, k, op)) == c_apply(
            c_merged(a, b),
            k,
            Op { elem: op.elem, delta: -op.delta },
        ),
{
    let h = digest(SKETCH_SEED, op.elem);
    let lhs = c_merged(a, c_apply(b, k, op));
    let rhs = c_apply(c_merged(a, b), k, Op { elem: op.elem, delta: -op.delta });
    assert forall|i: int| 0 <= i < a.len() implies lhs[i] == rhs[i] by {
        if is_pos(k, h, i) {
            lemma_xor_assoc(a[i].xor_elem, b[i].xor_elem, op.elem);
            lemma_xor_assoc(a[i].xor_hash, b[i].xor_hash, h);
        }
    }
    assert(lhs =~= rhs);
}

/// Merging with the all-zero table changes nothing.
proof fn lemma_merged_empty(a: Seq<CellM>, n: nat)
    requires
        a.len() == n,
    ensures
        c_merged(a, c_empty_cells(n)) == a,
{
    let lhs = c_merged(a, c_empty_cells(n));
    assert forall|i: int| 0 <= i < a.len() implies lhs[i] == a[i] by {
        lemma_xor_zero(a[i].xor_elem);
        lemma_xor_zero(a[i].xor_hash);
    }
    assert(lhs =~= a);
}

/// Merge homomorphism: merging the sketch of one operation list with the
/// sketch of another equals the sketch of the first list followed by the
/// second with all signs flipped — the signed multiset difference, under
/// which shared insertions cancel to empty cells.
pub proof fn lemma_merge_homomorphism(n: nat, k: u64, ops_a: Seq<Op>, ops_b: Seq<Op>)
    ensures
        c_merged(c_apply_ops(c_empty_cells(n), k, ops_a), c_apply_ops(c_empty_cells(n), k, ops_b))
            == c_apply_ops(c_empty_cells(n), k, ops_a + negate_ops(ops_b)),
    decreases ops_b.len(),
{
    lemma_apply_ops_len(c_empty_cells(n), k, ops_a);
    if ops_b.len() == 0 {
        assert(negate_ops(ops_b) =~= Seq::<Op>::empty());
        assert(ops_a + negate_ops(ops_b) =~= ops_a);
        lemma_merged_empty(c_apply_ops(c_empty_cells(n), k, ops_a), n);
    } else {
        let last = ops_b.last();
        let neg_last = Op { elem: last.elem, delta: -last.delta };
        assert((ops_a + negate_ops(ops_b)).last() == neg_last);
        assert((ops_a + negate_ops(ops_b)).drop_last() =~= ops_a + negate_ops(ops_b.drop_last()));
        lemma_merge_homomorphism(n, k, ops_a, ops_b.drop_last());
        lemma_apply_ops_len(c_empty_cells(n), k, ops_b.drop_last());
        lemma_merged_apply(
            c_apply_ops(c_empty_cells(n), k, ops_a),
            c_apply_ops(c_empty_cells(n), k, ops_b.drop_last()),
            k,
            last,
        );
    }
}

} // verus!
