//! The countless sketch variant: cells hold only the XOR of elements and the
//! XOR of their digests.
//!
//! Adding and removing an element are the same XOR adjustment, so a sketch
//! built from a set and merged with a peer's sketch encodes exactly the
//! symmetric difference.  Peel decoding repeatedly takes a cell whose
//! contents pass the digest check, emits its element, and XORs it back out
//! of all three of its positions.

use crate::hashing::digest;
use crate::hashing::keyed_digest;
use crate::positions::MAX_K;
use crate::positions::derive_positions;
use crate::positions::in_queue;
use crate::positions::is_pos;
use crate::positions::lemma_table_size_bound;
use crate::positions::table_size;
use crate::words::lemma_xor_assoc;
use crate::words::lemma_xor_cancel;
use crate::words::lemma_xor_comm2;
use crate::words::lemma_xor_zero;
use vstd::prelude::*;

verus! {

/// One cell: the XOR of the elements placed here and the XOR of their
/// digests.  A cell with both fields zero is empty.
#[derive(Clone, Copy)]
pub struct Elem {
    pub xor_elem: u64,
    pub xor_hash: u64,
}

impl Elem {
    /// Folds one element into the cell; the same adjustment takes it back
    /// out.
    pub fn adjust(&mut self, elem: u64, elem_hash: u64)
        ensures
            *final(self) == x_adjusted(*old(self), elem, elem_hash),
    {
        self.xor_elem ^= elem;
        self.xor_hash ^= elem_hash;
    }

    /// Folds a peer's cell into this one.
    pub fn merge(&mut self, rhs: &Elem)
        ensures
            *final(self) == x_merged_cell(*old(self), *rhs),
    {
        self.xor_elem ^= rhs.xor_elem;
        self.xor_hash ^= rhs.xor_hash;
    }
}

/// The empty cell.
pub open spec fn zero_elem() -> Elem {
    Elem { xor_elem: 0, xor_hash: 0 }
}

/// Whether every cell of the table is empty.
pub open spec fn all_zero(cells: Seq<Elem>) -> bool {
    forall|i: int| 0 <= i < cells.len() ==> cells[i] == zero_elem()
}

/// A table of `n` empty cells.
pub open spec fn empty_cells(n: nat) -> Seq<Elem> {
    Seq::new(n, |i: int| zero_elem())
}

/// A cell with one element folded in.
pub open spec fn x_adjusted(c: Elem, e: u64, h: u64) -> Elem {
    Elem { xor_elem: c.xor_elem ^ e, xor_hash: c.xor_hash ^ h }
}

/// Two cells folded together.
pub open spec fn x_merged_cell(a: Elem, b: Elem) -> Elem {
    Elem { xor_elem: a.xor_elem ^ b.xor_elem, xor_hash: a.xor_hash ^ b.xor_hash }
}

/// The table after one element with digest `h` is folded into its three
/// positions.
pub open spec fn x_cells_adjusted(cells: Seq<Elem>, k: u64, e: u64, h: u64) -> Seq<Elem> {
    Seq::new(
        cells.len(),
        |i: int|
            if is_pos(k, h, i) {
                x_adjusted(cells[i], e, h)
            } else {
                cells[i]
            },
    )
}

/// The table after element `e` is folded in under seed `seed`.
pub open spec fn x_apply(cells: Seq<Elem>, k: u64, seed: u64, e: u64) -> Seq<Elem> {
    x_cells_adjusted(cells, k, e, digest(seed, e))
}

/// The table after each element of `es` is folded in, in order.
pub open spec fn x_apply_all(cells: Seq<Elem>, k: u64, seed: u64, es: Seq<u64>) -> Seq<Elem>
    decreases es.len(),
{
    if es.len() == 0 {
        cells
    } else {
        x_apply(x_apply_all(cells, k, seed, es.drop_last()), k, seed, es.last())
    }
}

/// Whether the peel loop could still act on this cell: it is non-empty and
/// its contents pass the digest check.
pub open spec fn x_peelable(c: Elem, seed: u64) -> bool {
    &&& !(c.xor_elem == 0 && c.xor_hash == 0)
    &&& digest(seed, c.xor_elem) == c.xor_hash
}

/// Two tables merged cell by cell.
pub open spec fn x_merged(a: Seq<Elem>, b: Seq<Elem>) -> Seq<Elem> {
    Seq::new(a.len(), |i: int| x_merged_cell(a[i], b[i]))
}

/// A countless sketch: a fixed table of XOR cells pinned to a seed.
#[derive(Clone)]
pub struct BLT {
    /// Number of cells; fixed at construction to `2^k + 2`.
    pub capacity: usize,
    k: u64,
    data: Vec<Elem>,
    seed: u64,
}

impl View for BLT {
    type V = Seq<Elem>;

    closed spec fn view(&self) -> Seq<Elem> {
        self.data@
    }
}

impl BLT {
    /// The table parameter: the table holds `2^k + 2` cells.
    pub closed spec fn spec_k(&self) -> u64 {
        self.k
    }

    /// The seed of the hash family this sketch was pinned to.
    pub closed spec fn spec_seed(&self) -> u64 {
        self.seed
    }

    /// The number of cells, as the `capacity` field states it.
    pub closed spec fn spec_capacity(&self) -> usize {
        self.capacity
    }

    /// Structural soundness: the table has its stated size.
    pub open spec fn wf(&self) -> bool {
        &&& self.spec_k() <= MAX_K
        &&& self@.len() == table_size(self.spec_k())
        &&& self.spec_capacity() as int == table_size(self.spec_k())
    }

    /// Whether two sketches may be merged: same shape, same seed.
    pub open spec fn same_shape(a: BLT, b: BLT) -> bool {
        &&& a.spec_k() == b.spec_k()
        &&& a.spec_seed() == b.spec_seed()
        &&& a.spec_capacity() == b.spec_capacity()
    }

    /// Allocates the smallest table of shape `2^k + 2` that holds at least
    /// `capacity` cells, all empty, pinned to `seed`.
    pub fn new(capacity: usize, seed: u64) -> (s: Self)
        requires
            capacity <= 0x200002,
        ensures
            s.wf(),
            s.spec_seed() == seed,
            s.spec_capacity() >= capacity,
            s.spec_k() == 0 || table_size((s.spec_k() - 1) as u64) < capacity,
            all_zero(s@),
    {
        proof {
            assert(1u64 << 0u64 == 1u64) by (bit_vector);
        }
        let mut k: u64 = 0;
        let mut size: u64 = 1;
        while size + 2 < (capacity as u64)
            invariant
                capacity <= 0x200002,
                size == 1u64 << k,
                size <= 0x200000,
                k <= MAX_K,
                k == 0 || (1u64 << ((k - 1) as u64)) + 2 < capacity,
            decreases MAX_K - k,
        {
            proof {
                assert(k < 21u64 && (1u64 << ((k + 1) as u64)) == 2 * (1u64 << k) && 2 * (1u64
                    << k) <= 0x200000u64) by (bit_vector)
                    requires
                        k <= 21u64 && size == 1u64 << k && size + 2u64 <= 0x200001u64,
                ;
            }
            size = size * 2;
            k = k + 1;
        }
        proof {
            lemma_table_size_bound(k);
        }
        let new_capacity: usize = (size as usize) + 2;
        let mut data: Vec<Elem> = Vec::new();
        for i in 0..new_capacity
            invariant
                data@.len() == i,
                forall|t: int| 0 <= t < i ==> data@[t] == zero_elem(),
        {
            data.push(Elem { xor_elem: 0, xor_hash: 0 });
        }
        Self { capacity: new_capacity, data, seed, k }
    }

    /// Folds `elem` into the sketch.
    pub fn add(&mut self, elem: u64)
        requires
            old(self).wf(),
        ensures
            final(self).wf(),
            Self::same_shape(*old(self), *final(self)),
            final(self)@ == x_apply(old(self)@, old(self).spec_k(), old(self).spec_seed(), elem),
    {
        self.adjust(elem)
    }

    /// Takes `elem` back out of the sketch; over XOR cells this is the same
    /// adjustment as `add`.
    pub fn remove(&mut self, elem: u64)
        requires
            old(self).wf(),
        ensures
            final(self).wf(),
            Self::same_shape(*old(self), *final(self)),
            final(self)@ == x_apply(old(self)@, old(self).spec_k(), old(self).spec_seed(), elem),
    {
        self.adjust(elem)
    }

    /// The digest of `elem` under this sketch's seed.
    pub fn compute_hash(&self, elem: u64) -> (r: u64)
        ensures
            r == digest(self.spec_seed(), elem),
    {
        keyed_digest(self.seed, elem)
    }

    fn adjust(&mut self, elem: u64)
        requires
            old(self).wf(),
        ensures
            final(self).wf(),
            Self::same_shape(*old(self), *final(self)),
            final(self)@ == x_apply(old(self)@, old(self).spec_k(), old(self).spec_seed(), elem),
    {
        self.adjust_value(elem);
    }

    /// Merges a peer's sketch of identical shape and seed into this one; the
    /// result encodes the symmetric difference of what the two encoded.
    pub fn merge(&mut self, rhs: &BLT)
        requires
            old(self).wf(),
            rhs.wf(),
            Self::same_shape(*old(self), *rhs),
        ensures
            final(self).wf(),
            Self::same_shape(*old(self), *final(self)),
            final(self)@ == x_merged(old(self)@, rhs@),
    {
        let ghost cells0 = self@;
        let capacity = self.capacity;
        for i in 0..capacity
            invariant
                self.wf(),
                rhs.wf(),
                Self::same_shape(*self, *rhs),
                capacity == self.spec_capacity(),
                cells0.len() == self@.len(),
                forall|t: int| 0 <= t < i ==> self@[t] == x_merged_cell(cells0[t], rhs@[t]),
                forall|t: int| i <= t < self@.len() ==> self@[t] == cells0[t],
        {
            let mut c = self.data[i];
            c.merge(&rhs.data[i]);
            self.data[i] = c;
        }
        proof {
            assert(self@ =~= x_merged(cells0, rhs@));
        }
    }

    /// Peel-decodes the sketch destructively.
    ///
    /// Returns the emitted elements and a success flag.  The flag is set
    /// exactly when every cell ended up empty, in which case the emitted
    /// elements are the full encoded difference.  The loop spends at most
    /// eight work units per cell, which bounds the decode at a fixed
    /// multiple of the table size; whenever fewer elements than cells were
    /// emitted — every decode that can fully succeed — the budget was not
    /// the stopping reason, and the decoder stopped only because no cell
    /// passing the digest check was left.
    pub fn try_recover(&mut self) -> (r: (Vec<u64>, bool))
        requires
            old(self).wf(),
        ensures
            final(self).wf(),
            Self::same_shape(*old(self), *final(self)),
            final(self)@ == x_apply_all(
                old(self)@,
                old(self).spec_k(),
                old(self).spec_seed(),
                r.0@,
            ),
            r.1 <==> all_zero(final(self)@),
            all_zero(old(self)@) ==> r.0@ == Seq::<u64>::empty() && r.1,
            r.0@.len() <= 8 * old(self)@.len(),
            r.0@.len() < old(self)@.len() ==> forall|c: int|
                0 <= c < final(self)@.len() ==> !x_peelable(
                    #[trigger] final(self)@[c],
                    old(self).spec_seed(),
                ),
    {
        let ghost cells0 = self@;
        let ghost k0 = self.spec_k();
        let ghost s0 = self.spec_seed();
        let mut result: Vec<u64> = Vec::new();
        let mut to_check: Vec<usize> = Vec::new();
        let capacity = self.capacity;
        proof {
            lemma_table_size_bound(self.spec_k());
        }
        let mut fuel: usize = capacity * 8;
        let ghost fuel0 = fuel as int;
        for i in 0..capacity
            invariant
                self.wf(),
                self.spec_k() == k0,
                self.spec_seed() == s0,
                capacity == self.spec_capacity(),
                cells0.len() == self@.len(),
                fuel <= 8 * cells0.len(),
                self@ == x_apply_all(cells0, k0, s0, result@),
                forall|t: int|
                    0 <= t < to_check@.len() ==> (to_check@[t] as int) < table_size(k0),
                result@.len() + fuel <= 8 * cells0.len(),
                to_check@.len() + (fuel0 - fuel) == i + 4 * result@.len(),
                fuel == 0 || to_check@.len() == 0,
                forall|c: int|
                    0 <= c < self@.len() && #[trigger] x_peelable(self@[c], s0) ==> in_queue(
                        to_check@,
                        c,
                    ) || i <= c,
                all_zero(cells0) ==> result@ == Seq::<u64>::empty() && self@ == cells0,
        {
            let ghost q_out = to_check@;
            to_check.push(i);
            proof {
                assert forall|c: int|
                    0 <= c < self@.len() && #[trigger] x_peelable(self@[c], s0) implies in_queue(
                    to_check@,
                    c,
                ) || i + 1 <= c by {
                    if c == i as int {
                        assert(to_check@[to_check@.len() - 1] as int == c);
                    } else if in_queue(q_out, c) {
                        let t0 = choose|t: int| 0 <= t < q_out.len() && q_out[t] as int == c;
                        assert(to_check@[t0] as int == c);
                    }
                }
            }
            while fuel > 0 && to_check.len() > 0
                invariant
                    self.wf(),
                    self.spec_k() == k0,
                    self.spec_seed() == s0,
                    capacity == self.spec_capacity(),
                    cells0.len() == self@.len(),
                    self@ == x_apply_all(cells0, k0, s0, result@),
                    forall|t: int|
                        0 <= t < to_check@.len() ==> (to_check@[t] as int) < table_size(k0),
                    result@.len() + fuel <= 8 * cells0.len(),
                    to_check@.len() + (fuel0 - fuel) == i + 1 + 4 * result@.len(),
                    forall|c: int|
                        0 <= c < self@.len() && #[trigger] x_peelable(self@[c], s0) ==> in_queue(
                            to_check@,
                            c,
                        ) || i + 1 <= c,
                    all_zero(cells0) ==> result@ == Seq::<u64>::empty() && self@ == cells0,
                decreases fuel,
            {
                fuel -= 1;
                let ghost q0 = to_check@;
                let j = to_check.pop().unwrap();
                let cell = self.data[j];
                let mut peeled = false;
                if !(cell.xor_elem == 0 && cell.xor_hash == 0) {
                    let elem = cell.xor_elem;
                    let elem_hash = keyed_digest(self.seed, elem);
                    if elem_hash == cell.xor_hash {
                        peeled = true;
                        let ghost emitted0 = result@;
                        let ghost pre = self@;
                        let ghost q1 = to_check@;
                        result.push(elem);
                        self.adjust_value2(elem, elem_hash, &mut to_check);
                        to_check.push(j);
                        proof {
                            assert(result@.drop_last() =~= emitted0);
                            assert(self@ == x_apply_all(cells0, k0, s0, result@));
                            assert forall|c: int|
                                0 <= c < self@.len() && #[trigger] x_peelable(
                                    self@[c],
                                    s0,
                                ) implies in_queue(to_check@, c) || i + 1 <= c by {
                                if c == j as int {
                                    assert(to_check@[to_check@.len() - 1] as int == c);
                                } else if is_pos(k0, elem_hash, c) {
                                    if c == crate::positions::pos0(k0, elem_hash) {
                                        assert(to_check@[q1.len() as int] as int == c);
                                    } else if c == crate::positions::pos1(k0, elem_hash) {
                                        assert(to_check@[q1.len() as int + 1] as int == c);
                                    } else {
                                        assert(to_check@[q1.len() as int + 2] as int == c);
                                    }
                                } else {
                                    assert(self@[c] == pre[c]);
                                    assert(x_peelable(pre[c], s0));
                                    if in_queue(q0, c) {
                                        let t0 = choose|t: int|
                                            0 <= t < q0.len() && q0[t] as int == c;
                                        if t0 < q0.len() - 1 {
                                            assert(to_check@[t0] as int == c);
                                        } else {
                                            assert(q0[t0] == j);
                                        }
                                    }
                                }
                            }
                        }
                    }
                }
                proof {
                    if !peeled {
                        assert(!x_peelable(self@[j as int], s0));
                        assert forall|c: int|
                            0 <= c < self@.len() && #[trigger] x_peelable(
                                self@[c],
                                s0,
                            ) implies in_queue(to_check@, c) || i + 1 <= c by {
                            if c != j as int && in_queue(q0, c) {
                                let t0 = choose|t: int| 0 <= t < q0.len() && q0[t] as int == c;
                                if t0 < q0.len() - 1 {
                                    assert(to_check@[t0] as int == c);
                                } else {
                                    assert(q0[t0] == j);
                                }
                            }
                        }
                    }
                }
            }
        }
        proof {
            if result@.len() < cells0.len() {
                assert(fuel > 0);
                assert(to_check@.len() == 0);
                assert forall|c: int| 0 <= c < self@.len() implies !x_peelable(self@[c], s0) by {
                    if x_peelable(self@[c], s0) {
                        assert(in_queue(to_check@, c) || cells0.len() <= c);
                    }
                }
            }
        }
        let mut ok = true;
        let ghost cells1 = self@;
        for i in 0..capacity
            invariant
                self.wf(),
                capacity == self.spec_capacity(),
                self@ == cells1,
                result@.len() < cells0.len() ==> forall|c: int|
                    0 <= c < cells1.len() ==> !x_peelable(#[trigger] cells1[c], s0),
                ok <==> (forall|t: int| 0 <= t < i ==> self@[t] == zero_elem()),
        {
            let cell = self.data[i];
            if !(cell.xor_elem == 0 && cell.xor_hash == 0) {
                ok = false;
            }
        }
        (result, ok)
    }

    /// Peel-decodes the sketch destructively, surfacing an incomplete
    /// decode as an error.  The error keeps no transcript, so the
    /// decode-progress clause lives on `try_recover`, which this wraps.
    pub fn recover(&mut self) -> (r: Result<Vec<u64>, &'static str>)
        requires
            old(self).wf(),
        ensures
            final(self).wf(),
            Self::same_shape(*old(self), *final(self)),
            match r {
                Ok(v) => {
                    &&& final(self)@ == x_apply_all(
                        old(self)@,
                        old(self).spec_k(),
                        old(self).spec_seed(),
                        v@,
                    )
                    &&& all_zero(final(self)@)
                    &&& v@.len() <= 8 * old(self)@.len()
                },
                Err(m) => {
                    &&& !all_zero(final(self)@)
                    &&& exists|es: Seq<u64>|
                        final(self)@ == x_apply_all(
                            old(self)@,
                            old(self).spec_k(),
                            old(self).spec_seed(),
                            es,
                        )
                },
            },
            all_zero(old(self)@) ==> r is Ok && r->Ok_0@ == Seq::<u64>::empty(),
    {
        let ghost cells0 = self@;
        let (result, ok) = self.try_recover();
        if !ok {
            proof {
                let es = result@;
                assert(self@ == x_apply_all(cells0, old(self).spec_k(), old(self).spec_seed(), es));
            }
            return Err("unable to recover result");
        }
        Ok(result)
    }

    fn adjust_value(&mut self, elem: u64)
        requires
            old(self).wf(),
        ensures
            final(self).wf(),
            Self::same_shape(*old(self), *final(self)),
            final(self)@ == x_apply(old(self)@, old(self).spec_k(), old(self).spec_seed(), elem),
    {
        let elem_hash = keyed_digest(self.seed, elem);
        let mut queue: Vec<usize> = Vec::new();
        self.adjust_value2(elem, elem_hash, &mut queue);
    }

    /// The three cell positions of a digest in this sketch's table.
    fn generate_idx(&self, elem_hash: u64) -> (r: (usize, usize, usize))
        requires
            self.wf(),
        ensures
            r.0 as int == crate::positions::pos0(self.spec_k(), elem_hash),
            r.1 as int == crate::positions::pos1(self.spec_k(), elem_hash),
            r.2 as int == crate::positions::pos2(self.spec_k(), elem_hash),
            (r.0 as int) < table_size(self.spec_k()),
            (r.1 as int) < table_size(self.spec_k()),
            (r.2 as int) < table_size(self.spec_k()),
            r.0 != r.1,
            r.0 != r.2,
            r.1 != r.2,
    {
        derive_positions(self.k, elem_hash)
    }

    /// Folds `elem` (whose digest is `elem_hash`) into its three positions
    /// and records those positions on `queue` for the peel loop to revisit.
    fn adjust_value2(&mut self, elem: u64, elem_hash: u64, queue: &mut Vec<usize>)
        requires
            old(self).wf(),
        ensures
            final(self).wf(),
            Self::same_shape(*old(self), *final(self)),
            final(self)@ == x_cells_adjusted(old(self)@, old(self).spec_k(), elem, elem_hash),
            final(queue)@.len() == old(queue)@.len() + 3,
            forall|t: int| 0 <= t < old(queue)@.len() ==> final(queue)@[t] == old(queue)@[t],
            final(queue)@[old(queue)@.len() as int] as int == crate::positions::pos0(
                old(self).spec_k(),
                elem_hash,
            ),
            final(queue)@[old(queue)@.len() as int + 1] as int == crate::positions::pos1(
                old(self).spec_k(),
                elem_hash,
            ),
            final(queue)@[old(queue)@.len() as int + 2] as int == crate::positions::pos2(
                old(self).spec_k(),
                elem_hash,
            ),
            forall|t: int|
                old(queue)@.len() <= t < final(queue)@.len() ==> (final(queue)@[t] as int)
                    < table_size(old(self).spec_k()),
    {
        let ghost cells0 = self@;
        let (p0, p1, p2) = self.generate_idx(elem_hash);
        let mut c0 = self.data[p0];
        c0.adjust(elem, elem_hash);
        self.data[p0] = c0;
        let mut c1 = self.data[p1];
        c1.adjust(elem, elem_hash);
        self.data[p1] = c1;
        let mut c2 = self.data[p2];
        c2.adjust(elem, elem_hash);
        self.data[p2] = c2;
        queue.push(p0);
        queue.push(p1);
        queue.push(p2);
        proof {
            assert(self@ =~= x_cells_adjusted(cells0, self.spec_k(), elem, elem_hash));
        }
    }
}


/// Folding an element into a table preserves its length.
pub proof fn lemma_apply_all_len(cells: Seq<Elem>, k: u64, seed: u64, es: Seq<u64>)
    ensures
        x_apply_all(cells, k, seed, es).len() == cells.len(),
    decreases es.len(),
{
    if es.len() > 0 {
        lemma_apply_all_len(cells, k, seed, es.drop_last());
    }
}

/// Adjusting a table by the same element twice restores it: `add(e)`
/// followed by `remove(e)` leaves every cell as it was.
pub proof fn lemma_adjust_involution(cells: Seq<Elem>, k: u64, seed: u64, e: u64)
    ensures
        x_apply(x_apply(cells, k, seed, e), k, seed, e) == cells,
{
    let h = digest(seed, e);
    let twice = x_apply(x_apply(cells, k, seed, e), k, seed, e);
    assert forall|i: int| 0 <= i < cells.len() implies twice[i] == cells[i] by {
        if is_pos(k, h, i) {
            lemma_xor_cancel(cells[i].xor_elem, e);
            lemma_xor_cancel(cells[i].xor_hash, h);
        }
    }
    assert(twice =~= cells);
}

/// A sketch that saw only `add(e)` then `remove(e)` equals the all-zero
/// sketch.
pub proof fn lemma_singleton_identity(n: nat, k: u64, seed: u64, e: u64)
    ensures
        x_apply_all(empty_cells(n), k, seed, seq![e, e]) == empty_cells(n),
{
    let es = seq![e, e];
    assert(es.drop_last() =~= seq![e]);
    assert(seq![e].drop_last() =~= Seq::<u64>::empty());
    assert(x_apply_all(empty_cells(n), k, seed, Seq::<u64>::empty()) == empty_cells(n));
    assert(x_apply_all(empty_cells(n), k, seed, seq![e]) == x_apply(empty_cells(n), k, seed, e));
    assert(x_apply_all(empty_cells(n), k, seed, es) == x_apply(
        x_apply(empty_cells(n), k, seed, e),
        k,
        seed,
        e,
    ));
    lemma_adjust_involution(empty_cells(n), k, seed, e);
}

/// Adjustments by two elements commute.
pub proof fn lemma_apply_commutes(cells: Seq<Elem>, k: u64, seed: u64, e1: u64, e2: u64)
    ensures
        x_apply(x_apply(cells, k, seed, e1), k, seed, e2) == x_apply(
            x_apply(cells, k, seed, e2),
            k,
            seed,
            e1,
        ),
{
    let h1 = digest(seed, e1);
    let h2 = digest(seed, e2);
    let ab = x_apply(x_apply(cells, k, seed, e1), k, seed, e2);
    let ba = x_apply(x_apply(cells, k, seed, e2), k, seed, e1);
    assert forall|i: int| 0 <= i < cells.len() implies ab[i] == ba[i] by {
        if is_pos(k, h1, i) && is_pos(k, h2, i) {
            lemma_xor_comm2(cells[i].xor_elem, e1, e2);
            lemma_xor_comm2(cells[i].xor_hash, h1, h2);
        }
    }
    assert(ab =~= ba);
}

/// A table built from a list of adjustments equals the table built from the
/// list with one entry pulled out, adjusted by that entry at the end.
pub proof fn lemma_apply_all_remove(cells: Seq<Elem>, k: u64, seed: u64, es: Seq<u64>, i: int)
    requires
        0 <= i < es.len(),
    ensures
        x_apply_all(cells, k, seed, es) == x_apply(
            x_apply_all(cells, k, seed, es.remove(i)),
            k,
            seed,
            es[i],
        ),
    decreases es.len(),
{
    if i == es.len() - 1 {
        assert(es.remove(i) =~= es.drop_last());
    } else {
        let last = es.last();
        let rest = es.drop_last();
        lemma_apply_all_remove(cells, k, seed, rest, i);
        lemma_apply_commutes(x_apply_all(cells, k, seed, rest.remove(i)), k, seed, rest[i], last);
        assert(es.remove(i).drop_last() =~= rest.remove(i));
        assert(es.remove(i).last() == last);
    }
}

/// The table a sequence of adjustments builds depends only on the multiset
/// of adjusted elements, not on their order.
pub proof fn lemma_order_irrelevant(cells: Seq<Elem>, k: u64, seed: u64, es1: Seq<u64>, es2: Seq<
    u64,
>)
    requires
        es1.to_multiset() == es2.to_multiset(),
    ensures
        x_apply_all(cells, k, seed, es1) == x_apply_all(cells, k, seed, es2),
    decreases es1.len(),
{
    broadcast use vstd::seq_lib::group_to_multiset_ensures;

    if es1.len() == 0 {
        assert(es2.to_multiset().len() == 0);
        assert(es2 =~= es1);
    } else {
        let last = es1.last();
        assert(es1[es1.len() - 1] == last);
        assert(es1.contains(last));
        assert(es2.to_multiset().count(last) > 0);
        assert(es2.contains(last));
        let j = choose|j: int| 0 <= j < es2.len() && es2[j] == last;
        lemma_apply_all_remove(cells, k, seed, es2, j);
        assert(es1.drop_last() =~= es1.remove(es1.len() - 1));
        assert(es1.remove(es1.len() - 1).to_multiset() =~= es1.to_multiset().remove(last));
        assert(es2.remove(j).to_multiset() =~= es2.to_multiset().remove(last));
        lemma_order_irrelevant(cells, k, seed, es1.drop_last(), es2.remove(j));
    }
}

/// Merging a table with itself yields the all-zero table: two sketches of
/// the same set cancel completely.
pub proof fn lemma_merged_self(v: Seq<Elem>)
    ensures
        all_zero(x_merged(v, v)),
{
    assert forall|i: int| 0 <= i < v.len() implies x_merged(v, v)[i] == zero_elem() by {
        let a = v[i].xor_elem;
        let b = v[i].xor_hash;
        assert(a ^ a == 0u64) by (bit_vector);
        assert(b ^ b == 0u64) by (bit_vector);
    }
}

/// Merging with a table and then adjusting equals adjusting the merge.
proof fn lemma_merged_apply(a: Seq<Elem>, b: Seq<Elem>, k: u64, seed: u64, e: u64)
    requires
        a.len() == b.len(),
    ensures
        x_merged(a, x_apply(b, k, seed, e)) == x_apply(x_merged(a, b), k, seed, e),
{
    let h = digest(seed, e);
    let lhs = x_merged(a, x_apply(b, k, seed, e));
    let rhs = x_apply(x_merged(a, b), k, seed, e);
    assert forall|i: int| 0 <= i < a.len() implies lhs[i] == rhs[i] by {
        if is_pos(k, h, i) {
            lemma_xor_assoc(a[i].xor_elem, b[i].xor_elem, e);
            lemma_xor_assoc(a[i].xor_hash, b[i].xor_hash, h);
        }
    }
    assert(lhs =~= rhs);
}

/// Merging with the all-zero table changes nothing.
proof fn lemma_merged_empty(a: Seq<Elem>, n: nat)
    requires
        a.len() == n,
    ensures
        x_merged(a, empty_cells(n)) == a,
{
    let lhs = x_merged(a, empty_cells(n));
    assert forall|i: int| 0 <= i < a.len() implies lhs[i] == a[i] by {
        lemma_xor_zero(a[i].xor_elem);
        lemma_xor_zero(a[i].xor_hash);
    }
    assert(lhs =~= a);
}

/// Merge homomorphism: merging the sketch of one element list with the
/// sketch of another equals the sketch of the two lists folded in together.
/// With the cancellation law below, elements present on both sides vanish,
/// so the merge encodes exactly the symmetric difference.
pub proof fn lemma_merge_homomorphism(n: nat, k: u64, seed: u64, es_a: Seq<u64>, es_b: Seq<u64>)
    ensures
        x_merged(
            x_apply_all(empty_cells(n), k, seed, es_a),
            x_apply_all(empty_cells(n), k, seed, es_b),
        ) == x_apply_all(empty_cells(n), k, seed, es_a + es_b),
    decreases es_b.len(),
{
    lemma_apply_all_len(empty_cells(n), k, seed, es_a);
    if es_b.len() == 0 {
        assert(es_a + es_b =~= es_a);
        lemma_merged_empty(x_apply_all(empty_cells(n), k, seed, es_a), n);
    } else {
        let last = es_b.last();
        assert((es_a + es_b).last() == last);
        assert((es_a + es_b).drop_last() =~= es_a + es_b.drop_last());
        lemma_merge_homomorphism(n, k, seed, es_a, es_b.drop_last());
        lemma_apply_all_len(empty_cells(n), k, seed, es_b.drop_last());
        lemma_merged_apply(
            x_apply_all(empty_cells(n), k, seed, es_a),
            x_apply_all(empty_cells(n), k, seed, es_b.drop_last()),
            k,
            seed,
            last,
        );
    }
}

/// A pair of equal entries anywhere in the adjustment list cancels.
pub proof fn lemma_duplicate_cancels(cells: Seq<Elem>, k: u64, seed: u64, es: Seq<u64>, i: int, j: int)
    requires
        0 <= i < j < es.len(),
        es[i] == es[j],
    ensures
        x_apply_all(cells, k, seed, es) == x_apply_all(cells, k, seed, es.remove(j).remove(i)),
{
    lemma_apply_all_remove(cells, k, seed, es, j);
    lemma_apply_all_remove(cells, k, seed, es.remove(j), i);
    lemma_adjust_involution(x_apply_all(cells, k, seed, es.remove(j).remove(i)), k, seed, es[i]);
}

} // verus!
