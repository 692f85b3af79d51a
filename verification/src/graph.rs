//! A graph held as a set of packed undirected edges, with random growth for
//! exercising reconciliation.
//!
//! An edge joins two node indices below `2^32`; it is normalised so the
//! smaller endpoint comes first and packed into one `u64`, which every
//! sketch of this crate can hold directly.

use std::collections::HashSet;
use vstd::prelude::*;

verus! {

broadcast use vstd::std_specs::hash::group_hash_axioms, vstd::set::group_set_axioms;

/// The packed form of an edge: the first endpoint in the high 32 bits, the
/// second in the low 32.
pub open spec fn edge_code(a: int, b: int) -> int {
    a * 0x1_0000_0000 + b
}

/// Whether a packed edge is a normalised edge of a graph on `nodes` nodes.
pub open spec fn valid_code(c: u64, nodes: int) -> bool {
    let a = c as int / 0x1_0000_0000;
    let b = c as int % 0x1_0000_0000;
    a <= b < nodes
}

/// Packs a normalised edge into one word.
pub fn encode_edge(a: usize, b: usize) -> (r: u64)
    requires
        a <= b,
        b < 0x1_0000_0000,
    ensures
        r as int == edge_code(a as int, b as int),
        valid_code(r, b + 1),
{
    let r: u64 = ((a as u64) << 32u64) | (b as u64);
    proof {
        let av = a as u64;
        let bv = b as u64;
        assert(((av << 32u64) | bv) as int == av * 0x1_0000_0000 + bv && ((av << 32u64) | bv) as int
            % 0x1_0000_0000 == bv && ((av << 32u64) | bv) as int / 0x1_0000_0000 == av)
            by (bit_vector)
            requires
                av < 0x1_0000_0000u64 && bv < 0x1_0000_0000u64,
        ;
    }
    r
}

#[verifier::external_type_specification]
#[verifier::external_body]
pub struct ExThreadRng(rand::rngs::ThreadRng);

/// Relies on rand: `Rng::next_u32` on the thread-local generator returns a
/// 32-bit value; its error type is infallible, and the one abort it keeps —
/// the operating system's entropy source failing during a periodic reseed —
/// is environmental, like an allocation failure.  Nothing is assumed of the
/// value.
#[verifier::external_body]
fn next_u32(rng: &mut rand::rngs::ThreadRng) -> (r: u32) {
    rand::Rng::next_u32(rng)
}

/// Relies on std's `HashSet::clone` at `u64` elements: the copy holds
/// exactly the elements of the original.
#[verifier::external_body]
fn clone_edge_set(s: &HashSet<u64>) -> (r: HashSet<u64>)
    ensures
        r@ == s@,
{
    s.clone()
}

/// A graph: a node count and a set of packed edges.
pub struct Graph {
    /// Number of nodes; edges join indices below it.
    pub nodes: usize,
    /// The packed edges.
    pub edges: HashSet<u64>,
}

impl Clone for Graph {
    /// Copies the node count and the edge set.
    fn clone(&self) -> (r: Self)
        ensures
            r.nodes == self.nodes,
            r.edges@ == self.edges@,
    {
        Graph { nodes: self.nodes, edges: clone_edge_set(&self.edges) }
    }
}

impl Graph {
    /// Structural soundness: every held edge is normalised and joins nodes
    /// of the graph.
    pub open spec fn wf(&self) -> bool {
        &&& self.nodes <= 0x1_0000_0000
        &&& self.edges@.finite()
        &&& forall|c: u64| self.edges@.contains(c) ==> valid_code(c, self.nodes as int)
    }

    /// An empty graph on `nodes` nodes.
    pub fn new(nodes: usize) -> (g: Self)
        requires
            nodes <= 0x1_0000_0000,
        ensures
            g.wf(),
            g.nodes == nodes,
            g.edges@ == Set::<u64>::empty(),
    {
        Self { nodes, edges: HashSet::new() }
    }

    /// Grows the graph by up to `e` distinct random edges.  Each edge is
    /// drawn from the generator until an absent one appears, within a fixed
    /// retry budget of ten thousand draws, so the set grows by at most `e` —
    /// and by exactly `e` unless the generator keeps hitting present edges
    /// for a whole budget, which no contract over random draws can exclude.
    pub fn add_random_edges(&mut self, e: usize, rng: &mut rand::rngs::ThreadRng)
        requires
            old(self).wf(),
            old(self).nodes >= 1,
            old(self).edges@.len() + e <= usize::MAX,
        ensures
            final(self).wf(),
            final(self).nodes == old(self).nodes,
            old(self).edges@.subset_of(final(self).edges@),
            final(self).edges@.len() <= old(self).edges@.len() + e,
    {
        let ghost edges0 = self.edges@;
        for round in 0..e
            invariant
                self.wf(),
                self.nodes == old(self).nodes,
                self.nodes >= 1,
                edges0 == old(self).edges@,
                edges0.subset_of(self.edges@),
                self.edges@.len() <= edges0.len() + round,
                edges0.len() + e <= usize::MAX,
        {
            let mut tries: usize = 0;
            let mut done = false;
            while tries < 10000 && !done
                invariant
                    self.wf(),
                    self.nodes == old(self).nodes,
                    self.nodes >= 1,
                    edges0.subset_of(self.edges@),
                    self.edges@.len() <= edges0.len() + round + 1,
                    !done ==> self.edges@.len() <= edges0.len() + round,
                decreases 10000 - tries,
            {
                tries += 1;
                let mut a = (next_u32(rng) as usize) % self.nodes;
                let mut b = (next_u32(rng) as usize) % self.nodes;
                if a > b {
                    let t = a;
                    a = b;
                    b = t;
                }
                let code = encode_edge(a, b);
                if self.edges.insert(code) {
                    done = true;
                }
            }
        }
    }

    /// Inserts the given edges; the packed form admits only normalised
    /// pairs, so each pair must be ordered and within the node range.
    pub fn add_edges(&mut self, items: &Vec<(usize, usize)>)
        requires
            old(self).wf(),
            forall|t: int|
                0 <= t < items@.len() ==> (#[trigger] items@[t]).0 <= items@[t].1 && (items@[t].1
                    as int) < old(self).nodes as int,
        ensures
            final(self).wf(),
            final(self).nodes == old(self).nodes,
            forall|c: u64|
                final(self).edges@.contains(c) <==> old(self).edges@.contains(c) || exists|t: int|
                    0 <= t < items@.len() && c as int == edge_code(
                        (#[trigger] items@[t]).0 as int,
                        items@[t].1 as int,
                    ),
    {
        let n = items.len();
        for i in 0..n
            invariant
                self.wf(),
                self.nodes == old(self).nodes,
                n == items@.len(),
                forall|t: int|
                    0 <= t < items@.len() ==> (#[trigger] items@[t]).0 <= items@[t].1 && (
                    items@[t].1 as int) < old(self).nodes as int,
                forall|c: u64|
                    self.edges@.contains(c) <==> old(self).edges@.contains(c) || exists|t: int|
                        0 <= t < i && c as int == edge_code(
                            (#[trigger] items@[t]).0 as int,
                            items@[t].1 as int,
                        ),
        {
            let (a, b) = items[i];
            let code = encode_edge(a, b);
            self.edges.insert(code);
        }
    }
}

} // verus!
