//! Set-reconciliation core built on invertible Bloom lookup tables.
//!
//! Two parties each hold a set of 64-bit identifiers.  Each side folds its
//! identifiers into fixed-capacity sketches of XOR cells; exchanging and
//! merging sketches lets either side peel out the symmetric difference with
//! bandwidth proportional to the difference, not the set size.  A strata
//! estimator sizes the difference beforehand, and a geometric ladder of
//! sketches drives a multi-round reconciliation protocol over graph edges.

pub mod blt;
pub mod blt_graph;
pub mod graph;
pub mod hashing;
pub mod positions;
pub mod sketch;
pub mod strata;
pub mod words;
