//! Lattice-based morphological analyzer.
//!
//! Given a raw byte stream and a statistical model (a dictionary of
//! vocabulary entries plus a connection-cost table), the engine builds a
//! directed acyclic lattice of every candidate segmentation, finds the
//! cheapest path through it (Viterbi), and enumerates the N cheapest
//! distinct paths in non-decreasing cost order, honoring externally
//! supplied boundary and feature constraints.

use vstd::prelude::*;

pub mod dict;
pub mod lattice;
pub mod search;
pub mod nbest;

verus! {

/// Everything that can go wrong during an analysis, with the minimal
/// context (a position or a span) needed to locate the cause.
#[derive(Clone, Copy, PartialEq, Eq, Structural, Debug)]
pub enum MecabError {
    /// The model's dictionary is not loaded or not usable; fatal to a build.
    DictionaryUnavailable,
    /// No candidate node could be produced at this position; fatal to a build.
    LatticeConstructionError { pos: usize },
    /// Two constraints contradict each other over this span; reported before
    /// any node is generated.
    ConstraintConflict { begin: usize, end: usize },
    /// The end-of-sentence node is unreachable from begin-of-sentence.
    Unconnected,
    /// A context category id lies outside the connection-cost table: the
    /// lattice and the model do not belong together.
    InvalidCategoryId { right_id: u16, left_id: u16 },
    /// The marginal-probability phase failed to produce a finite partition
    /// value; best-path search is unaffected.
    NumericOverflow,
}

/// The kind of a lattice node.
#[derive(Clone, Copy, PartialEq, Eq, Structural, Debug)]
pub enum NodeStat {
    /// An ordinary dictionary word.
    Nor,
    /// An unknown-word fallback entry.
    Unk,
    /// The synthetic begin-of-sentence node.
    Bos,
    /// The synthetic end-of-sentence node.
    Eos,
}

/// A per-position restriction on where tokens may start or end.
#[derive(Clone, Copy, PartialEq, Eq, Structural, Debug)]
pub enum BoundaryType {
    /// No restriction at this position.
    Any,
    /// A token must end here and the next must begin here.
    TokenBoundary,
    /// This position lies strictly inside a token: no node may begin or
    /// end exactly here.
    InsideToken,
}

/// Request-mode flag: report the single best path.
pub const REQUEST_ONE_BEST: i32 = 1;
/// Request-mode flag: enumerate the N best paths.
pub const REQUEST_NBEST: i32 = 2;
/// Request-mode flag: honor the constraint set (partial parsing).
pub const REQUEST_PARTIAL: i32 = 4;
/// Request-mode flag: compute marginal probabilities.
pub const REQUEST_MARGINAL_PROB: i32 = 8;
/// Request-mode flag: keep every dictionary hit in the lattice.
pub const REQUEST_ALL_MORPHS: i32 = 32;

/// The engine's version string.
pub fn version() -> (r: String)
    ensures
        r@ == "0.996"@,
{
    "0.996".to_string()
}

} // verus!
