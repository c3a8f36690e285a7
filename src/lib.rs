//! A fairness-balanced weighted draw engine over a finite set of integer ids.
//!
//! The engine keeps per-id draw counts and last-draw rounds, maintains the
//! candidate pool that the next draw picks from, and exposes the integer
//! inputs of each candidate's weight. Turning those inputs into floating-point
//! weights and sampling from them is left to the caller, who hands the chosen
//! index back through the picker passed to `BalancedRand::draw`.

use vstd::prelude::*;

pub mod seqs;
pub mod ident;
pub mod engine;
pub mod store;
pub mod plane;



verus! {

/// Error kinds reported by the draw engine.
#[derive(Debug, Clone, Copy, PartialEq, Eq, Structural)]
pub enum DrawError {
    /// Bad constructor arguments: empty universe, start > end, zero pool size.
    InvalidConfiguration,
    /// A batch draw of zero ids.
    InvalidCount,
    /// A batch draw larger than the current candidate pool.
    PoolTooSmall,
    /// The candidate pool is empty, or the picker chose no candidate.
    SelectionImpossible,
    /// Reading or writing the persistent store failed.
    PersistenceError,
    /// No stored snapshot matches the requested configuration.
    NoMatchingData,
}

} // verus!
