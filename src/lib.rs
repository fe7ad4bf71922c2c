//! Packs conference talks into tracks of a morning and an evening session,
//! choosing for each session the subset of waiting talks that fills it best.
use vstd::prelude::*;

pub mod format;
pub mod knapsack;
pub mod laws;
pub mod pool;
pub mod talk;
pub mod tracks;

pub use tracks::answers;

verus! {

/// Why a run stopped without scheduling every talk.
#[derive(Debug, Clone, PartialEq, Eq)]
pub enum ConferenceError {
    /// A line that follows neither talk form; it is kept verbatim.
    Parse(String),
    /// A whole track was built and not one waiting talk fit; the count of
    /// talks left waiting.
    Unschedulable(usize),
}

} // verus!
