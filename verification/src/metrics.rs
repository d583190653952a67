//! What a session amounts to.

use vstd::prelude::*;

use crate::binary64::Binary64;

verus! {

/// Session metrics including bootstrap generation.
#[derive(Debug, Clone, Copy)]
pub struct SessionMetrics {
    pub generation: u32,
    pub total_rounds: usize,
    pub productive_rounds: usize,
    pub total_loc: usize,
    pub total_tests: usize,
    pub total_features: usize,
    pub avg_surprise: Binary64,
    pub streak: u32,
}

} // verus!
