//! Shared pitch-estimation settings.

use vstd::prelude::*;

verus! {

/// How many candidates each pitch algorithm contributes to the vote.
pub struct PitchAlgorithmCandidateDistribution {
    pub cpp: usize,
    pub hps: usize,
    pub yin: usize,
}

} // verus!
