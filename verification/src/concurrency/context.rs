//! What all nodes of a simulation go by.

use vstd::prelude::*;

use crate::types::BatchPolicy;

verus! {

#[derive(Clone, Copy)]
pub struct SimulationConfig {
    pub batch: BatchPolicy,
}

} // verus!
