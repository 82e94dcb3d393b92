//! States of a state space, and the identifiers handed out for them.
use vstd::prelude::*;

use crate::metric::VpTreeObject;

verus! {

/// A state of some state space.
pub trait State {

}

/// A unique identifier for a state in a state space: its slot in the space's storage.
/// An identifier means nothing in another state space.
#[derive(Clone, Copy, Debug, PartialEq, Eq, Structural, Hash)]
pub struct StateId {
    pub index: usize,
}

impl StateId {
    pub fn new(index: usize) -> (r: StateId)
        ensures
            r.index == index,
    {
        StateId { index }
    }
}

impl VpTreeObject for StateId {
    type PointType = StateId;

    open spec fn loc(&self) -> StateId {
        *self
    }

    fn location(&self) -> (r: &StateId) {
        self
    }
}

/// A state made of the states of several component spaces.
#[derive(Debug)]
pub struct CompoundState {
    pub components: Vec<StateId>,
}

impl CompoundState {
    pub fn new() -> (r: CompoundState)
        ensures
            r.components@ == Seq::<StateId>::empty(),
    {
        CompoundState { components: Vec::new() }
    }
}

impl Default for CompoundState {
    fn default() -> (r: CompoundState)
        ensures
            r.components@ == Seq::<StateId>::empty(),
    {
        CompoundState::new()
    }
}

impl State for CompoundState {

}

/// How a state validity checker computes the clearance of a state.
#[derive(Debug, Clone, Copy, PartialEq, Eq, Structural)]
pub enum ClearanceComputationType {
    /// No clearance computation.
    NoComputation,
    /// Sampling in the direction of the nearest obstacle.
    Sampling,
    /// Sampling in the direction of the nearest obstacle, then refining the result.
    SamplingRefinement,
}

impl Default for ClearanceComputationType {
    fn default() -> (r: ClearanceComputationType)
        ensures
            r == ClearanceComputationType::NoComputation,
    {
        ClearanceComputationType::NoComputation
    }
}

/// The simplest state validity checker: every state is valid.
pub struct AllValidStateValidityChecker;

impl AllValidStateValidityChecker {
    pub fn is_valid(&self, state: &StateId) -> (r: bool)
        ensures
            r,
    {
        true
    }

    /// What this checker can compute beyond validity: no clearance.
    pub fn specs(&self) -> (r: ClearanceComputationType)
        ensures
            r == ClearanceComputationType::NoComputation,
    {
        ClearanceComputationType::NoComputation
    }
}

/// Why a prolate hyperspheroid could not be used.
#[derive(Debug, Clone, Copy, PartialEq, Eq, Structural)]
pub enum ProlateHyperspheroidError {
    InvalidTransverseDiameter,
    TransformationNotUpToDate,
}

impl ProlateHyperspheroidError {
    /// A description of the error.
    pub fn message(&self) -> (r: &'static str) {
        match self {
            ProlateHyperspheroidError::InvalidTransverseDiameter => "The transverse diameter must be greater than zero.",
            ProlateHyperspheroidError::TransformationNotUpToDate => "The transformation is not up to date. Has the transverse diameter been set?",
        }
    }
}

} // verus!
