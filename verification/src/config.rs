use vstd::prelude::*;

verus! {

/// How object positions are advanced in time.
#[derive(Debug, Clone, Copy, PartialEq, Eq, Structural)]
pub enum PropagatorType {
    /// Circular Keplerian orbits.
    SimpleKeplerian,
    /// The SGP4/SDP4 analytic propagator.
    Sgp4,
}

/// How observations are associated with tracks.
#[derive(Debug, Clone, Copy, PartialEq, Eq, Structural)]
pub enum TrackerType {
    /// Gated nearest-neighbour association.
    NearestNeighbor,
    /// Joint probabilistic data association.
    Jpda,
}

} // verus!
