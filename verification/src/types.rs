use vstd::prelude::*;

verus! {

/// Opaque identifier of a vector. It exposes a stable 64-bit hash, which is
/// all the graph layer ever reads from it.
#[derive(Clone, Copy, PartialEq, Eq, Structural, Debug)]
pub struct VectorId(pub u64);

impl VectorId {
    /// The stable hash of this identifier.
    pub fn get_hash(&self) -> (h: u64)
        ensures
            h == self.0,
    {
        self.0
    }
}

/// A similarity score with a total order: greater means more similar.
#[derive(Clone, Copy, PartialEq, Eq, Structural, Debug)]
pub struct MetricResult(pub u64);

impl MetricResult {
    /// The scalar value of the score.
    pub fn get_value(&self) -> (v: u64)
        ensures
            v == self.0,
    {
        self.0
    }
}

/// The hierarchical layer a node instance belongs to.
#[derive(Clone, Copy, PartialEq, Eq, Structural, Debug)]
pub struct HNSWLevel(pub u8);

/// Shared, immutable metadata of a vector: its identifier and its stored
/// payload. One `NodeProp` is shared by every node that represents the same
/// vector, across versions.
pub struct NodeProp {
    pub id: VectorId,
    pub payload: Vec<u8>,
}

} // verus!
