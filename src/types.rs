use vstd::prelude::*;

verus! {

/// Why a cycle could not be woven.
#[derive(Clone, Copy, Debug, PartialEq, Eq, Structural)]
pub enum WeaveError {
    /// The tables disagree: an id out of range, or a point the map lacks.
    MalformedInput,
    /// The spinner found no admissible next vertex.
    NoCandidate,
    /// There were no cycles to stitch.
    EmptyLoom,
    /// A cycle shares no pair of parallel adjacent edges with the main one.
    UnjoinableCycles,
}

/// Serialised graph tables, keyed by name.
pub struct Graph {
    pub data: Vec<(String, String)>,
}

/// A vertex id wrapped for serialisation.
#[derive(Clone, Copy, Debug, PartialEq, Eq, Hash, Structural)]
pub struct NodeStruct(pub u32);

} // verus!
