use vstd::prelude::*;

verus! {

/// How a rigid body takes part in the simulation.
#[derive(Debug, Clone, Copy, PartialEq, Eq, Structural)]
pub enum BodyType {
    /// Never moves, whatever acts on it.
    Static,
    /// Moved by forces, impulses and collisions.
    Dynamic,
    /// Moved by its owner only; forces do not act on it.
    Kinematic,
}

} // verus!
