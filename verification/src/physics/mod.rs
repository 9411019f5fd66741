//! Rigid bodies and colliders, and the phases of a physics tick. The world
//! decides who takes part in each phase and in what order; the arithmetic
//! of a phase is handed to it, so that the decisions hold for any
//! arithmetic.

pub mod broad_phase;
pub mod rigid_body;
pub mod world;

pub use broad_phase::broad_phase_pairs;
pub use rigid_body::BodyType;
pub use world::CollisionEvent;
pub use world::PhysicsState;
pub use world::PhysicsWorld;
pub use world::RigidBody;
