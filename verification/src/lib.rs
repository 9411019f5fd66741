//! Simulation core of a 2D game engine, verified.
//!
//! `ecs` holds the entity-component world: entity ids that are recycled,
//! one dense column per kind of component, queries over one column or the
//! join of two, and the schedule that runs systems once per tick. `physics`
//! keeps rigid bodies and colliders and decides who takes part in each
//! phase of a tick, for whatever arithmetic it is handed. `engine` loads
//! the entities of a persisted game into a world. `compiler` and `assets`
//! hold the rules of code generation and of asset decoding.

pub mod assets;
pub mod compiler;
pub mod ecs;
pub mod engine;
pub mod physics;
