//! Entity-component store: identifiers, component columns, the world that
//! owns them, and queries over it.

pub mod column;
pub mod component;
pub mod query;
pub mod storage;
pub mod system;
pub mod world;

pub use column::Column;
pub use column::ComponentId;
pub use column::EntityId;
pub use component::Component;
pub use component::ComponentVec;
pub use component::TypedComponentVec;
pub use query::SingleComponentIter;
pub use query::SingleComponentIterMut;
pub use query::TupleComponentIter;
pub use query::TupleComponentIterMut;
pub use storage::ComponentStorage;
pub use system::Physics;
pub use system::System;
pub use system::SystemSchedule;
pub use world::EntityPool;
pub use world::PoolOp;
pub use world::World;
pub use world::WorldState;
