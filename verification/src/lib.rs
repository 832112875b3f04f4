//! Storage core of an entity-component system: typed component columns,
//! sparse-set indices, archetypes grouping entities of one component-type
//! set, and a top-level registry that moves entities between archetypes as
//! they gain and lose components.

pub mod archetype;
pub mod collections;
pub mod column;
pub mod component;
pub mod entity;
pub mod storage;
