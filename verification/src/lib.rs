//! A minimal entity-component-system simulation substrate: an entity
//! registry, typed component storages, a world that owns them together with
//! a global asset map, and a dependency-ordered dispatcher that runs the
//! kinematics and pickup systems once per tick.

use vstd::prelude::*;

pub mod components;
pub mod dispatcher;
pub mod inventory_system;
pub mod kv;
pub mod movement_system;
pub mod registry;
pub mod storage;
pub mod world;

verus! {

/// The configuration and usage errors this substrate reports. None of them
/// is retried: all are surfaced to the immediate caller.
#[derive(Clone, Copy, Debug, PartialEq, Eq, Structural)]
pub enum EcsError {
    /// A component was attached or queried before its type was registered.
    UnregisteredComponent,
    /// The dispatcher's dependency graph contains a cycle.
    CyclicDependency,
    /// A system names a predecessor that is not registered.
    UnknownDependency,
    /// A system's declared access sets violate the exclusivity rule.
    AccessConflict,
}

} // verus!
