//! A sparse-set entity-component-system core: generational entity
//! handles, per-component storages with change ticks, access sets,
//! filters, queries with a cost-driven iteration plan, deferred commands,
//! double-buffered events, a conflict-batching scheduler, the frame-clock
//! arithmetic, and the application shell that runs systems stage by
//! stage.
//!
//! Component, resource and event types are named by `u32` keys; their
//! values share one value type `V`.
use vstd::prelude::*;

pub mod access;
pub mod application;
pub mod commands;
pub mod entity;
pub mod events;
pub mod filter;
pub mod query;
pub mod scheduler;
pub mod storage;
pub mod system;
pub mod time;
pub mod world;

pub use access::{
    Access, AccessView, ConflictKind, Entry, QueryAccess, SelfConflict, SelfConflictReason,
};
pub use commands::{
    Command, CommandQueue, Commands, EntityCommands, ResourceUpdate, SetTo,
};
pub use application::{
    AppSystem, AppView, Application, Plugin, Runner, Stage, StageError, StartupSystem,
};
pub use entity::{AllocView, Entity, EntityAllocator};
pub use events::{swap_events, EventReader, EventWriter, Events, EventsView};
pub use filter::{is_changed_since, Filter};
pub use query::{collect_shape_access, DriverPlan, Fetched, Query, Row, Term};
pub use scheduler::{Schedule, SystemId};
pub use storage::{AnyStorage, Component, ComponentStorage, Mut, Resource, StorageView};
pub use system::{IntoSystem, Res, ResMut, SystemParam};
pub use time::{advance_real, clamp_delta, drain_fixed_steps, RealClock, FIXED_DELTA_NANOS, MAX_DELTA_NANOS};
pub use world::{EntityMut, World, WorldView};

verus! {

} // verus!
