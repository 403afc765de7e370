//! An entity-component store with typed queries, deferred edits and an event
//! bus.
//!
//! Components and events are kept type-erased in cells. What a cell is, and
//! how a value gets into one and out again, is the business of the embedding
//! program: it picks a cell type and implements [`traits::Erased`] for it and
//! [`traits::Anyable`] for each of its component and event types. Everything
//! here is proved for every such choice that keeps the laws of those two
//! traits.

pub mod traits;
pub mod entity_set;
pub mod registry;
pub mod state_queue;
pub mod ecs;
pub mod ident;
