//! A small actor framework for tokio, with its supervision rules verified.
//!
//! Each actor has a shutdown state (running, gracefully shut down, hard shut
//! down), a parent (the actor that spawned it, if any) and a set of tasks
//! that live as long as the actor does. [`actor::ActorSystem`] holds every
//! actor of one tree and decides, with proved contracts, what spawning and
//! shutting down do to the whole tree. [`actor::ActorContext`] names one
//! actor of a system and carries the operations an actor performs on itself.
mod tasks;

pub mod actor;
pub mod error;
pub mod laws;
pub mod model;

pub use crate::actor::ActorContext;
pub use crate::actor::ActorSystem;
pub use crate::actor::LoopStep;
pub use crate::error::ActorError;
pub use crate::model::ShutdownState;
