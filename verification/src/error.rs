use vstd::prelude::*;

verus! {

/// The error returned from spawning a task, spawning a child actor or
/// sending a message.
///
/// Such an operation fails only when the actor has been shut down, gracefully
/// or hard, either by itself or through an actor in its parent chain.
#[derive(Debug, Clone, Copy, PartialEq, Eq, Structural)]
pub enum ActorError {
    ShutDown,
}

impl ActorError {
    /// The human-readable message of this error.
    pub fn message(&self) -> (text: &'static str)
        ensures
            text@ == "actor is shut down"@,
    {
        match self {
            ActorError::ShutDown => "actor is shut down",
        }
    }
}

} // verus!
