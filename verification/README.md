# toktor

A small actor framework for tokio: actors with graceful and hard shutdown,
child actors, and associated tasks that can be shut down with the actor.

- `src/` is the verified library. `model.rs` states what an actor tree is and
  what each shutdown does to it; `actor.rs` holds the tree (`ActorSystem`) and
  the operations of one actor (`ActorContext`), each proved against the model;
  `laws.rs` proves the properties of the library as a whole (propagation to
  children, permanence, hard after graceful, idempotence, and that an actor is
  shut down exactly when a shutdown above it happened after it was created);
  `tasks.rs` holds the trusted declarations of the tokio task sets that each
  actor owns and of the runtime handle that tasks are spawned on.
- `app/` runs the library on tokio: the `Actor` trait, `spawn`, the message
  loop, the queues and `ActorHandle`. A graceful shutdown wakes the loops of
  the actors it stopped, so that each closes its queue, handles what is queued
  and ends.
- `tests/` exercises the library, including real tasks on a tokio runtime.
