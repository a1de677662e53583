//! The mathematical model of a tree of actors: what each operation does to it.
use vstd::multiset::Multiset;
use vstd::prelude::*;

verus! {

/// How far an actor has been shut down.
#[derive(Debug, Clone, Copy, PartialEq, Eq, Structural)]
pub enum ShutdownState {
    /// The actor takes messages, tasks and children.
    Running,
    /// The actor finishes the messages already queued, then stops; its tasks
    /// keep running.
    Graceful,
    /// The actor stops at once and its tasks are aborted.
    Hard,
}

/// Shutdown states in the order in which an actor can pass through them.
pub open spec fn rank(state: ShutdownState) -> nat {
    match state {
        ShutdownState::Running => 0,
        ShutdownState::Graceful => 1,
        ShutdownState::Hard => 2,
    }
}

/// What the library knows of one actor.
pub struct ActorView {
    pub state: ShutdownState,
    /// The actor that spawned this one as its child, if any.
    pub parent: Option<nat>,
    /// The tasks of the actor (its message loop and its associated tasks),
    /// while they may still run.
    pub tasks: Option<Multiset<()>>,
    /// No handle to the actor remains.
    pub handles_released: bool,
    /// The message loop of the actor has ended.
    pub loop_finished: bool,
}

/// An actor that nothing can reach any more: its handles are gone and its
/// message loop has ended.
pub open spec fn is_retired(actor: ActorView) -> bool {
    actor.handles_released && actor.loop_finished
}

/// An actor that has just been created.
pub open spec fn fresh_actor(parent: Option<nat>) -> ActorView {
    ActorView {
        state: ShutdownState::Running,
        parent,
        tasks: Some(Multiset::empty()),
        handles_released: false,
        loop_finished: false,
    }
}

/// The parent of every actor.
pub open spec fn lineage(actors: Seq<ActorView>) -> Seq<Option<nat>> {
    actors.map_values(|actor: ActorView| actor.parent)
}

/// `j` is `a` or an actor below `a`: following parents from `j` reaches `a`.
pub open spec fn descends(parents: Seq<Option<nat>>, j: nat, a: nat) -> bool
    decreases j,
{
    j == a || (j < parents.len() && match parents[j as int] {
        Some(p) => p < j && descends(parents, p, a),
        None => false,
    })
}

/// The rules that every actor of a system keeps: a parent was created before
/// its children, a child is shut down at least as far as its parent, and the
/// tasks of an actor are kept exactly while it is not hard shut down and
/// still reachable.
pub open spec fn actor_consistent(actors: Seq<ActorView>, j: int) -> bool {
    let actor = actors[j];
    &&& (actor.tasks is Some <==> (actor.state != ShutdownState::Hard && !is_retired(actor)))
    &&& match actor.parent {
        Some(p) => p < j && rank(actors[p as int].state) <= rank(actor.state),
        None => true,
    }
}

/// Every actor of the sequence keeps the rules of [`actor_consistent`].
pub open spec fn consistent(actors: Seq<ActorView>) -> bool {
    forall|j: int| 0 <= j < actors.len() ==> #[trigger] actor_consistent(actors, j)
}

/// `actor` after a shutdown to `level` reaches it: an actor not yet shut down
/// that far moves to `level`, and a hard shutdown drops its tasks. An actor
/// already shut down that far is left as it is.
pub open spec fn raise(actor: ActorView, level: ShutdownState) -> ActorView {
    if rank(actor.state) < rank(level) {
        ActorView {
            state: level,
            tasks: if level == ShutdownState::Hard {
                None
            } else {
                actor.tasks
            },
            ..actor
        }
    } else {
        actor
    }
}

/// The actors after a shutdown of `id` to `level`: every actor at or below
/// `id` is raised to `level`; nothing else changes.
pub open spec fn after_shutdown(actors: Seq<ActorView>, id: nat, level: ShutdownState) -> Seq<
    ActorView,
> {
    Seq::new(
        actors.len(),
        |j: int|
            if descends(lineage(actors), j as nat, id) {
                raise(actors[j], level)
            } else {
                actors[j]
            },
    )
}

/// Actor `j` is one that a shutdown of `id` to `level` changes: it lies at
/// or below `id` and is not yet shut down that far.
pub open spec fn reached(actors: Seq<ActorView>, id: nat, level: ShutdownState, j: nat) -> bool {
    &&& j < actors.len()
    &&& descends(lineage(actors), j, id)
    &&& rank(actors[j as int].state) < rank(level)
}

/// The actors after a graceful shutdown of `id`: every running actor at or
/// below `id` becomes gracefully shut down; nothing else changes.
pub open spec fn after_graceful(actors: Seq<ActorView>, id: nat) -> Seq<ActorView> {
    after_shutdown(actors, id, ShutdownState::Graceful)
}

/// The actors after a hard shutdown of `id`: every actor at or below `id`
/// that is not hard shut down yet becomes so and its tasks are aborted;
/// nothing else changes.
pub open spec fn after_hard(actors: Seq<ActorView>, id: nat) -> Seq<ActorView> {
    after_shutdown(actors, id, ShutdownState::Hard)
}

/// One operation of the library on the actors of a system, as an actor or a
/// handle performs it.
pub enum Operation {
    /// `ActorContext::new`: a new top-level actor.
    NewActor,
    /// `ActorContext::spawn_child` on the given actor.
    SpawnChild(nat),
    /// `ActorContext::spawn` of an associated task on the given actor.
    SpawnTask(nat),
    /// `ActorContext::graceful_shutdown` of the given actor.
    GracefulShutdown(nat),
    /// `ActorContext::hard_shutdown` of the given actor.
    HardShutdown(nat),
    /// `ActorContext::release_handles` of the given actor.
    ReleaseHandles(nat),
    /// `ActorContext::finish_loop` of the given actor.
    FinishLoop(nat),
}

/// The actors after `op`: the contract of each operation of
/// [`crate::actor::ActorContext`] states its effect as this function.
pub open spec fn apply(actors: Seq<ActorView>, op: Operation) -> Seq<ActorView> {
    match op {
        Operation::NewActor => actors.push(fresh_actor(None)),
        Operation::SpawnChild(p) => if p < actors.len() && actors[p as int].state
            == ShutdownState::Running {
            actors.push(fresh_actor(Some(p)))
        } else {
            actors
        },
        Operation::SpawnTask(a) => if a < actors.len() && actors[a as int].state
            == ShutdownState::Running && !is_retired(actors[a as int]) {
            actors.update(
                a as int,
                ActorView { tasks: Some(actors[a as int].tasks->Some_0.insert(())), ..actors[a as int] },
            )
        } else {
            actors
        },
        Operation::GracefulShutdown(a) => after_graceful(actors, a),
        Operation::HardShutdown(a) => after_hard(actors, a),
        Operation::ReleaseHandles(a) => if a < actors.len() {
            actors.update(
                a as int,
                ActorView {
                    handles_released: true,
                    tasks: if actors[a as int].loop_finished {
                        None
                    } else {
                        actors[a as int].tasks
                    },
                    ..actors[a as int]
                },
            )
        } else {
            actors
        },
        Operation::FinishLoop(a) => if a < actors.len() {
            actors.update(
                a as int,
                ActorView {
                    loop_finished: true,
                    tasks: if actors[a as int].handles_released {
                        None
                    } else {
                        actors[a as int].tasks
                    },
                    ..actors[a as int]
                },
            )
        } else {
            actors
        },
    }
}

/// A descendant never comes before its ancestor.
pub proof fn lemma_descends_not_before(parents: Seq<Option<nat>>, j: nat, a: nat)
    requires
        descends(parents, j, a),
    ensures
        a <= j,
    decreases j,
{
    if j != a {
        let p = parents[j as int]->Some_0;
        lemma_descends_not_before(parents, p, a);
    }
}

/// Descent is transitive.
pub proof fn lemma_descends_transitive(parents: Seq<Option<nat>>, j: nat, b: nat, a: nat)
    requires
        descends(parents, j, b),
        descends(parents, b, a),
    ensures
        descends(parents, j, a),
    decreases j,
{
    if j != b {
        let p = parents[j as int]->Some_0;
        lemma_descends_transitive(parents, p, b, a);
    }
}

/// In a consistent system, an actor is shut down at least as far as each of
/// its ancestors.
pub proof fn lemma_rank_grows_downward(actors: Seq<ActorView>, j: nat, a: nat)
    requires
        consistent(actors),
        j < actors.len(),
        descends(lineage(actors), j, a),
    ensures
        rank(actors[a as int].state) <= rank(actors[j as int].state),
    decreases j,
{
    if j != a {
        let p = actors[j as int].parent->Some_0;
        assert(actor_consistent(actors, j as int));
        lemma_rank_grows_downward(actors, p, a);
    }
}

} // verus!
