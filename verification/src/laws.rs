//! Properties of the library as a whole, proved over the model.
use crate::actor::{LoopStep, step_for};
use crate::model::{
    ActorView, Operation, ShutdownState, actor_consistent, after_graceful, after_hard,
    after_shutdown, apply, consistent, descends, fresh_actor, is_retired, lemma_rank_grows_downward,
    lineage, rank,
};
use vstd::multiset::Multiset;
use vstd::prelude::*;

verus! {

/// A shutdown, graceful or hard, keeps a consistent system consistent: in
/// particular a child stays shut down at least as far as its parent.
pub proof fn shutdown_keeps_consistency(actors: Seq<ActorView>, id: nat, level: ShutdownState)
    requires
        consistent(actors),
    ensures
        consistent(after_shutdown(actors, id, level)),
{
    let after = after_shutdown(actors, id, level);
    let parents = lineage(actors);
    assert(lineage(after) =~= parents);
    assert forall|j: int| 0 <= j < after.len() implies #[trigger] actor_consistent(after, j) by {
        assert(actor_consistent(actors, j));
        if let Some(p) = actors[j].parent {
            assert(parents[j] == Some(p));
            if descends(parents, p, id) {
                assert(descends(parents, j as nat, id));
            }
        }
    }
}

/// After a graceful shutdown of `id`, the actor and every actor below it are
/// shut down, so each of them refuses messages, tasks and children; the
/// message loop of `id` stops taking new messages (it drains its queue, or
/// stops at once if the actor had been hard shut down before). The tasks of
/// every actor keep running.
pub proof fn graceful_shutdown_reaches_every_descendant(actors: Seq<ActorView>, id: nat)
    requires
        consistent(actors),
        id < actors.len(),
    ensures
        forall|j: int|
            0 <= j < actors.len() && descends(lineage(actors), j as nat, id) ==> #[trigger] after_graceful(
                actors,
                id,
            )[j].state != ShutdownState::Running,
        step_for(after_graceful(actors, id)[id as int].state) != LoopStep::Continue,
        forall|j: int|
            0 <= j < actors.len() ==> #[trigger] after_graceful(actors, id)[j].tasks
                == actors[j].tasks,
{
    assert(descends(lineage(actors), id, id));
}

/// After a hard shutdown of `id`, the actor and every actor below it are hard
/// shut down and all their tasks are aborted; the message loop of `id` stops
/// at once.
pub proof fn hard_shutdown_reaches_every_descendant(actors: Seq<ActorView>, id: nat)
    requires
        consistent(actors),
        id < actors.len(),
    ensures
        forall|j: int|
            0 <= j < actors.len() && descends(lineage(actors), j as nat, id) ==> {
                &&& #[trigger] after_hard(actors, id)[j].state == ShutdownState::Hard
                &&& after_hard(actors, id)[j].tasks is None
            },
        step_for(after_hard(actors, id)[id as int].state) == LoopStep::Stop,
{
    assert(descends(lineage(actors), id, id));
    assert forall|j: int|
        0 <= j < actors.len() && descends(lineage(actors), j as nat, id) implies #[trigger] after_hard(
        actors,
        id,
    )[j].state == ShutdownState::Hard && after_hard(actors, id)[j].tasks is None by {
        assert(actor_consistent(actors, j));
    }
}

/// A shutdown changes no actor outside the tree below the actor shut down;
/// in particular an actor that shuts itself down leaves its parent running.
pub proof fn shutdown_leaves_other_actors_alone(actors: Seq<ActorView>, id: nat, j: int)
    requires
        consistent(actors),
        0 <= j < actors.len(),
        !descends(lineage(actors), j as nat, id),
    ensures
        after_graceful(actors, id)[j] == actors[j],
        after_hard(actors, id)[j] == actors[j],
{
}

/// An actor whose ancestor is shut down is shut down as well (and hard shut
/// down if the ancestor is): this is why spawning fails below an actor that
/// has been shut down.
pub proof fn shutdown_of_an_ancestor_shuts_down_the_actor(actors: Seq<ActorView>, j: nat, a: nat)
    requires
        consistent(actors),
        j < actors.len(),
        descends(lineage(actors), j, a),
    ensures
        actors[a as int].state != ShutdownState::Running ==> actors[j as int].state
            != ShutdownState::Running,
        actors[a as int].state == ShutdownState::Hard ==> actors[j as int].state
            == ShutdownState::Hard,
{
    lemma_rank_grows_downward(actors, j, a);
}

/// A child actor is shut down in the same manner as its parent: after a
/// child of `parent` is spawned, a graceful shutdown of the parent shuts the
/// child down gracefully and a hard shutdown of the parent shuts it down
/// hard.
pub proof fn child_is_shut_down_with_its_parent(actors: Seq<ActorView>, parent: nat)
    requires
        consistent(actors),
        parent < actors.len(),
        actors[parent as int].state == ShutdownState::Running,
    ensures
        ({
            let with_child = actors.push(fresh_actor(Some(parent)));
            let child = actors.len() as int;
            &&& after_graceful(with_child, parent)[child].state == ShutdownState::Graceful
            &&& after_hard(with_child, parent)[child].state == ShutdownState::Hard
            &&& after_hard(with_child, parent)[child].tasks is None
        }),
{
    let with_child = actors.push(fresh_actor(Some(parent)));
    let child = actors.len();
    assert(lineage(with_child)[child as int] == Some(parent));
    assert(descends(lineage(with_child), parent, parent));
    assert(descends(lineage(with_child), child, parent));
}

/// The actors of a system, created empty, after the operations `ops` in order.
pub open spec fn run(ops: Seq<Operation>) -> Seq<ActorView>
    decreases ops.len(),
{
    if ops.len() == 0 {
        Seq::empty()
    } else {
        apply(run(ops.drop_last()), ops.last())
    }
}

/// Operation `i` of `ops` shut down actor `j` or one of its ancestors, after
/// `j` had been created (gracefully or hard when `hard_only` is false, hard
/// only when it is true).
pub open spec fn shuts_down(ops: Seq<Operation>, i: int, j: nat, hard_only: bool) -> bool {
    let before = run(ops.take(i));
    &&& 0 <= i < ops.len()
    &&& j < before.len()
    &&& match ops[i] {
        Operation::GracefulShutdown(a) => !hard_only && descends(lineage(before), j, a),
        Operation::HardShutdown(a) => descends(lineage(before), j, a),
        _ => false,
    }
}

/// An operation keeps the actors that exist, with their parents, and only
/// appends.
proof fn lemma_apply_grows(actors: Seq<ActorView>, op: Operation)
    ensures
        actors.len() <= apply(actors, op).len(),
        forall|k: int|
            0 <= k < actors.len() ==> #[trigger] lineage(apply(actors, op))[k] == lineage(
                actors,
            )[k],
{
}

/// Running a prefix of the operations gives no more actors than running all.
proof fn lemma_run_prefix_len(ops: Seq<Operation>, i: int)
    requires
        0 <= i <= ops.len(),
    ensures
        run(ops.take(i)).len() <= run(ops).len(),
    decreases ops.len(),
{
    if i < ops.len() {
        assert(ops.drop_last().take(i) =~= ops.take(i));
        lemma_run_prefix_len(ops.drop_last(), i);
        lemma_apply_grows(run(ops.drop_last()), ops.last());
    } else {
        assert(ops.take(i) =~= ops);
    }
}

/// An actor is shut down exactly when a graceful or hard shutdown of it or
/// of one of its ancestors happened after it was created; it is hard shut
/// down exactly when such a shutdown was a hard one. A freshly spawned actor
/// is therefore running, and `is_shutdown` reports this history.
pub proof fn shut_down_exactly_after_a_shutdown_above(ops: Seq<Operation>, j: nat)
    requires
        j < run(ops).len(),
    ensures
        run(ops)[j as int].state != ShutdownState::Running <==> exists|i: int|
            #[trigger] shuts_down(ops, i, j, false),
        run(ops)[j as int].state == ShutdownState::Hard <==> exists|i: int|
            #[trigger] shuts_down(ops, i, j, true),
    decreases ops.len(),
{
    let rest = ops.drop_last();
    let last = ops.len() - 1;
    let pre = run(rest);
    let post = run(ops);
    assert(ops.take(last) =~= rest);
    assert(post == apply(pre, ops.last()));
    lemma_apply_grows(pre, ops.last());
    assert forall|i: int| 0 <= i < last implies #[trigger] ops.take(i) == rest.take(i) by {
        assert(ops.take(i) =~= rest.take(i));
    }
    assert forall|i: int, hard: bool| 0 <= i < last implies #[trigger] shuts_down(ops, i, j, hard)
        == shuts_down(rest, i, j, hard) by {
        assert(ops.take(i) == rest.take(i));
        assert(ops[i] == rest[i]);
    }
    if j < pre.len() {
        shut_down_exactly_after_a_shutdown_above(rest, j);
        let hit = match ops.last() {
            Operation::GracefulShutdown(a) => descends(lineage(pre), j, a),
            Operation::HardShutdown(a) => descends(lineage(pre), j, a),
            _ => false,
        };
        assert(shuts_down(ops, last, j, false) == hit);
        if let Operation::HardShutdown(a) = ops.last() {
            assert(shuts_down(ops, last, j, true) == hit);
        } else {
            assert(!shuts_down(ops, last, j, true));
        }
        if exists|i: int| #[trigger] shuts_down(ops, i, j, false) {
            let i = choose|i: int| #[trigger] shuts_down(ops, i, j, false);
            if i < last {
                assert(shuts_down(rest, i, j, false));
            }
        }
        if exists|i: int| #[trigger] shuts_down(ops, i, j, true) {
            let i = choose|i: int| #[trigger] shuts_down(ops, i, j, true);
            if i < last {
                assert(shuts_down(rest, i, j, true));
            }
        }
        if exists|i: int| #[trigger] shuts_down(rest, i, j, false) {
            let i = choose|i: int| #[trigger] shuts_down(rest, i, j, false);
            assert(shuts_down(ops, i, j, false));
        }
        if exists|i: int| #[trigger] shuts_down(rest, i, j, true) {
            let i = choose|i: int| #[trigger] shuts_down(rest, i, j, true);
            assert(shuts_down(ops, i, j, true));
        }
    } else {
        assert(post[j as int] == fresh_actor(post[j as int].parent));
        assert forall|i: int, hard: bool| !#[trigger] shuts_down(ops, i, j, hard) by {
            if 0 <= i < last {
                lemma_run_prefix_len(rest, i);
            }
        }
    }
}

/// A new top-level actor starts running, with its message loop running and
/// its handles held, no parent and no task yet; the actors already there are
/// kept as they were.
pub proof fn a_new_actor_starts_live(actors: Seq<ActorView>)
    ensures
        ({
            let after = apply(actors, Operation::NewActor);
            let fresh = after[actors.len() as int];
            &&& after.len() == actors.len() + 1
            &&& forall|j: int| 0 <= j < actors.len() ==> #[trigger] after[j] == actors[j]
            &&& fresh.state == ShutdownState::Running
            &&& fresh.parent == None::<nat>
            &&& fresh.tasks == Some(Multiset::<()>::empty())
            &&& !fresh.handles_released
            &&& !fresh.loop_finished
        }),
{
}

/// Spawning a child of a running actor appends one running child below it,
/// with its message loop running and its handles held, and no task yet; the
/// actors already there are kept. A shut down actor gets no child.
pub proof fn spawn_child_registers_a_live_child(actors: Seq<ActorView>, parent: nat)
    requires
        parent < actors.len(),
    ensures
        ({
            let after = apply(actors, Operation::SpawnChild(parent));
            let child = actors.len();
            if actors[parent as int].state == ShutdownState::Running {
                &&& after.len() == actors.len() + 1
                &&& forall|j: int| 0 <= j < actors.len() ==> #[trigger] after[j] == actors[j]
                &&& after[child as int].state == ShutdownState::Running
                &&& after[child as int].parent == Some(parent)
                &&& descends(lineage(after), child, parent)
                &&& after[child as int].tasks == Some(Multiset::<()>::empty())
                &&& !after[child as int].handles_released
                &&& !after[child as int].loop_finished
            } else {
                after == actors
            }
        }),
{
    let after = apply(actors, Operation::SpawnChild(parent));
    if actors[parent as int].state == ShutdownState::Running {
        assert(lineage(after)[actors.len() as int] == Some(parent));
        assert(descends(lineage(after), parent, parent));
    }
}

/// The tasks of a child end only once its handles are gone and its message
/// loop has ended: after the handles of a just spawned child are released,
/// its tasks keep running and it can still spawn tasks; once its loop ends
/// too, its tasks are aborted.
pub proof fn a_child_keeps_its_tasks_while_its_loop_runs(actors: Seq<ActorView>, parent: nat)
    requires
        parent < actors.len(),
        actors[parent as int].state == ShutdownState::Running,
    ensures
        ({
            let child = actors.len();
            let released = apply(
                apply(actors, Operation::SpawnChild(parent)),
                Operation::ReleaseHandles(child),
            );
            &&& released[child as int].state == ShutdownState::Running
            &&& released[child as int].tasks == Some(Multiset::<()>::empty())
            &&& apply(released, Operation::SpawnTask(child))[child as int].tasks == Some(
                Multiset::<()>::empty().insert(()),
            )
            &&& apply(released, Operation::FinishLoop(child))[child as int].tasks is None
        }),
{
}

/// A shutdown, graceful or hard, changes only how far actors are shut down
/// and, for a hard shutdown, aborts the tasks of the actors it reaches: the
/// parents, the lifecycle flags and (for a graceful shutdown) the tasks of
/// every actor stay as they were.
pub proof fn shutdown_changes_only_states_and_aborted_tasks(
    actors: Seq<ActorView>,
    id: nat,
    j: int,
)
    requires
        consistent(actors),
        0 <= j < actors.len(),
    ensures
        ({
            let graceful = apply(actors, Operation::GracefulShutdown(id));
            let hard = apply(actors, Operation::HardShutdown(id));
            &&& graceful.len() == actors.len()
            &&& hard.len() == actors.len()
            &&& graceful[j].parent == actors[j].parent
            &&& graceful[j].tasks == actors[j].tasks
            &&& graceful[j].handles_released == actors[j].handles_released
            &&& graceful[j].loop_finished == actors[j].loop_finished
            &&& hard[j].parent == actors[j].parent
            &&& hard[j].handles_released == actors[j].handles_released
            &&& hard[j].loop_finished == actors[j].loop_finished
            &&& hard[j].tasks == if descends(lineage(actors), j as nat, id) {
                None
            } else {
                actors[j].tasks
            }
        }),
{
    assert(actor_consistent(actors, j));
}

/// Associated tasks survive a graceful shutdown and the end of the message
/// loop while a handle remains; they are aborted when the last handle goes.
pub proof fn tasks_outlive_a_graceful_shutdown_until_the_last_handle_goes(
    actors: Seq<ActorView>,
    id: nat,
)
    requires
        consistent(actors),
        id < actors.len(),
        !actors[id as int].handles_released,
    ensures
        ({
            let drained = apply(
                apply(actors, Operation::GracefulShutdown(id)),
                Operation::FinishLoop(id),
            );
            &&& drained[id as int].tasks == actors[id as int].tasks
            &&& !drained[id as int].handles_released
            &&& apply(drained, Operation::ReleaseHandles(id))[id as int].tasks is None
        }),
{
}

/// Spawning a task, releasing the handles and ending the loop of actor `a`
/// change nothing but the tasks and the lifecycle flags of `a`: no actor
/// changes its shutdown state or its parent, and every other actor is kept.
/// Releasing the handles or ending the loop aborts the tasks only once both
/// have happened; spawning adds one task to a running, reachable actor.
pub proof fn lifecycle_operations_touch_one_actor(actors: Seq<ActorView>, a: nat, j: int)
    requires
        a < actors.len(),
        0 <= j < actors.len(),
    ensures
        ({
            let spawned = apply(actors, Operation::SpawnTask(a));
            let released = apply(actors, Operation::ReleaseHandles(a));
            let finished = apply(actors, Operation::FinishLoop(a));
            let before = actors[a as int];
            &&& spawned.len() == actors.len()
            &&& released.len() == actors.len()
            &&& finished.len() == actors.len()
            &&& j != a ==> spawned[j] == actors[j] && released[j] == actors[j] && finished[j]
                == actors[j]
            &&& spawned[a as int].state == before.state
            &&& spawned[a as int].parent == before.parent
            &&& spawned[a as int].handles_released == before.handles_released
            &&& spawned[a as int].loop_finished == before.loop_finished
            &&& spawned[a as int].tasks == if before.state == ShutdownState::Running
                && !is_retired(before) {
                Some(before.tasks->Some_0.insert(()))
            } else {
                before.tasks
            }
            &&& released[a as int].state == before.state
            &&& released[a as int].parent == before.parent
            &&& released[a as int].handles_released
            &&& released[a as int].loop_finished == before.loop_finished
            &&& released[a as int].tasks == if before.loop_finished {
                None
            } else {
                before.tasks
            }
            &&& finished[a as int].state == before.state
            &&& finished[a as int].parent == before.parent
            &&& finished[a as int].handles_released == before.handles_released
            &&& finished[a as int].loop_finished
            &&& finished[a as int].tasks == if before.handles_released {
                None
            } else {
                before.tasks
            }
        }),
{
}

/// The message loop of an actor keeps taking messages exactly while the
/// actor runs, and stops at once exactly when it is hard shut down; after a
/// graceful shutdown it drains its queue.
pub proof fn loop_step_follows_the_shutdown_state(state: ShutdownState)
    ensures
        step_for(state) == LoopStep::Continue <==> state == ShutdownState::Running,
        step_for(state) == LoopStep::Stop <==> state == ShutdownState::Hard,
        step_for(state) == LoopStep::Drain <==> state == ShutdownState::Graceful,
{
}

/// A shutdown is permanent: no actor becomes less shut down than it was.
pub proof fn shutdown_is_permanent(actors: Seq<ActorView>, id: nat, j: int)
    requires
        0 <= j < actors.len(),
    ensures
        rank(actors[j].state) <= rank(after_graceful(actors, id)[j].state),
        rank(actors[j].state) <= rank(after_hard(actors, id)[j].state),
{
}

/// Calling a hard shutdown after a graceful one is the same as a hard
/// shutdown alone.
pub proof fn hard_after_graceful_is_hard(actors: Seq<ActorView>, id: nat)
    requires
        consistent(actors),
    ensures
        after_hard(after_graceful(actors, id), id) == after_hard(actors, id),
{
    let once = after_graceful(actors, id);
    assert(lineage(once) =~= lineage(actors));
    assert(after_hard(once, id) =~= after_hard(actors, id));
}

/// A graceful shutdown after a hard one changes nothing.
pub proof fn graceful_after_hard_changes_nothing(actors: Seq<ActorView>, id: nat)
    requires
        consistent(actors),
    ensures
        after_graceful(after_hard(actors, id), id) == after_hard(actors, id),
{
    let once = after_hard(actors, id);
    assert(lineage(once) =~= lineage(actors));
    assert(after_graceful(once, id) =~= once);
}

/// Shutting down the same actor twice in the same way is the same as once.
pub proof fn shutdown_is_idempotent(actors: Seq<ActorView>, id: nat)
    requires
        consistent(actors),
    ensures
        after_graceful(after_graceful(actors, id), id) == after_graceful(actors, id),
        after_hard(after_hard(actors, id), id) == after_hard(actors, id),
{
    let graceful = after_graceful(actors, id);
    assert(lineage(graceful) =~= lineage(actors));
    assert(after_graceful(graceful, id) =~= graceful);
    let hard = after_hard(actors, id);
    assert(lineage(hard) =~= lineage(actors));
    assert(after_hard(hard, id) =~= hard);
}

} // verus!
