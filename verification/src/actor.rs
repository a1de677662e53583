//! The actors of one tree, and the operations an actor performs through its
//! context.
use crate::error::ActorError;
use crate::laws::shutdown_keeps_consistency;
use crate::model::{
    ActorView, Operation, ShutdownState, actor_consistent, after_graceful, apply, after_hard, after_shutdown,
    consistent, descends, fresh_actor, is_retired, lemma_descends_not_before,
    lemma_descends_transitive, lemma_rank_grows_downward, lineage, rank, reached,
};
use crate::tasks::{held_tasks, new_task_set, spawn_in_set};
use std::future::Future;
use tokio::runtime::Handle;
use tokio::task::{AbortHandle, JoinSet};
use vstd::prelude::*;

verus! {

/// One actor as the system stores it.
struct Node {
    state: ShutdownState,
    parent: Option<usize>,
    /// Every actor whose parent this one is.
    children: Vec<usize>,
    /// The task set of the actor; dropping it aborts the tasks.
    tasks: Option<JoinSet<()>>,
    handles_released: bool,
    loop_finished: bool,
}

spec fn node_view(node: Node) -> ActorView {
    ActorView {
        state: node.state,
        parent: match node.parent {
            Some(p) => Some(p as nat),
            None => None,
        },
        tasks: match node.tasks {
            Some(set) => Some(held_tasks(set)),
            None => None,
        },
        handles_released: node.handles_released,
        loop_finished: node.loop_finished,
    }
}

spec fn view_of(nodes: Seq<Node>) -> Seq<ActorView> {
    nodes.map_values(|node: Node| node_view(node))
}

/// The children list of actor `i` holds exactly the actors whose parent `i` is.
spec fn children_listed(nodes: Seq<Node>, i: int) -> bool {
    &&& forall|k: int|
        0 <= k < nodes[i].children@.len() ==> {
            let c = #[trigger] nodes[i].children@[k];
            &&& i < c < nodes.len()
            &&& nodes[c as int].parent == Some(i as usize)
        }
    &&& forall|j: int|
        i < j < nodes.len() && #[trigger] nodes[j].parent == Some(i as usize)
            ==> nodes[i].children@.contains(j as usize)
}

spec fn well_linked(nodes: Seq<Node>) -> bool {
    forall|i: int| 0 <= i < nodes.len() ==> #[trigger] children_listed(nodes, i)
}

/// Actor `n` after a shutdown to `level` that reaches it when `hit` holds.
spec fn raise_node(n: Node, hit: bool, level: ShutdownState) -> Node {
    if hit && rank(n.state) < rank(level) {
        Node {
            state: level,
            tasks: if level == ShutdownState::Hard {
                None
            } else {
                n.tasks
            },
            ..n
        }
    } else {
        n
    }
}

/// Some child among the first `k` of `children` has `j` at or below it.
spec fn below_one_of(parents: Seq<Option<nat>>, j: int, children: Seq<usize>, k: int) -> bool {
    exists|m: int| 0 <= m < k && descends(parents, j as nat, #[trigger] children[m] as nat)
}

/// All actors of one tree: the top actor and every actor spawned below it.
pub struct ActorSystem {
    nodes: Vec<Node>,
}

impl View for ActorSystem {
    type V = Seq<ActorView>;

    closed spec fn view(&self) -> Seq<ActorView> {
        view_of(self.nodes@)
    }
}

impl ActorSystem {
    #[verifier::type_invariant]
    spec fn inv(self) -> bool {
        &&& well_linked(self.nodes@)
        &&& consistent(view_of(self.nodes@))
    }

    /// A system with no actor.
    pub fn new() -> (system: ActorSystem)
        ensures
            system@ == Seq::<ActorView>::empty(),
    {
        let system = ActorSystem { nodes: Vec::new() };
        assert(system@ =~= Seq::<ActorView>::empty());
        system
    }

    /// The number of actors in the system.
    pub fn len(&self) -> (n: usize)
        ensures
            n == self@.len(),
            consistent(self@),
    {
        proof {
            use_type_invariant(self);
        }
        self.nodes.len()
    }
}

/// What the message loop of an actor does after handling a message.
#[derive(Debug, Clone, Copy, PartialEq, Eq, Structural)]
pub enum LoopStep {
    /// Wait for the next message.
    Continue,
    /// Close the queue, handle the messages already in it, then end.
    Drain,
    /// Close the queue and end now.
    Stop,
}

/// The loop step for an actor in `state`.
pub open spec fn step_for(state: ShutdownState) -> LoopStep {
    match state {
        ShutdownState::Running => LoopStep::Continue,
        ShutdownState::Graceful => LoopStep::Drain,
        ShutdownState::Hard => LoopStep::Stop,
    }
}

/// An actor of an [`ActorSystem`]: through it the actor spawns associated
/// tasks and child actors, and shuts itself down.
#[derive(Debug, Clone, Copy, PartialEq, Eq, Structural)]
pub struct ActorContext {
    id: usize,
}

impl View for ActorContext {
    type V = nat;

    closed spec fn view(&self) -> nat {
        self.id as nat
    }
}

proof fn lemma_view_push(nodes: Seq<Node>, node: Node)
    ensures
        view_of(nodes.push(node)) =~= view_of(nodes).push(node_view(node)),
{
}

/// Every actor strictly below `id` is at or below one of its children.
proof fn lemma_below_a_child(nodes: Seq<Node>, id: int, j: int)
    requires
        well_linked(nodes),
        consistent(view_of(nodes)),
        nodes.len() <= usize::MAX,
        0 <= id < nodes.len(),
        0 <= j < nodes.len(),
        j != id,
        descends(lineage(view_of(nodes)), j as nat, id as nat),
    ensures
        below_one_of(
            lineage(view_of(nodes)),
            j,
            nodes[id].children@,
            nodes[id].children@.len() as int,
        ),
    decreases j,
{
    let parents = lineage(view_of(nodes));
    let p = parents[j]->Some_0;
    assert(node_view(nodes[j]).parent == parents[j]);
    let pu = nodes[j].parent->Some_0;
    assert(p == pu as nat);
    assert(children_listed(nodes, id));
    if p == id {
        assert(nodes[j].parent == Some(id as usize));
        assert(nodes[id].children@.contains(j as usize));
        let m = choose|m: int|
            0 <= m < nodes[id].children@.len() && nodes[id].children@[m] == j as usize;
        assert(descends(parents, j as nat, nodes[id].children@[m] as nat));
    } else {
        lemma_below_a_child(nodes, id, p as int);
        let m = choose|m: int|
            0 <= m < nodes[id].children@.len() && descends(
                parents,
                p,
                #[trigger] nodes[id].children@[m] as nat,
            );
        assert(descends(parents, j as nat, nodes[id].children@[m] as nat));
    }
}

/// A child of `id` lies below `id`.
proof fn lemma_child_below(nodes: Seq<Node>, id: int, k: int, j: int)
    requires
        well_linked(nodes),
        nodes.len() <= usize::MAX,
        0 <= id < nodes.len(),
        0 <= k < nodes[id].children@.len(),
        descends(lineage(view_of(nodes)), j as nat, nodes[id].children@[k] as nat),
    ensures
        descends(lineage(view_of(nodes)), j as nat, id as nat),
{
    let parents = lineage(view_of(nodes));
    let c = nodes[id].children@[k];
    assert(children_listed(nodes, id));
    assert(node_view(nodes[c as int]).parent == parents[c as int]);
    assert(parents[c as int] == Some(id as nat));
    assert(c < parents.len());
    assert(descends(parents, id as nat, id as nat));
    assert(descends(parents, c as nat, id as nat));
    lemma_descends_transitive(parents, j as nat, c as nat, id as nat);
}

/// An actor is not below any of its own children.
proof fn lemma_not_below_own_children(nodes: Seq<Node>, id: int, k: int)
    requires
        well_linked(nodes),
        nodes.len() <= usize::MAX,
        0 <= id < nodes.len(),
        0 <= k <= nodes[id].children@.len(),
    ensures
        !below_one_of(lineage(view_of(nodes)), id, nodes[id].children@, k),
{
    let parents = lineage(view_of(nodes));
    if below_one_of(parents, id, nodes[id].children@, k) {
        let m = choose|m: int|
            0 <= m < k && descends(parents, id as nat, #[trigger] nodes[id].children@[m] as nat);
        assert(children_listed(nodes, id));
        lemma_descends_not_before(parents, id as nat, nodes[id].children@[m] as nat);
    }
}

/// Taking one more child into account adds the actors below that child.
proof fn lemma_below_one_more(parents: Seq<Option<nat>>, j: int, children: Seq<usize>, k: int)
    requires
        0 <= k < children.len(),
    ensures
        below_one_of(parents, j, children, k + 1) == (below_one_of(parents, j, children, k)
            || descends(parents, j as nat, children[k] as nat)),
{
    if below_one_of(parents, j, children, k + 1) && !below_one_of(parents, j, children, k) {
        let m = choose|m: int| 0 <= m < k + 1 && descends(parents, j as nat, #[trigger] children[m] as nat);
        assert(m == k);
    }
}

/// An actor other than `id` lies below `id` exactly when it lies at or below
/// one of the children of `id`.
proof fn lemma_below_children_iff_below(nodes: Seq<Node>, id: int, j: int)
    requires
        well_linked(nodes),
        consistent(view_of(nodes)),
        nodes.len() <= usize::MAX,
        0 <= id < nodes.len(),
        0 <= j < nodes.len(),
        j != id,
    ensures
        below_one_of(
            lineage(view_of(nodes)),
            j,
            nodes[id].children@,
            nodes[id].children@.len() as int,
        ) <==> descends(lineage(view_of(nodes)), j as nat, id as nat),
{
    let parents = lineage(view_of(nodes));
    if descends(parents, j as nat, id as nat) {
        lemma_below_a_child(nodes, id, j);
    }
    if below_one_of(parents, j, nodes[id].children@, nodes[id].children@.len() as int) {
        let m = choose|m: int|
            0 <= m < nodes[id].children@.len() && descends(
                parents,
                j as nat,
                #[trigger] nodes[id].children@[m] as nat,
            );
        lemma_child_below(nodes, id, m, j);
    }
}

/// Raising the nodes at or below `id` gives the view that the model states.
proof fn lemma_view_after_shutdown(
    before: Seq<Node>,
    after: Seq<Node>,
    id: int,
    level: ShutdownState,
)
    requires
        after.len() == before.len(),
        forall|j: int|
            0 <= j < before.len() ==> #[trigger] after[j] == raise_node(
                before[j],
                descends(lineage(view_of(before)), j as nat, id as nat),
                level,
            ),
    ensures
        view_of(after) =~= after_shutdown(view_of(before), id as nat, level),
{
    assert forall|j: int| 0 <= j < before.len() implies view_of(after)[j] == after_shutdown(
        view_of(before),
        id as nat,
        level,
    )[j] by {
        assert(after[j] == raise_node(
            before[j],
            descends(lineage(view_of(before)), j as nat, id as nat),
            level,
        ));
    }
}

/// Changing only the lifecycle flags and the task set of one actor, in a way
/// that keeps its own rule, keeps the system well formed.
proof fn lemma_lifecycle_step(before: Seq<Node>, after: Seq<Node>, id: int)
    requires
        well_linked(before),
        consistent(view_of(before)),
        0 <= id < before.len(),
        after.len() == before.len(),
        forall|j: int| 0 <= j < before.len() && j != id ==> after[j] == before[j],
        after[id].state == before[id].state,
        after[id].parent == before[id].parent,
        after[id].children == before[id].children,
        after[id].tasks is Some <==> (after[id].state != ShutdownState::Hard && !(
        after[id].handles_released && after[id].loop_finished)),
    ensures
        well_linked(after),
        consistent(view_of(after)),
{
    assert forall|i: int| 0 <= i < after.len() implies #[trigger] children_listed(after, i) by {
        assert(children_listed(before, i));
        assert forall|j: int| 0 <= j < after.len() implies after[j].parent == before[j].parent by {
        }
    }
    assert forall|j: int| 0 <= j < after.len() implies #[trigger] actor_consistent(
        view_of(after),
        j,
    ) by {
        assert(actor_consistent(view_of(before), j));
    }
}

/// Whether an actor in `state` is not yet shut down as far as `level`.
fn falls_short(state: ShutdownState, level: ShutdownState) -> (short: bool)
    ensures
        short == (rank(state) < rank(level)),
{
    match (state, level) {
        (ShutdownState::Running, ShutdownState::Running) => false,
        (ShutdownState::Running, _) => true,
        (ShutdownState::Graceful, ShutdownState::Hard) => true,
        _ => false,
    }
}

/// The entries of `stopped` from `from` on are exactly the actors that a
/// shutdown of `id` to `level` changes in `actors`.
spec fn lists_reached(
    stopped: Seq<ActorContext>,
    from: int,
    actors: Seq<ActorView>,
    id: nat,
    level: ShutdownState,
) -> bool {
    &&& forall|i: int| from <= i < stopped.len() ==> reached(actors, id, level, #[trigger] stopped[i]@)
    &&& forall|j: nat| #[trigger] reached(actors, id, level, j) ==> exists|i: int|
        from <= i < stopped.len() && stopped[i]@ == j
}

/// Shuts down `id` and every actor below it to `level`, and appends to
/// `stopped` each actor whose state changed. Children are shut down before
/// their parent, so the system stays consistent after each step.
fn shut_down_from(
    nodes: &mut Vec<Node>,
    id: usize,
    level: ShutdownState,
    stopped: &mut Vec<ActorContext>,
)
    requires
        well_linked(old(nodes)@),
        consistent(view_of(old(nodes)@)),
        id < old(nodes)@.len(),
    ensures
        well_linked(final(nodes)@),
        consistent(view_of(final(nodes)@)),
        final(nodes)@.len() == old(nodes)@.len(),
        forall|j: int|
            0 <= j < old(nodes)@.len() ==> #[trigger] final(nodes)@[j] == raise_node(
                old(nodes)@[j],
                descends(lineage(view_of(old(nodes)@)), j as nat, id as nat),
                level,
            ),
        final(stopped)@.len() >= old(stopped)@.len(),
        forall|i: int| 0 <= i < old(stopped)@.len() ==> final(stopped)@[i] == old(stopped)@[i],
        lists_reached(
            final(stopped)@,
            old(stopped)@.len() as int,
            view_of(old(nodes)@),
            id as nat,
            level,
        ),
    decreases old(nodes)@.len() - id,
{
    let ghost start = nodes@;
    let ghost parents = lineage(view_of(start));
    let ghost base = stopped@;
    let total = nodes.len();
    if !falls_short(nodes[id].state, level) {
        assert forall|j: int| 0 <= j < start.len() && descends(parents, j as nat, id as nat)
            implies rank(level) <= rank(start[j].state) by {
            lemma_rank_grows_downward(view_of(start), j as nat, id as nat);
        }
        assert(nodes@ =~= start);
        return;
    }
    let n = nodes[id].children.len();
    let mut k: usize = 0;
    while k < n
        invariant
            well_linked(nodes@),
            consistent(view_of(nodes@)),
            nodes@.len() == start.len(),
            start == old(nodes)@,
            start.len() <= usize::MAX,
            id < start.len(),
            k <= n,
            n == start[id as int].children@.len(),
            parents == lineage(view_of(start)),
            well_linked(start),
            rank(start[id as int].state) < rank(level),
            forall|j: int|
                0 <= j < start.len() ==> #[trigger] nodes@[j] == raise_node(
                    start[j],
                    below_one_of(parents, j, start[id as int].children@, k as int),
                    level,
                ),
            base == old(stopped)@,
            stopped@.len() >= base.len(),
            forall|i: int| 0 <= i < base.len() ==> stopped@[i] == base[i],
            forall|i: int|
                base.len() <= i < stopped@.len() ==> #[trigger] stopped@[i]@ < start.len()
                    && below_one_of(parents, stopped@[i]@ as int, start[id as int].children@, k as int)
                    && rank(start[stopped@[i]@ as int].state) < rank(level),
            forall|j: nat|
                j < start.len() && #[trigger] below_one_of(
                    parents,
                    j as int,
                    start[id as int].children@,
                    k as int,
                ) && rank(start[j as int].state) < rank(level) ==> exists|i: int|
                    base.len() <= i < stopped@.len() && stopped@[i]@ == j,
        decreases n - k,
    {
        proof {
            lemma_not_below_own_children(start, id as int, k as int);
        }
        let c = nodes[id].children[k];
        assert(children_listed(start, id as int));
        assert(start[id as int].children@[k as int] == c);
        assert(id < c && c < start.len());
        let ghost before = nodes@;
        let ghost mid = stopped@;
        assert(lineage(view_of(before)) =~= parents) by {
            assert forall|j: int| 0 <= j < before.len() implies lineage(view_of(before))[j]
                == parents[j] by {
                assert(before[j] == raise_node(
                    start[j],
                    below_one_of(parents, j, start[id as int].children@, k as int),
                    level,
                ));
            }
        }
        shut_down_from(nodes, c, level, stopped);
        proof {
            let children = start[id as int].children@;
            assert forall|j: int| 0 <= j < start.len() implies #[trigger] nodes@[j] == raise_node(
                start[j],
                below_one_of(parents, j, children, k + 1),
                level,
            ) by {
                lemma_below_one_more(parents, j, children, k as int);
                assert(nodes@[j] == raise_node(before[j], descends(parents, j as nat, c as nat), level));
            }
            assert forall|i: int| base.len() <= i < stopped@.len() implies #[trigger] stopped@[i]@
                < start.len() && below_one_of(parents, stopped@[i]@ as int, children, k + 1)
                && rank(start[stopped@[i]@ as int].state) < rank(level) by {
                let j = stopped@[i]@;
                lemma_below_one_more(parents, j as int, children, k as int);
                if i >= mid.len() {
                    assert(reached(view_of(before), c as nat, level, j));
                    assert(view_of(before)[j as int].state == before[j as int].state);
                } else {
                    assert(stopped@[i] == mid[i]);
                }
            }
            assert forall|j: nat|
                j < start.len() && #[trigger] below_one_of(parents, j as int, children, k + 1)
                    && rank(start[j as int].state) < rank(level) implies exists|i: int|
                base.len() <= i < stopped@.len() && stopped@[i]@ == j by {
                lemma_below_one_more(parents, j as int, children, k as int);
                if below_one_of(parents, j as int, children, k as int) {
                    let i = choose|i: int| base.len() <= i < mid.len() && mid[i]@ == j;
                    assert(stopped@[i] == mid[i]);
                } else {
                    assert(view_of(before)[j as int].state == before[j as int].state);
                    assert(reached(view_of(before), c as nat, level, j));
                }
            }
        }
        k = k + 1;
    }
    proof {
        lemma_not_below_own_children(start, id as int, k as int);
    }
    let ghost before_mark = nodes@;
    nodes[id].state = level;
    match level {
        ShutdownState::Hard => {
            nodes[id].tasks = None;
        },
        _ => {},
    }
    let ghost before_push = stopped@;
    stopped.push(ActorContext { id });
    proof {
        let children = start[id as int].children@;
        assert forall|j: int| 0 <= j < start.len() implies #[trigger] nodes@[j] == raise_node(
            start[j],
            descends(parents, j as nat, id as nat),
            level,
        ) by {
            assert(descends(parents, id as nat, id as nat));
            if j != id as int {
                assert(nodes@[j] == before_mark[j]);
                lemma_below_children_iff_below(start, id as int, j);
            }
        }
        assert forall|i: int| base.len() <= i < stopped@.len() implies reached(
            view_of(start),
            id as nat,
            level,
            #[trigger] stopped@[i]@,
        ) by {
            let j = stopped@[i]@;
            assert(descends(parents, id as nat, id as nat));
            if i < before_push.len() {
                assert(stopped@[i] == before_push[i]);
                lemma_below_children_iff_below(start, id as int, j as int);
            }
            assert(view_of(start)[j as int].state == start[j as int].state);
        }
        assert forall|j: nat| #[trigger] reached(view_of(start), id as nat, level, j) implies exists|
            i: int,
        | base.len() <= i < stopped@.len() && stopped@[i]@ == j by {
            assert(view_of(start)[j as int].state == start[j as int].state);
            if j == id as nat {
                assert(stopped@[before_push.len() as int]@ == j);
            } else {
                lemma_below_children_iff_below(start, id as int, j as int);
                let i = choose|i: int| base.len() <= i < before_push.len() && before_push[i]@ == j;
                assert(stopped@[i] == before_push[i]);
            }
        }
        assert(view_of(nodes@) =~= after_shutdown(view_of(start), id as nat, level)) by {
            assert forall|j: int| 0 <= j < start.len() implies view_of(nodes@)[j]
                == after_shutdown(view_of(start), id as nat, level)[j] by {
                assert(lineage(view_of(start))[j] == parents[j]);
            }
        }
        shutdown_keeps_consistency(view_of(start), id as nat, level);
        assert forall|i: int| 0 <= i < nodes@.len() implies #[trigger] children_listed(nodes@, i) by {
            assert(children_listed(start, i));
            assert forall|j: int| 0 <= j < nodes@.len() implies nodes@[j].parent == start[j].parent
                && nodes@[j].children == start[j].children by {
                assert(nodes@[j] == raise_node(start[j], descends(parents, j as nat, id as nat), level));
            }
        }
    }
}

impl ActorContext {
    /// The index of this actor in its system.
    pub fn id(&self) -> (id: usize)
        ensures
            id == self@,
    {
        self.id
    }

    /// Creates a new top-level actor in `system`: it is running, has no
    /// parent and no task yet.
    pub fn new(system: &mut ActorSystem) -> (ctx: ActorContext)
        requires
            old(system)@.len() < usize::MAX,
        ensures
            ctx@ == old(system)@.len(),
            final(system)@ == old(system)@.push(fresh_actor(None)),
            final(system)@ == apply(old(system)@, Operation::NewActor),
            consistent(final(system)@),
    {
        proof {
            use_type_invariant(&*system);
        }
        let mut nodes: Vec<Node> = Vec::new();
        std::mem::swap(&mut nodes, &mut system.nodes);
        let ghost before = nodes@;
        let id = nodes.len();
        let set = new_task_set();
        nodes.push(
            Node {
                state: ShutdownState::Running,
                parent: None,
                children: Vec::new(),
                tasks: Some(set),
                handles_released: false,
                loop_finished: false,
            },
        );
        proof {
            lemma_view_push(before, nodes@[id as int]);
            assert(node_view(nodes@[id as int]) == fresh_actor(None));
            assert(view_of(nodes@) =~= view_of(before).push(fresh_actor(None)));
            assert forall|i: int| 0 <= i < nodes@.len() implies #[trigger] children_listed(
                nodes@,
                i,
            ) by {
                if i < id {
                    assert(children_listed(before, i));
                    assert(nodes@[i] == before[i]);
                }
            }
            assert forall|j: int| 0 <= j < nodes@.len() implies #[trigger] actor_consistent(
                view_of(nodes@),
                j,
            ) by {
                if j < id {
                    assert(actor_consistent(view_of(before), j));
                }
            }
        }
        system.nodes = nodes;
        ActorContext { id }
    }

    /// Whether this actor has been shut down, gracefully or hard.
    pub fn is_shutdown(&self, system: &ActorSystem) -> (shut: bool)
        requires
            self@ < system@.len(),
        ensures
            shut == (system@[self@ as int].state != ShutdownState::Running),
            consistent(system@),
    {
        proof {
            use_type_invariant(system);
        }
        match system.nodes[self.id].state {
            ShutdownState::Running => false,
            _ => true,
        }
    }

    /// Spawns an associated task for this actor on the tokio runtime that
    /// `runtime` refers to: the task runs until the actor is hard shut down,
    /// or until the actor is unreachable (its handles are gone and its message
    /// loop has ended).
    ///
    /// Fails with [`ActorError::ShutDown`] when the actor has been shut down,
    /// gracefully or hard, or is unreachable.
    pub fn spawn<F>(&self, system: &mut ActorSystem, task: F, runtime: &Handle) -> (result: Result<
        AbortHandle,
        ActorError,
    >) where F: Future<Output = ()> + Send + 'static
        requires
            self@ < old(system)@.len(),
        ensures
            final(system)@ == apply(old(system)@, Operation::SpawnTask(self@)),
            consistent(final(system)@),
            result is Ok <==> (old(system)@[self@ as int].state == ShutdownState::Running
                && !is_retired(old(system)@[self@ as int])),
            result is Ok ==> final(system)@ == old(system)@.update(
                self@ as int,
                ActorView {
                    tasks: Some(old(system)@[self@ as int].tasks->Some_0.insert(())),
                    ..old(system)@[self@ as int]
                },
            ),
            result matches Err(e) ==> e == ActorError::ShutDown && final(system)@ == old(
                system,
            )@,
    {
        proof {
            use_type_invariant(&*system);
        }
        let id = self.id;
        let open = match system.nodes[id].state {
            ShutdownState::Running => !(system.nodes[id].handles_released
                && system.nodes[id].loop_finished),
            _ => false,
        };
        if !open {
            return Err(ActorError::ShutDown);
        }
        let mut nodes: Vec<Node> = Vec::new();
        std::mem::swap(&mut nodes, &mut system.nodes);
        let ghost before = nodes@;
        proof {
            assert(actor_consistent(view_of(before), id as int));
        }
        let mut set = nodes[id].tasks.take().unwrap();
        let handle = spawn_in_set(&mut set, task, runtime);
        nodes[id].tasks = Some(set);
        proof {
            let a = view_of(before)[id as int];
            assert(view_of(nodes@) =~= view_of(before).update(
                id as int,
                ActorView { tasks: Some(a.tasks->Some_0.insert(())), ..a },
            ));
            assert forall|i: int| 0 <= i < nodes@.len() implies #[trigger] children_listed(
                nodes@,
                i,
            ) by {
                assert(children_listed(before, i));
            }
            assert forall|j: int| 0 <= j < nodes@.len() implies #[trigger] actor_consistent(
                view_of(nodes@),
                j,
            ) by {
                assert(actor_consistent(view_of(before), j));
            }
        }
        system.nodes = nodes;
        Ok(handle)
    }

    /// Registers a new child actor of this one: it is running, has this actor
    /// as its parent and no task yet. A child is shut down together with its
    /// parent.
    ///
    /// Fails with [`ActorError::ShutDown`] when this actor has been shut down,
    /// gracefully or hard.
    pub fn spawn_child(&self, system: &mut ActorSystem) -> (result: Result<
        ActorContext,
        ActorError,
    >)
        requires
            self@ < old(system)@.len(),
            old(system)@.len() < usize::MAX,
        ensures
            final(system)@ == apply(old(system)@, Operation::SpawnChild(self@)),
            consistent(final(system)@),
            result is Ok <==> old(system)@[self@ as int].state == ShutdownState::Running,
            result matches Ok(child) ==> child@ == old(system)@.len() && final(system)@ == old(
                system,
            )@.push(fresh_actor(Some(self@))),
            result matches Err(e) ==> e == ActorError::ShutDown && final(system)@ == old(
                system,
            )@,
    {
        proof {
            use_type_invariant(&*system);
        }
        let id = self.id;
        let running = match system.nodes[id].state {
            ShutdownState::Running => true,
            _ => false,
        };
        if !running {
            return Err(ActorError::ShutDown);
        }
        let mut nodes: Vec<Node> = Vec::new();
        std::mem::swap(&mut nodes, &mut system.nodes);
        let ghost before = nodes@;
        let child = nodes.len();
        let set = new_task_set();
        nodes.push(
            Node {
                state: ShutdownState::Running,
                parent: Some(id),
                children: Vec::new(),
                tasks: Some(set),
                handles_released: false,
                loop_finished: false,
            },
        );
        let ghost pushed = nodes@;
        nodes[id].children.push(child);
        proof {
            lemma_view_push(before, pushed[child as int]);
            assert(node_view(pushed[child as int]) == fresh_actor(Some(id as nat)));
            assert(view_of(nodes@) =~= view_of(before).push(fresh_actor(Some(id as nat))));
            assert forall|i: int| 0 <= i < nodes@.len() implies #[trigger] children_listed(
                nodes@,
                i,
            ) by {
                if i < child {
                    assert(children_listed(before, i));
                }
                if i == id {
                    assert(nodes@[i].children@ == before[i].children@.push(child));
                    assert forall|j: int|
                        i < j < nodes@.len() && #[trigger] nodes@[j].parent == Some(
                            i as usize,
                        ) implies nodes@[i].children@.contains(j as usize) by {
                        if j == child {
                            assert(nodes@[i].children@[before[i].children@.len() as int]
                                == child);
                        } else {
                            assert(before[i].children@.contains(j as usize));
                            let m = choose|m: int|
                                0 <= m < before[i].children@.len() && before[i].children@[m]
                                    == j as usize;
                            assert(nodes@[i].children@[m] == j as usize);
                        }
                    }
                }
            }
            assert forall|j: int| 0 <= j < nodes@.len() implies #[trigger] actor_consistent(
                view_of(nodes@),
                j,
            ) by {
                if j < child {
                    assert(actor_consistent(view_of(before), j));
                }
            }
        }
        system.nodes = nodes;
        Ok(ActorContext { id: child })
    }

    /// What the message loop of this actor does after handling a message:
    /// go on while the actor runs, finish the queued messages after a graceful
    /// shutdown, stop at once after a hard shutdown.
    pub fn next_step(&self, system: &ActorSystem) -> (step: LoopStep)
        requires
            self@ < system@.len(),
        ensures
            step == step_for(system@[self@ as int].state),
    {
        proof {
            use_type_invariant(system);
        }
        match system.nodes[self.id].state {
            ShutdownState::Running => LoopStep::Continue,
            ShutdownState::Graceful => LoopStep::Drain,
            ShutdownState::Hard => LoopStep::Stop,
        }
    }

    /// Whether a message may still be sent to this actor: fails with
    /// [`ActorError::ShutDown`] exactly when it has been shut down, gracefully
    /// or hard.
    pub fn accept_message(&self, system: &ActorSystem) -> (result: Result<(), ActorError>)
        requires
            self@ < system@.len(),
        ensures
            result is Ok <==> system@[self@ as int].state == ShutdownState::Running,
            result matches Err(e) ==> e == ActorError::ShutDown,
    {
        proof {
            use_type_invariant(system);
        }
        match system.nodes[self.id].state {
            ShutdownState::Running => Ok(()),
            _ => Err(ActorError::ShutDown),
        }
    }

    /// Records that no handle to this actor remains. Once its message loop
    /// has also ended, its tasks are aborted.
    pub fn release_handles(&self, system: &mut ActorSystem)
        requires
            self@ < old(system)@.len(),
        ensures
            final(system)@ == apply(old(system)@, Operation::ReleaseHandles(self@)),
            consistent(final(system)@),
            final(system)@ == old(system)@.update(
                self@ as int,
                ActorView {
                    handles_released: true,
                    tasks: if old(system)@[self@ as int].loop_finished {
                        None
                    } else {
                        old(system)@[self@ as int].tasks
                    },
                    ..old(system)@[self@ as int]
                },
            ),
    {
        proof {
            use_type_invariant(&*system);
        }
        let mut nodes: Vec<Node> = Vec::new();
        std::mem::swap(&mut nodes, &mut system.nodes);
        let ghost before = nodes@;
        let id = self.id;
        nodes[id].handles_released = true;
        if nodes[id].loop_finished {
            nodes[id].tasks = None;
        }
        proof {
            assert(actor_consistent(view_of(before), id as int));
            lemma_lifecycle_step(before, nodes@, id as int);
            let a = view_of(before)[id as int];
            assert(view_of(nodes@) =~= view_of(before).update(
                id as int,
                ActorView {
                    handles_released: true,
                    tasks: if a.loop_finished {
                        None
                    } else {
                        a.tasks
                    },
                    ..a
                },
            ));
        }
        system.nodes = nodes;
    }

    /// Records that the message loop of this actor has ended. Once no handle
    /// to it remains either, its tasks are aborted.
    pub fn finish_loop(&self, system: &mut ActorSystem)
        requires
            self@ < old(system)@.len(),
        ensures
            final(system)@ == apply(old(system)@, Operation::FinishLoop(self@)),
            consistent(final(system)@),
            final(system)@ == old(system)@.update(
                self@ as int,
                ActorView {
                    loop_finished: true,
                    tasks: if old(system)@[self@ as int].handles_released {
                        None
                    } else {
                        old(system)@[self@ as int].tasks
                    },
                    ..old(system)@[self@ as int]
                },
            ),
    {
        proof {
            use_type_invariant(&*system);
        }
        let mut nodes: Vec<Node> = Vec::new();
        std::mem::swap(&mut nodes, &mut system.nodes);
        let ghost before = nodes@;
        let id = self.id;
        nodes[id].loop_finished = true;
        if nodes[id].handles_released {
            nodes[id].tasks = None;
        }
        proof {
            assert(actor_consistent(view_of(before), id as int));
            lemma_lifecycle_step(before, nodes@, id as int);
            let a = view_of(before)[id as int];
            assert(view_of(nodes@) =~= view_of(before).update(
                id as int,
                ActorView {
                    loop_finished: true,
                    tasks: if a.handles_released {
                        None
                    } else {
                        a.tasks
                    },
                    ..a
                },
            ));
        }
        system.nodes = nodes;
    }

    /// Gracefully shuts down this actor and every running actor below it:
    /// each finishes the messages already queued and then ends; their tasks
    /// keep running. An actor already shut down is left as it is.
    ///
    /// Returns the actors that this call shut down: their queues must be
    /// closed now, so that each one handles what is queued and then ends.
    pub fn graceful_shutdown(&self, system: &mut ActorSystem) -> (stopped: Vec<ActorContext>)
        requires
            self@ < old(system)@.len(),
        ensures
            final(system)@ == after_graceful(old(system)@, self@),
            final(system)@ == apply(old(system)@, Operation::GracefulShutdown(self@)),
            consistent(final(system)@),
            forall|i: int|
                0 <= i < stopped@.len() ==> reached(
                    old(system)@,
                    self@,
                    ShutdownState::Graceful,
                    #[trigger] stopped@[i]@,
                ),
            forall|j: nat|
                #[trigger] reached(old(system)@, self@, ShutdownState::Graceful, j) ==> exists|
                    i: int,
                | 0 <= i < stopped@.len() && stopped@[i]@ == j,
    {
        proof {
            use_type_invariant(&*system);
        }
        let mut nodes: Vec<Node> = Vec::new();
        std::mem::swap(&mut nodes, &mut system.nodes);
        let ghost before = nodes@;
        let mut stopped: Vec<ActorContext> = Vec::new();
        shut_down_from(&mut nodes, self.id, ShutdownState::Graceful, &mut stopped);
        proof {
            lemma_view_after_shutdown(before, nodes@, self.id as int, ShutdownState::Graceful);
        }
        system.nodes = nodes;
        stopped
    }

    /// Hard shuts down this actor and every actor below it: each stops at once
    /// and all their tasks are aborted. Calling it after a graceful shutdown
    /// is allowed.
    pub fn hard_shutdown(&self, system: &mut ActorSystem)
        requires
            self@ < old(system)@.len(),
        ensures
            final(system)@ == after_hard(old(system)@, self@),
            final(system)@ == apply(old(system)@, Operation::HardShutdown(self@)),
            consistent(final(system)@),
    {
        proof {
            use_type_invariant(&*system);
        }
        let mut nodes: Vec<Node> = Vec::new();
        std::mem::swap(&mut nodes, &mut system.nodes);
        let ghost before = nodes@;
        let mut stopped: Vec<ActorContext> = Vec::new();
        shut_down_from(&mut nodes, self.id, ShutdownState::Hard, &mut stopped);
        proof {
            lemma_view_after_shutdown(before, nodes@, self.id as int, ShutdownState::Hard);
        }
        system.nodes = nodes;
    }
}

} // verus!
