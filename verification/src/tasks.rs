//! The tokio task sets that hold the tasks of each actor.
use std::future::Future;
use tokio::runtime::Handle;
use tokio::task::{AbortHandle, JoinSet};
use vstd::multiset::Multiset;
use vstd::prelude::*;

verus! {

#[verifier::external_type_specification]
#[verifier::external_body]
#[verifier::reject_recursive_types(T)]
pub struct ExJoinSet<T>(JoinSet<T>);

#[verifier::external_type_specification]
#[verifier::external_body]
pub struct ExAbortHandle(AbortHandle);

#[verifier::external_type_specification]
#[verifier::external_body]
pub struct ExHandle(Handle);

/// What a task set holds: one entry per task it tracks (every task of an
/// actor yields `()`). Dropping the set aborts all of them.
pub uninterp spec fn held_tasks(set: JoinSet<()>) -> Multiset<()>;

/// Calls `JoinSet::new`, which makes a set that tracks no task.
#[verifier::external_body]
pub(crate) fn new_task_set() -> (set: JoinSet<()>)
    ensures
        held_tasks(set) =~= Multiset::<()>::empty(),
{
    JoinSet::new()
}

/// Calls `JoinSet::spawn_on`, which hands `task` to the runtime that
/// `runtime` refers to and tracks it in `set`: the set holds one task more
/// than before.
#[verifier::external_body]
pub(crate) fn spawn_in_set<F>(set: &mut JoinSet<()>, task: F, runtime: &Handle) -> (handle:
    AbortHandle) where F: Future<Output = ()> + Send + 'static
    ensures
        held_tasks(*final(set)) =~= held_tasks(*old(set)).insert(()),
{
    set.spawn_on(task, runtime)
}

} // verus!
