use std::sync::atomic::{AtomicBool, Ordering};
use std::sync::Arc;
use tokio::runtime::{Builder, Handle, Runtime};
use toktor::{ActorContext, ActorError, ActorSystem};

fn runtime() -> Runtime {
    Builder::new_current_thread().build().expect("runtime")
}

async fn hold_forever(refs: Arc<()>) {
    let _refs = refs;
    std::future::pending::<()>().await
}

async fn let_tasks_run() {
    for _ in 0..4 {
        tokio::task::yield_now().await;
    }
}

#[test]
fn a_spawned_task_runs() {
    runtime().block_on(async {
        let runtime = Handle::current();
        let mut system = ActorSystem::new();
        let root = ActorContext::new(&mut system);
        let ran = Arc::new(AtomicBool::new(false));
        let flag = ran.clone();
        let spawned = root.spawn(&mut system, async move {
            flag.store(true, Ordering::SeqCst);
        }, &runtime);
        assert!(spawned.is_ok());
        let_tasks_run().await;
        assert!(ran.load(Ordering::SeqCst));
    });
}

#[test]
fn graceful_shutdown_keeps_tasks_and_hard_shutdown_aborts_them() {
    runtime().block_on(async {
        let runtime = Handle::current();
        let mut system = ActorSystem::new();
        let root = ActorContext::new(&mut system);
        let refs = Arc::new(());
        assert!(root.spawn(&mut system, hold_forever(refs.clone()), &runtime).is_ok());
        assert!(root.spawn(&mut system, hold_forever(refs.clone()), &runtime).is_ok());
        let_tasks_run().await;
        assert_eq!(Arc::strong_count(&refs), 3);

        root.graceful_shutdown(&mut system);
        let_tasks_run().await;
        assert_eq!(Arc::strong_count(&refs), 3);

        root.hard_shutdown(&mut system);
        let_tasks_run().await;
        assert_eq!(Arc::strong_count(&refs), 1);
    });
}

#[test]
fn hard_shutdown_of_a_parent_aborts_the_tasks_of_its_children() {
    runtime().block_on(async {
        let runtime = Handle::current();
        let mut system = ActorSystem::new();
        let root = ActorContext::new(&mut system);
        let child = root.spawn_child(&mut system).expect("child");
        let refs = Arc::new(());
        assert!(child.spawn(&mut system, hold_forever(refs.clone()), &runtime).is_ok());
        let_tasks_run().await;
        assert_eq!(Arc::strong_count(&refs), 2);
        root.hard_shutdown(&mut system);
        let_tasks_run().await;
        assert_eq!(Arc::strong_count(&refs), 1);
    });
}

#[test]
fn spawn_fails_after_a_shutdown() {
    runtime().block_on(async {
        let runtime = Handle::current();
        let mut system = ActorSystem::new();
        let graceful = ActorContext::new(&mut system);
        let hard = ActorContext::new(&mut system);
        graceful.graceful_shutdown(&mut system);
        hard.hard_shutdown(&mut system);
        let refs = Arc::new(());
        assert_eq!(
            graceful.spawn(&mut system, hold_forever(refs.clone()), &runtime).err(),
            Some(ActorError::ShutDown)
        );
        assert_eq!(
            hard.spawn(&mut system, hold_forever(refs.clone()), &runtime).err(),
            Some(ActorError::ShutDown)
        );
        let_tasks_run().await;
        assert_eq!(Arc::strong_count(&refs), 1);
    });
}

#[test]
fn tasks_end_once_the_handles_are_gone_and_the_loop_has_ended() {
    runtime().block_on(async {
        let runtime = Handle::current();
        let mut system = ActorSystem::new();
        let root = ActorContext::new(&mut system);
        let refs = Arc::new(());
        assert!(root.spawn(&mut system, hold_forever(refs.clone()), &runtime).is_ok());
        root.release_handles(&mut system);
        let_tasks_run().await;
        assert_eq!(Arc::strong_count(&refs), 2);
        assert!(!root.is_shutdown(&system));

        root.finish_loop(&mut system);
        let_tasks_run().await;
        assert_eq!(Arc::strong_count(&refs), 1);
        assert_eq!(
            root.spawn(&mut system, hold_forever(refs.clone()), &runtime).err(),
            Some(ActorError::ShutDown)
        );
    });
}

#[test]
fn tasks_outlive_an_ended_loop_while_a_handle_remains() {
    runtime().block_on(async {
        let runtime = Handle::current();
        let mut system = ActorSystem::new();
        let root = ActorContext::new(&mut system);
        let refs = Arc::new(());
        assert!(root.spawn(&mut system, hold_forever(refs.clone()), &runtime).is_ok());
        root.finish_loop(&mut system);
        let_tasks_run().await;
        assert_eq!(Arc::strong_count(&refs), 2);
        root.release_handles(&mut system);
        let_tasks_run().await;
        assert_eq!(Arc::strong_count(&refs), 1);
    });
}

#[test]
fn a_task_can_be_spawned_from_outside_the_runtime_through_its_handle() {
    let rt = runtime();
    let mut system = ActorSystem::new();
    let root = ActorContext::new(&mut system);
    let ran = Arc::new(AtomicBool::new(false));
    let flag = ran.clone();
    let spawned = root.spawn(
        &mut system,
        async move {
            flag.store(true, Ordering::SeqCst);
        },
        rt.handle(),
    );
    assert!(spawned.is_ok());
    rt.block_on(let_tasks_run());
    assert!(ran.load(Ordering::SeqCst));
}

#[test]
fn graceful_shutdown_reports_the_actors_it_stopped() {
    let mut system = ActorSystem::new();
    let root = ActorContext::new(&mut system);
    let first = root.spawn_child(&mut system).expect("child");
    let second = root.spawn_child(&mut system).expect("child");
    let grandchild = first.spawn_child(&mut system).expect("grandchild");
    second.hard_shutdown(&mut system);
    let mut stopped: Vec<usize> = root
        .graceful_shutdown(&mut system)
        .iter()
        .map(|actor| actor.id())
        .collect();
    stopped.sort();
    assert_eq!(stopped, vec![root.id(), first.id(), grandchild.id()]);
    assert!(root.graceful_shutdown(&mut system).is_empty());
}
