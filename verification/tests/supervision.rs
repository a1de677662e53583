use toktor::{ActorContext, ActorError, ActorSystem, LoopStep};

fn system_with_root() -> (ActorSystem, ActorContext) {
    let mut system = ActorSystem::new();
    let root = ActorContext::new(&mut system);
    (system, root)
}

#[test]
fn a_new_system_is_empty() {
    assert_eq!(ActorSystem::new().len(), 0);
}

#[test]
fn a_shutdown_is_permanent() {
    let (mut system, root) = system_with_root();
    root.graceful_shutdown(&mut system);
    assert_eq!(root.spawn_child(&mut system), Err(ActorError::ShutDown));
    root.finish_loop(&mut system);
    root.release_handles(&mut system);
    root.graceful_shutdown(&mut system);
    assert!(root.is_shutdown(&system));
    assert_eq!(root.next_step(&system), LoopStep::Drain);
}

#[test]
fn a_new_actor_is_running() {
    let (system, root) = system_with_root();
    assert_eq!(system.len(), 1);
    assert_eq!(root.id(), 0);
    assert!(!root.is_shutdown(&system));
    assert_eq!(root.next_step(&system), LoopStep::Continue);
    assert_eq!(root.accept_message(&system), Ok(()));
}

#[test]
fn separate_top_level_actors_get_separate_indices() {
    let mut system = ActorSystem::new();
    let first = ActorContext::new(&mut system);
    let second = ActorContext::new(&mut system);
    assert_eq!(first.id(), 0);
    assert_eq!(second.id(), 1);
    first.graceful_shutdown(&mut system);
    assert!(first.is_shutdown(&system));
    assert!(!second.is_shutdown(&system));
}

#[test]
fn graceful_shutdown_drains_the_queue_and_refuses_messages() {
    let (mut system, root) = system_with_root();
    root.graceful_shutdown(&mut system);
    assert!(root.is_shutdown(&system));
    assert_eq!(root.next_step(&system), LoopStep::Drain);
    assert_eq!(root.accept_message(&system), Err(ActorError::ShutDown));
}

#[test]
fn hard_shutdown_stops_the_loop_and_refuses_messages() {
    let (mut system, root) = system_with_root();
    root.hard_shutdown(&mut system);
    assert!(root.is_shutdown(&system));
    assert_eq!(root.next_step(&system), LoopStep::Stop);
    assert_eq!(root.accept_message(&system), Err(ActorError::ShutDown));
}

#[test]
fn hard_shutdown_after_graceful_shutdown_stops_the_loop() {
    let (mut system, root) = system_with_root();
    root.graceful_shutdown(&mut system);
    root.hard_shutdown(&mut system);
    assert_eq!(root.next_step(&system), LoopStep::Stop);
}

#[test]
fn graceful_shutdown_after_hard_shutdown_changes_nothing() {
    let (mut system, root) = system_with_root();
    root.hard_shutdown(&mut system);
    root.graceful_shutdown(&mut system);
    assert_eq!(root.next_step(&system), LoopStep::Stop);
}

#[test]
fn shutting_down_twice_is_the_same_as_once() {
    let (mut system, root) = system_with_root();
    root.graceful_shutdown(&mut system);
    root.graceful_shutdown(&mut system);
    assert_eq!(root.next_step(&system), LoopStep::Drain);
    root.hard_shutdown(&mut system);
    root.hard_shutdown(&mut system);
    assert_eq!(root.next_step(&system), LoopStep::Stop);
}

#[test]
fn children_are_registered_in_order() {
    let (mut system, root) = system_with_root();
    let first = root.spawn_child(&mut system).expect("child");
    let second = root.spawn_child(&mut system).expect("child");
    let grandchild = first.spawn_child(&mut system).expect("grandchild");
    assert_eq!(first.id(), 1);
    assert_eq!(second.id(), 2);
    assert_eq!(grandchild.id(), 3);
    assert_eq!(system.len(), 4);
    assert!(!grandchild.is_shutdown(&system));
}

#[test]
fn graceful_shutdown_propagates_to_every_descendant() {
    let (mut system, root) = system_with_root();
    let first = root.spawn_child(&mut system).expect("child");
    let second = root.spawn_child(&mut system).expect("child");
    let grandchild = first.spawn_child(&mut system).expect("grandchild");
    root.graceful_shutdown(&mut system);
    for actor in [root, first, second, grandchild] {
        assert_eq!(actor.next_step(&system), LoopStep::Drain);
        assert_eq!(actor.accept_message(&system), Err(ActorError::ShutDown));
    }
}

#[test]
fn hard_shutdown_propagates_to_every_descendant() {
    let (mut system, root) = system_with_root();
    let first = root.spawn_child(&mut system).expect("child");
    let second = root.spawn_child(&mut system).expect("child");
    let grandchild = first.spawn_child(&mut system).expect("grandchild");
    first.graceful_shutdown(&mut system);
    root.hard_shutdown(&mut system);
    for actor in [root, first, second, grandchild] {
        assert_eq!(actor.next_step(&system), LoopStep::Stop);
    }
}

#[test]
fn a_child_shutting_down_leaves_its_parent_and_siblings_running() {
    let (mut system, root) = system_with_root();
    let first = root.spawn_child(&mut system).expect("child");
    let second = root.spawn_child(&mut system).expect("child");
    let grandchild = first.spawn_child(&mut system).expect("grandchild");
    first.hard_shutdown(&mut system);
    assert!(!root.is_shutdown(&system));
    assert!(!second.is_shutdown(&system));
    assert_eq!(grandchild.next_step(&system), LoopStep::Stop);
}

#[test]
fn an_already_shut_down_child_keeps_its_state_on_a_graceful_parent_shutdown() {
    let (mut system, root) = system_with_root();
    let child = root.spawn_child(&mut system).expect("child");
    child.hard_shutdown(&mut system);
    root.graceful_shutdown(&mut system);
    assert_eq!(root.next_step(&system), LoopStep::Drain);
    assert_eq!(child.next_step(&system), LoopStep::Stop);
}

#[test]
fn spawn_child_fails_after_graceful_shutdown() {
    let (mut system, root) = system_with_root();
    root.graceful_shutdown(&mut system);
    assert_eq!(root.spawn_child(&mut system), Err(ActorError::ShutDown));
    assert_eq!(system.len(), 1);
}

#[test]
fn spawn_child_fails_after_hard_shutdown() {
    let (mut system, root) = system_with_root();
    root.hard_shutdown(&mut system);
    assert_eq!(root.spawn_child(&mut system), Err(ActorError::ShutDown));
}

#[test]
fn spawn_child_fails_below_a_shut_down_ancestor() {
    let (mut system, root) = system_with_root();
    let child = root.spawn_child(&mut system).expect("child");
    let grandchild = child.spawn_child(&mut system).expect("grandchild");
    root.graceful_shutdown(&mut system);
    assert_eq!(grandchild.spawn_child(&mut system), Err(ActorError::ShutDown));
}

#[test]
fn the_error_has_a_message() {
    assert_eq!(ActorError::ShutDown.message(), "actor is shut down");
}
