use yaks::access_set::Access;
use yaks::borrows::SystemBorrows;
use yaks::parallel_executor::ParallelExecutor;
use yaks::system_id::SystemId;

fn borrows(resources_read: &[u64], resources_write: &[u64], components_read: &[u64], components_write: &[u64]) -> SystemBorrows {
    let mut b = SystemBorrows::new();
    for k in resources_read {
        b.resources_immutable.insert(*k);
    }
    for k in resources_write {
        b.resources_mutable.insert(*k);
    }
    for k in components_read {
        b.components_immutable.insert(*k);
    }
    for k in components_write {
        b.components_mutable.insert(*k);
    }
    b
}

/// Runs every started system to completion, in passes; returns the systems of each pass.
fn run(executor: &mut ParallelExecutor) -> Vec<Vec<SystemId>> {
    let mut passes = Vec::new();
    while !executor.all_started() || executor.running_count() > 0 {
        let started = executor.start_runnable();
        for id in &started {
            executor.finish(*id);
        }
        passes.push(started);
    }
    passes
}

#[test]
fn dependencies_run_first() {
    let mut executor = ParallelExecutor::new();
    let a = executor.add(vec![], borrows(&[], &[], &[], &[]));
    let b = executor.add(vec![a], borrows(&[], &[], &[], &[]));
    let c = executor.add(vec![], borrows(&[], &[], &[], &[]));
    executor.begin_run();
    assert_eq!(run(&mut executor), vec![vec![a, c], vec![b]]);
}

#[test]
fn conflicting_resources_wait() {
    let mut executor = ParallelExecutor::new();
    let a = executor.add(vec![], borrows(&[], &[1], &[], &[]));
    let b = executor.add(vec![], borrows(&[1], &[], &[], &[]));
    let c = executor.add(vec![], borrows(&[1], &[], &[], &[]));
    executor.begin_run();
    let started = executor.start_runnable();
    assert_eq!(started, vec![a]);
    assert!(executor.is_running(a));
    assert!(!executor.can_run_now(0));
    executor.finish(a);
    assert!(executor.can_run_now(0));
    assert_eq!(executor.start_runnable(), vec![b, c]);
    assert_eq!(executor.running_count(), 2);
}

#[test]
fn conflicting_components_share_when_archetypes_are_apart() {
    let mut executor = ParallelExecutor::new();
    let a = executor.add(vec![], borrows(&[], &[], &[], &[5]));
    let b = executor.add(vec![], borrows(&[], &[], &[], &[5]));
    executor.begin_run();
    // Without archetypes the writers of component 5 run one after the other.
    assert_eq!(run(&mut executor), vec![vec![a], vec![b]]);
    executor.begin_run();
    executor.set_archetypes(a, &vec![0], 2);
    executor.set_archetypes(b, &vec![1], 2);
    assert_eq!(run(&mut executor), vec![vec![a, b]]);
    executor.begin_run();
    executor.set_archetypes(b, &vec![0, 1], 2);
    assert_eq!(run(&mut executor), vec![vec![a], vec![b]]);
}

#[test]
fn archetypes_do_not_excuse_resource_conflicts() {
    let mut executor = ParallelExecutor::new();
    let a = executor.add(vec![], borrows(&[], &[2], &[], &[]));
    let b = executor.add(vec![], borrows(&[], &[2], &[], &[]));
    executor.begin_run();
    executor.set_archetypes(a, &vec![0], 2);
    executor.set_archetypes(b, &vec![1], 2);
    assert_eq!(run(&mut executor), vec![vec![a], vec![b]]);
    let _ = Access::Read;
}

#[test]
fn condensation_keeps_writers_apart_and_readers_together() {
    let mut executor = ParallelExecutor::new();
    let a = executor.add(vec![], borrows(&[7], &[], &[], &[]));
    let b = executor.add(vec![], borrows(&[7], &[], &[], &[]));
    let c = executor.add(vec![], borrows(&[], &[7], &[], &[]));
    executor.begin_run();
    assert_eq!(run(&mut executor), vec![vec![a, b], vec![c]]);
}

#[test]
fn a_pass_with_nothing_running_starts_a_ready_system() {
    let mut executor = ParallelExecutor::new();
    let a = executor.add(vec![], borrows(&[], &[1], &[], &[]));
    let b = executor.add(vec![a], borrows(&[], &[1], &[], &[]));
    executor.begin_run();
    assert_eq!(executor.start_runnable(), vec![a]);
    executor.finish(a);
    assert_eq!(executor.start_runnable(), vec![b]);
}

#[test]
fn begin_run_forgets_an_unfinished_run() {
    let mut executor = ParallelExecutor::new();
    let a = executor.add(vec![], borrows(&[], &[1], &[], &[]));
    let b = executor.add(vec![a], borrows(&[], &[], &[], &[]));
    executor.begin_run();
    assert_eq!(executor.start_runnable(), vec![a]);
    // A new run starts while `a` is still running: everything waits again.
    executor.begin_run();
    assert_eq!(executor.running_count(), 0);
    assert_eq!(run(&mut executor), vec![vec![a], vec![b]]);
}
