use yaks::access_set::{Access, BorrowSet, BorrowTypeSet};
use yaks::builder::ExecutorBuilder;
use yaks::plan::ExecutorParallel;
use yaks::scheduler::Scheduler;
use yaks::system_id::SystemId;

// Component types of the world, by key.
const A: u64 = 1;
const B: u64 = 2;
const C: u64 = 3;

/// No resources, no queries.
fn dummy() -> (BorrowSet, BorrowTypeSet) {
    (BorrowSet::with_capacity(0), BorrowTypeSet::new())
}

/// Borrows resource 0 of a one-resource executor, and queries the given component types.
fn system(resource: Option<bool>, read: &[u64], write: &[u64]) -> (BorrowSet, BorrowTypeSet) {
    let mut resources = BorrowSet::with_capacity(1);
    match resource {
        Some(false) => resources.insert_immutable(0),
        Some(true) => resources.insert_mutable(0),
        None => {}
    }
    let mut components = BorrowTypeSet::new();
    for key in read {
        components.immutable.insert(*key);
    }
    for key in write {
        components.mutable.insert(*key);
    }
    (resources, components)
}

fn running(executor: &Scheduler) -> Vec<SystemId> {
    (0..executor.len()).map(SystemId).filter(|id| executor.is_running(*id)).collect()
}

/// Waits until one more running system has finished, recording it.
fn wait_for_one_finished(executor: &Scheduler, just_finished: &mut Vec<SystemId>) {
    let id = running(executor)
        .into_iter()
        .find(|id| !just_finished.contains(id))
        .expect("a running system finishes");
    just_finished.push(id);
}

/// Waits until at least one running system has finished, takes every other that has
/// finished too (here: all running systems finish), and processes them all at once.
fn wait_for_and_process_finished_after(executor: &mut Scheduler, mut just_finished: Vec<SystemId>) {
    wait_for_one_finished(executor, &mut just_finished);
    for id in running(executor) {
        if !just_finished.contains(&id) {
            just_finished.push(id);
        }
    }
    executor.process_finished(just_finished);
}

fn wait_for_and_process_finished(executor: &mut Scheduler) {
    wait_for_and_process_finished_after(executor, Vec::new());
}

/// Starts a run in a world of the given archetypes generation; the archetype accesses of
/// every system are written when the scheduler asks for them.
fn prepare(executor: &mut Scheduler, generation: u64, accesses: &[Vec<Option<Access>>]) {
    if executor.prepare(generation) {
        for (id, access) in accesses.iter().enumerate() {
            executor.set_archetype_accesses(SystemId(id), access);
        }
    }
}

#[test]
fn dependencies_single() {
    let (r0, c0) = dummy();
    let (r1, c1) = dummy();
    let builder = ExecutorBuilder::new()
        .system_with_handle(r0, c0, 0)
        .system_with_handle_and_deps(r1, c1, 1, vec![0]);
    let mut executor = builder.build().unwrap_to_scheduler();
    prepare(&mut executor, 0, &[vec![], vec![]]);
    executor.start_all_currently_runnable();
    assert_eq!(executor.running_count(), 1);
    wait_for_and_process_finished(&mut executor);
    assert!(executor.running_count() == 0);

    executor.start_all_currently_runnable();
    assert_eq!(executor.running_count(), 1);
    wait_for_and_process_finished(&mut executor);
    assert!(executor.running_count() == 0);
    assert!(executor.queued_count() == 0);
}

#[test]
fn dependencies_several() {
    let (r0, c0) = dummy();
    let (r1, c1) = dummy();
    let (r2, c2) = dummy();
    let (r3, c3) = dummy();
    let builder = ExecutorBuilder::new()
        .system_with_handle(r0, c0, 0)
        .system_with_handle(r1, c1, 1)
        .system_with_handle(r2, c2, 2)
        .system_with_deps(r3, c3, vec![0, 1, 2]);
    let mut executor = builder.build().unwrap_to_scheduler();
    prepare(&mut executor, 0, &[vec![], vec![], vec![], vec![]]);
    executor.start_all_currently_runnable();
    assert_eq!(executor.running_count(), 3);
    let mut just_finished = Vec::new();
    wait_for_one_finished(&executor, &mut just_finished);
    wait_for_one_finished(&executor, &mut just_finished);
    wait_for_and_process_finished_after(&mut executor, just_finished);
    assert!(executor.running_count() == 0);

    executor.start_all_currently_runnable();
    assert_eq!(executor.running_count(), 1);
    wait_for_and_process_finished(&mut executor);
    assert!(executor.running_count() == 0);
    assert!(executor.queued_count() == 0);
}

#[test]
fn dependencies_chain() {
    let (r0, c0) = dummy();
    let (r1, c1) = dummy();
    let (r2, c2) = dummy();
    let (r3, c3) = dummy();
    let builder = ExecutorBuilder::new()
        .system_with_handle(r0, c0, 0)
        .system_with_handle_and_deps(r1, c1, 1, vec![0])
        .system_with_handle_and_deps(r2, c2, 2, vec![1])
        .system_with_deps(r3, c3, vec![2]);
    let mut executor = builder.build().unwrap_to_scheduler();
    prepare(&mut executor, 0, &[vec![], vec![], vec![], vec![]]);
    executor.start_all_currently_runnable();
    assert_eq!(executor.running_count(), 1);
    wait_for_and_process_finished(&mut executor);
    assert!(executor.running_count() == 0);

    executor.start_all_currently_runnable();
    assert_eq!(executor.running_count(), 1);
    wait_for_and_process_finished(&mut executor);
    assert!(executor.running_count() == 0);

    executor.start_all_currently_runnable();
    assert_eq!(executor.running_count(), 1);
    wait_for_and_process_finished(&mut executor);
    assert!(executor.running_count() == 0);

    executor.start_all_currently_runnable();
    assert_eq!(executor.running_count(), 1);
    wait_for_and_process_finished(&mut executor);
    assert!(executor.running_count() == 0);
    assert!(executor.queued_count() == 0);
}

#[test]
fn dependencies_fully_constrained() {
    let (r0, c0) = dummy();
    let (r1, c1) = dummy();
    let (r2, c2) = dummy();
    let (r3, c3) = dummy();
    let builder = ExecutorBuilder::new()
        .system_with_handle(r0, c0, 0)
        .system_with_handle_and_deps(r1, c1, 1, vec![0])
        .system_with_handle_and_deps(r2, c2, 2, vec![0, 1])
        .system_with_deps(r3, c3, vec![0, 1, 2]);
    let mut executor = builder.build().unwrap_to_scheduler();
    prepare(&mut executor, 0, &[vec![], vec![], vec![], vec![]]);
    executor.start_all_currently_runnable();
    assert_eq!(executor.running_count(), 1);
    wait_for_and_process_finished(&mut executor);
    assert!(executor.running_count() == 0);

    executor.start_all_currently_runnable();
    assert_eq!(executor.running_count(), 1);
    wait_for_and_process_finished(&mut executor);
    assert!(executor.running_count() == 0);

    executor.start_all_currently_runnable();
    assert_eq!(executor.running_count(), 1);
    wait_for_and_process_finished(&mut executor);
    assert!(executor.running_count() == 0);

    executor.start_all_currently_runnable();
    assert_eq!(executor.running_count(), 1);
    wait_for_and_process_finished(&mut executor);
    assert!(executor.running_count() == 0);
    assert!(executor.queued_count() == 0);
}

#[test]
fn resources_incompatible_mutable_immutable() {
    let (r0, c0) = system(Some(false), &[], &[]);
    let (r1, c1) = system(Some(true), &[], &[]);
    let mut executor = ExecutorBuilder::new().system(r0, c0).system(r1, c1).build().unwrap_to_scheduler();
    let mut a = 0usize;
    prepare(&mut executor, 0, &[vec![], vec![]]);
    for _ in 0..2 {
        let started = executor.start_all_currently_runnable();
        assert_eq!(executor.running_count(), 1);
        for id in started {
            if id == SystemId(1) {
                a += 1;
            }
        }
        wait_for_and_process_finished(&mut executor);
        assert!(executor.running_count() == 0);
    }
    assert!(executor.queued_count() == 0);
    assert_eq!(a, 1);
}

#[test]
fn resources_incompatible_mutable_mutable() {
    let (r0, c0) = system(Some(true), &[], &[]);
    let (r1, c1) = system(Some(true), &[], &[]);
    let mut executor = ExecutorBuilder::new().system(r0, c0).system(r1, c1).build().unwrap_to_scheduler();
    let mut a = 0usize;
    prepare(&mut executor, 0, &[vec![], vec![]]);
    for _ in 0..2 {
        let started = executor.start_all_currently_runnable();
        assert_eq!(executor.running_count(), 1);
        a += started.len();
        wait_for_and_process_finished(&mut executor);
        assert!(executor.running_count() == 0);
    }
    assert!(executor.queued_count() == 0);
    assert_eq!(a, 2);
}

#[test]
fn queries_incompatible_mutable_immutable() {
    // One archetype holds the ten entities with `B`.
    let mut b = vec![0usize; 10];
    let a = 1usize;
    let (r0, c0) = system(None, &[B], &[]);
    let (r1, c1) = system(Some(false), &[], &[B]);
    let mut executor = ExecutorBuilder::new().system(r0, c0).system(r1, c1).build().unwrap_to_scheduler();
    prepare(&mut executor, 0, &[vec![Some(Access::Read)], vec![Some(Access::Write)]]);
    for _ in 0..2 {
        let started = executor.start_all_currently_runnable();
        assert_eq!(executor.running_count(), 1);
        if started.contains(&SystemId(1)) {
            b.iter_mut().for_each(|b| *b += a);
        }
        wait_for_and_process_finished(&mut executor);
        assert!(executor.running_count() == 0);
    }
    assert!(executor.queued_count() == 0);
    for b in &b {
        assert_eq!(*b, 1);
    }
}

#[test]
fn queries_incompatible_mutable_mutable() {
    let mut b = vec![0usize; 10];
    let a = 1usize;
    let (r0, c0) = system(Some(false), &[], &[B]);
    let (r1, c1) = system(Some(false), &[], &[B]);
    let mut executor = ExecutorBuilder::new().system(r0, c0).system(r1, c1).build().unwrap_to_scheduler();
    prepare(&mut executor, 0, &[vec![Some(Access::Write)], vec![Some(Access::Write)]]);
    for _ in 0..2 {
        let started = executor.start_all_currently_runnable();
        assert_eq!(executor.running_count(), 1);
        for _ in started {
            b.iter_mut().for_each(|b| *b += a);
        }
        wait_for_and_process_finished(&mut executor);
        assert!(executor.running_count() == 0);
    }
    assert!(executor.queued_count() == 0);
    for b in &b {
        assert_eq!(*b, 2);
    }
}

#[test]
fn queries_disjoint_by_archetypes() {
    // Archetype 0 holds ten entities with `A` and `B`, archetype 1 ten with `B` and `C`.
    let mut ab = vec![0usize; 10];
    let mut bc = vec![0usize; 10];
    let (r0, c0) = system(Some(false), &[A], &[B]);
    let (r1, c1) = system(Some(false), &[C], &[B]);
    let mut executor = ExecutorBuilder::new().system(r0, c0).system(r1, c1).build().unwrap_to_scheduler();
    let a = 2usize;
    prepare(
        &mut executor,
        1,
        &[vec![Some(Access::Write), None], vec![None, Some(Access::Write)]],
    );
    let started = executor.start_all_currently_runnable();
    assert_eq!(executor.running_count(), 2);
    for id in started {
        if id == SystemId(0) {
            ab.iter_mut().for_each(|b| *b += a);
        } else {
            bc.iter_mut().for_each(|b| *b += a);
        }
    }
    wait_for_and_process_finished(&mut executor);
    assert!(executor.running_count() == 0);
    assert!(executor.queued_count() == 0);
    for b in ab.iter().chain(bc.iter()) {
        assert_eq!(*b, 2);
    }

    // Archetype 2 now holds ten entities with `A`, `B` and `C`; both queries touch it.
    let mut abc = vec![1usize; 10];
    let a = 1usize;
    prepare(
        &mut executor,
        2,
        &[
            vec![Some(Access::Write), None, Some(Access::Write)],
            vec![None, Some(Access::Write), Some(Access::Write)],
        ],
    );
    for _ in 0..2 {
        let started = executor.start_all_currently_runnable();
        assert_eq!(executor.running_count(), 1);
        for id in started {
            if id == SystemId(0) {
                ab.iter_mut().for_each(|b| *b += a);
            } else {
                bc.iter_mut().for_each(|b| *b += a);
            }
            abc.iter_mut().for_each(|b| *b += a);
        }
        wait_for_and_process_finished(&mut executor);
        assert!(executor.running_count() == 0);
    }
    assert!(executor.queued_count() == 0);
    for b in ab.iter().chain(bc.iter()).chain(abc.iter()) {
        assert_eq!(*b, 3);
    }
}

#[test]
fn scheduler_recomputes_archetypes_only_on_new_generation() {
    let (r0, c0) = system(Some(true), &[], &[]);
    let (r1, c1) = system(Some(true), &[], &[]);
    let built = ExecutorBuilder::new().system(r0, c0).system(r1, c1).build();
    let mut scheduler = match built {
        ExecutorParallel::Scheduling(s) => s,
        _ => panic!("systems with conflicting borrows need the scheduler"),
    };
    assert!(scheduler.prepare(7));
    while !scheduler.is_done() {
        scheduler.start_all_currently_runnable();
        wait_for_and_process_finished(&mut scheduler);
    }
    assert!(!scheduler.prepare(7));
    while !scheduler.is_done() {
        scheduler.start_all_currently_runnable();
        wait_for_and_process_finished(&mut scheduler);
    }
    assert!(scheduler.prepare(8));
    while !scheduler.is_done() {
        scheduler.start_all_currently_runnable();
        wait_for_and_process_finished(&mut scheduler);
    }
    scheduler.force_archetype_recalculation();
    assert!(scheduler.prepare(8));
}

#[test]
fn every_system_starts_once_per_run() {
    let (r0, c0) = system(Some(true), &[], &[]);
    let (r1, c1) = system(Some(false), &[], &[]);
    let (r2, c2) = system(Some(false), &[], &[]);
    let (r3, c3) = system(Some(true), &[], &[]);
    let mut executor = ExecutorBuilder::new()
        .system_with_handle(r0, c0, 0)
        .system(r1, c1)
        .system_with_deps(r2, c2, vec![0])
        .system(r3, c3)
        .build()
        .unwrap_to_scheduler();
    for run in 0..2 {
        prepare(&mut executor, run, &[vec![], vec![], vec![], vec![]]);
        let mut starts = vec![0usize; 4];
        while !executor.is_done() {
            for id in executor.start_all_currently_runnable() {
                starts[id.0] += 1;
            }
            wait_for_and_process_finished(&mut executor);
        }
        assert_eq!(starts, vec![1, 1, 1, 1]);
    }
}
