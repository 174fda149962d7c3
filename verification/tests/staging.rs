use yaks::arch_staged;
use yaks::metadata::{SystemMetadata, SystemWithMetadata};
use yaks::sequential::ExecutorSequential;
use yaks::staged;
use yaks::system_id::SystemId;

fn metadata(resources_read: &[u64], resources_write: &[u64], components_read: &[u64], components_write: &[u64]) -> SystemMetadata {
    let mut m = SystemMetadata::new();
    for k in resources_read {
        m.resources_immutable.insert(*k);
    }
    for k in resources_write {
        m.resources_mutable.insert(*k);
    }
    for k in components_read {
        m.components_immutable.insert(*k);
    }
    for k in components_write {
        m.components_mutable.insert(*k);
    }
    m
}

#[test]
fn basic() {
    let mut executor = arch_staged::Executor::new();
    executor.add(SystemWithMetadata::new("system", SystemMetadata::new()));
    // Stages are never opened, so the system is not kept.
    assert_eq!(executor.stage_count(), 0);
}

#[test]
fn staged_executor_keeps_no_system_without_stages() {
    let executor = staged::Executor::new().with(SystemWithMetadata::new(1u8, metadata(&[], &[1], &[], &[])));
    let _ = executor;
}

#[test]
fn stage_groups_by_first_fit() {
    let mut stage = staged::Stage1::new();
    stage.stages.push(staged::Stage2::new());
    stage.stages.push(staged::Stage2::new());
    // Reads component 1: fits into the first sub-stage.
    stage.add(SystemWithMetadata::new("reader", metadata(&[], &[], &[1], &[])));
    // Writes component 1: conflicts with the reader, joins the second sub-stage.
    stage.add(SystemWithMetadata::new("writer", metadata(&[], &[7], &[], &[1])));
    // Another reader fits into the first sub-stage again.
    stage.add(SystemWithMetadata::new("reader 2", metadata(&[], &[], &[1], &[])));
    assert_eq!(stage.stages[0].systems, vec!["reader", "reader 2"]);
    assert_eq!(stage.stages[1].systems, vec!["writer"]);
    assert!(stage.resources_mutable.contains(7));
    // A system fitting no sub-stage leaves its resources recorded but is not kept.
    stage.add(SystemWithMetadata::new("both", metadata(&[], &[], &[], &[1, 2])));
    let total: usize = stage.stages.iter().map(|s| s.systems.len()).sum();
    assert_eq!(total, 3);
}

#[test]
fn arch_stage_rebuild_assigns_by_archetypes() {
    let mut stage = arch_staged::Stage1::new();
    stage.add(SystemWithMetadata::new(0, metadata(&[], &[], &[], &[1])));
    stage.add(SystemWithMetadata::new(1, metadata(&[], &[], &[], &[1])));
    stage.add(SystemWithMetadata::new(2, metadata(&[], &[], &[], &[1])));
    let pending = stage.take_unassigned();
    assert_eq!(pending.iter().map(|s| s.system).collect::<Vec<_>>(), vec![0, 1, 2]);
    let touched: [Vec<u64>; 3] = [vec![10, 11], vec![10], vec![12]];
    for swm in pending {
        let archetypes = touched[swm.system].clone();
        stage.assign(swm, &archetypes);
    }
    // All three write the same component. System 1 shares archetype 10 with system 0 and
    // opens a second sub-stage; system 2 touches only archetype 12 and joins the first.
    let again = stage.take_unassigned();
    assert_eq!(again.iter().map(|s| s.system).collect::<Vec<_>>(), vec![0, 2, 1]);
}

#[test]
fn arch_sub_stage_compatibility() {
    let mut sub = arch_staged::Stage2::new();
    let mut archetypes = yaks::type_set::TypeSet::new();
    archetypes.insert(3);
    sub.add(SystemWithMetadata::new('a', metadata(&[], &[], &[], &[1])), &mut archetypes);
    assert_eq!(archetypes.len(), 0);
    let writer = SystemWithMetadata::new('b', metadata(&[], &[], &[], &[1]));
    let mut same = yaks::type_set::TypeSet::new();
    same.insert(3);
    let mut other = yaks::type_set::TypeSet::new();
    other.insert(4);
    assert!(!sub.is_compatible(&writer, &same));
    assert!(sub.is_compatible(&writer, &other));
    let drained = sub.drain();
    assert_eq!(drained.len(), 1);
    assert!(sub.is_compatible(&writer, &same));
}

#[test]
fn sequential_runs_by_id() {
    let executor = ExecutorSequential::build(vec![SystemId(3), SystemId(0), SystemId(2), SystemId(1)]);
    let order: Vec<SystemId> = (0..executor.len()).map(|i| executor.system_at(i)).collect();
    assert_eq!(order, vec![SystemId(0), SystemId(1), SystemId(2), SystemId(3)]);
}

#[test]
fn arch_stage_rebuild_in_one_call() {
    let mut stage = arch_staged::Stage1::new();
    stage.add(SystemWithMetadata::new(0, metadata(&[], &[], &[], &[1])));
    stage.add(SystemWithMetadata::new(1, metadata(&[], &[], &[], &[1])));
    stage.add(SystemWithMetadata::new(2, metadata(&[], &[], &[], &[1])));
    stage.rebuild(&vec![vec![10, 11], vec![10], vec![12]]);
    // System 1 opened a second sub-stage; system 2 joined the first.
    let order: Vec<usize> = stage.take_unassigned().iter().map(|s| s.system).collect();
    assert_eq!(order, vec![0, 2, 1]);
}
