use yaks::access_set::{BorrowSet, BorrowTypeSet};
use yaks::atomic_borrow::AtomicBorrow;
use yaks::builder::ExecutorBuilder;
use yaks::plan::ExecutorParallel;
use yaks::resource_cell::{ResourceMutCell, ResourceRefCell};
use yaks::system_id::SystemId;

struct A(usize);
struct B(usize);
struct C(usize);

const COMPONENT_A: u64 = 1;
const COMPONENT_B: u64 = 2;
const COMPONENT_C: u64 = 3;

/// A system's resource borrows over an executor of `count` resources.
fn resources(count: usize, read: &[usize], write: &[usize]) -> BorrowSet {
    let mut set = BorrowSet::with_capacity(count);
    for i in read {
        set.insert_immutable(*i);
    }
    for i in write {
        set.insert_mutable(*i);
    }
    set
}

fn components(read: &[u64], write: &[u64]) -> BorrowTypeSet {
    let mut set = BorrowTypeSet::new();
    for key in read {
        set.immutable.insert(*key);
    }
    for key in write {
        set.mutable.insert(*key);
    }
    set
}

#[test]
fn trivial() {
    ExecutorBuilder::new()
        .system(resources(0, &[], &[]), components(&[], &[]))
        .system(resources(0, &[], &[]), components(&[], &[]))
        .build()
        .unwrap_to_dispatcher();
}

#[test]
fn trivial_with_resources() {
    ExecutorBuilder::new()
        .system(resources(3, &[], &[]), components(&[], &[]))
        .system(resources(3, &[], &[]), components(&[], &[]))
        .build()
        .unwrap_to_dispatcher();
}

#[test]
fn resources_disjoint() {
    let mut a = A(0);
    let mut b = B(1);
    let c = C(2);
    // Resources (Mut<A>, Mut<B>, Ref<C>): the first system writes `A` and reads `C`, the
    // second writes `B` and reads `C`.
    let dispatcher = ExecutorBuilder::new()
        .system(resources(3, &[2], &[0]), components(&[], &[]))
        .system(resources(3, &[2], &[1]), components(&[], &[]))
        .build()
        .unwrap_to_dispatcher();
    let mut borrows = (AtomicBorrow::new(), AtomicBorrow::new(), AtomicBorrow::new());
    {
        let mut cell_a = ResourceMutCell::new(&mut a, &mut borrows.0);
        let mut cell_b = ResourceMutCell::new(&mut b, &mut borrows.1);
        let mut cell_c = ResourceRefCell::new(&c, &mut borrows.2);
        for id in &dispatcher.systems {
            if *id == SystemId(0) {
                let c = cell_c.cell_borrow_ref();
                let a = cell_a.cell_borrow_mut();
                a.0 += c.0;
                cell_a.cell_release_mut();
                cell_c.cell_release_ref();
            } else {
                let c = cell_c.cell_borrow_ref();
                let b = cell_b.cell_borrow_mut();
                b.0 += c.0;
                cell_b.cell_release_mut();
                cell_c.cell_release_ref();
            }
        }
    }
    assert_eq!(a.0, 2);
    assert_eq!(b.0, 3);
    assert!(borrows.0.is_free() && borrows.1.is_free() && borrows.2.is_free());
}

#[test]
fn components_disjoint() {
    // Ten entities with `A`, `B` and `C`; the systems read resource `A` and `A`, and write
    // `B` and `C` respectively.
    let mut b = vec![0usize; 10];
    let mut c = vec![0usize; 10];
    let a = A(1);
    let dispatcher = ExecutorBuilder::new()
        .system(resources(1, &[0], &[]), components(&[COMPONENT_A], &[COMPONENT_B]))
        .system(resources(1, &[0], &[]), components(&[COMPONENT_A], &[COMPONENT_C]))
        .build()
        .unwrap_to_dispatcher();
    let mut borrow = AtomicBorrow::new();
    {
        let mut cell = ResourceRefCell::new(&a, &mut borrow);
        for id in &dispatcher.systems {
            let a = cell.cell_borrow_ref();
            let target = if *id == SystemId(0) { &mut b } else { &mut c };
            target.iter_mut().for_each(|x| *x += a.0);
            cell.cell_release_ref();
        }
    }
    for (b, c) in b.iter().zip(c.iter()) {
        assert_eq!(*b, 1);
        assert_eq!(*c, 1);
    }
}

#[test]
fn dispatcher_holds_every_system_in_order() {
    let dispatcher = ExecutorBuilder::new()
        .system(resources(2, &[0], &[]), components(&[], &[]))
        .system(resources(2, &[0], &[]), components(&[], &[]))
        .system(resources(2, &[], &[1]), components(&[], &[]))
        .build()
        .unwrap_to_dispatcher();
    assert_eq!(dispatcher.systems, vec![SystemId(0), SystemId(1), SystemId(2)]);
}

#[test]
fn shared_writes_need_a_scheduler() {
    let built = ExecutorBuilder::new()
        .system(resources(1, &[], &[0]), components(&[], &[]))
        .system(resources(1, &[0], &[]), components(&[], &[]))
        .build();
    assert!(matches!(built, ExecutorParallel::Scheduling(_)));
}

#[test]
fn conflicting_queries_need_a_scheduler() {
    let built = ExecutorBuilder::new()
        .system(resources(0, &[], &[]), components(&[], &[COMPONENT_B]))
        .system(resources(0, &[], &[]), components(&[COMPONENT_B], &[]))
        .build();
    assert!(matches!(built, ExecutorParallel::Scheduling(_)));
}

#[test]
fn disjoint_systems_with_dependencies_get_a_scheduler() {
    let mut scheduler = ExecutorBuilder::new()
        .system_with_handle(resources(0, &[], &[]), components(&[], &[]), 5)
        .system_with_deps(resources(0, &[], &[]), components(&[], &[]), vec![5])
        .build()
        .unwrap_to_scheduler();
    assert!(scheduler.prepare(0));
    let first = scheduler.start_all_currently_runnable();
    assert_eq!(first, vec![SystemId(0)]);
    assert_eq!(scheduler.running_count(), 1);
    scheduler.process_finished(first);
    let second = scheduler.start_all_currently_runnable();
    assert_eq!(second, vec![SystemId(1)]);
    scheduler.process_finished(second);
    assert!(scheduler.is_done());
}
