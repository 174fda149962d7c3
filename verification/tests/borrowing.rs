use yaks::access_set::BorrowSet;
use yaks::fetch::{fetch_resources, release_resources};
use yaks::atomic_borrow::AtomicBorrow;
use yaks::markers::{Mut, Ref, ResourceTuple};
use yaks::resource_cell::{ResourceCell, ResourceMutCell, ResourceRefCell};

#[test]
fn new_tracker_is_free() {
    let borrow = AtomicBorrow::new();
    assert!(borrow.is_free());
}

#[test]
fn shared_borrows_stack_and_release() {
    let mut borrow = AtomicBorrow::new();
    assert!(borrow.borrow());
    assert!(borrow.borrow());
    assert!(!borrow.is_free());
    borrow.release();
    assert!(!borrow.is_free());
    borrow.release();
    assert!(borrow.is_free());
}

#[test]
fn unique_borrow_excludes_everything() {
    let mut borrow = AtomicBorrow::new();
    assert!(borrow.borrow_mut());
    assert!(!borrow.borrow());
    assert!(!borrow.borrow_mut());
    borrow.release_mut();
    assert!(borrow.is_free());
    assert!(borrow.borrow());
    assert!(!borrow.borrow_mut());
    borrow.release();
    assert!(borrow.borrow_mut());
}

#[test]
fn release_undoes_borrow() {
    let mut borrow = AtomicBorrow::new();
    assert!(borrow.borrow());
    borrow.release();
    assert!(borrow.borrow_mut());
    borrow.release_mut();
    assert!(borrow.is_free());
}

#[test]
fn ref_cell_hands_out_the_resource() {
    let value = 41usize;
    let mut borrow = AtomicBorrow::new();
    {
        let mut cell = ResourceRefCell::new(&value, &mut borrow);
        let first = cell.cell_borrow_ref();
        let second = cell.cell_borrow_ref();
        assert_eq!(*first + 1, 42);
        assert_eq!(*second, 41);
        cell.cell_release_ref();
        cell.cell_release_ref();
    }
    assert!(borrow.is_free());
}

#[test]
fn mut_cell_writes_through() {
    let mut value = 1usize;
    let mut borrow = AtomicBorrow::new();
    {
        let mut cell = ResourceMutCell::new(&mut value, &mut borrow);
        *cell.cell_borrow_mut() += 10;
        cell.cell_release_mut();
        assert_eq!(*cell.cell_borrow_ref(), 11);
        cell.cell_release_ref();
    }
    assert_eq!(value, 11);
    assert!(borrow.is_free());
}

#[test]
fn mut_cell_records_its_borrows() {
    let mut value = 1usize;
    let mut borrow = AtomicBorrow::new();
    {
        let mut cell = ResourceMutCell::new(&mut value, &mut borrow);
        cell.cell_borrow_mut();
        assert!(!cell.borrow.borrow());
        cell.cell_release_mut();
    }
    assert!(borrow.is_free());
}

#[test]
fn resource_cell_reads_and_writes() {
    let mut value = vec![1u8];
    let mut borrow = AtomicBorrow::new();
    {
        let mut cell = ResourceCell::new(&mut value, &mut borrow);
        cell.borrow_mut().push(2);
        cell.release_mut();
        assert_eq!(cell.borrow().len(), 2);
        cell.release();
    }
    assert_eq!(value, vec![1, 2]);
    assert!(borrow.is_free());
}

#[test]
fn resource_tuples_count_and_instantiate() {
    assert_eq!(<() as ResourceTuple>::LENGTH, 0);
    assert_eq!(<Ref<u8> as ResourceTuple>::LENGTH, 1);
    assert_eq!(<(Ref<u8>, Mut<u16>) as ResourceTuple>::LENGTH, 2);
    assert_eq!(<(Ref<u8>, Mut<u16>, Ref<u32>, Mut<u64>) as ResourceTuple>::LENGTH, 4);
    let borrows = <(Ref<u8>, Mut<u16>, Ref<u32>) as ResourceTuple>::instantiate_borrows();
    assert!(borrows.0.is_free() && borrows.1.is_free() && borrows.2.is_free());
    let (single,) = <Mut<u8> as ResourceTuple>::instantiate_borrows();
    assert!(single.is_free());
}

#[test]
fn fetch_takes_and_release_gives_back() {
    let mut trackers = vec![AtomicBorrow::new(), AtomicBorrow::new(), AtomicBorrow::new()];
    let mut reads_0_writes_2 = BorrowSet::with_capacity(3);
    reads_0_writes_2.insert_immutable(0);
    reads_0_writes_2.insert_mutable(2);
    assert!(fetch_resources(&mut trackers, &reads_0_writes_2));
    assert!(!trackers[0].is_free() && trackers[1].is_free() && !trackers[2].is_free());
    // Another reader of resource 0 is granted; a writer of resource 2 is refused, and
    // takes nothing.
    let mut reads_0 = BorrowSet::with_capacity(3);
    reads_0.insert_immutable(0);
    assert!(fetch_resources(&mut trackers, &reads_0));
    let mut reads_1_writes_2 = BorrowSet::with_capacity(3);
    reads_1_writes_2.insert_immutable(1);
    reads_1_writes_2.insert_mutable(2);
    assert!(!fetch_resources(&mut trackers, &reads_1_writes_2));
    assert!(trackers[1].is_free());
    release_resources(&mut trackers, &reads_0);
    release_resources(&mut trackers, &reads_0_writes_2);
    assert!(trackers.iter().all(|t| t.is_free()));
}

#[test]
fn self_conflicting_system_gets_nothing() {
    let mut trackers = vec![AtomicBorrow::new()];
    let mut both = BorrowSet::with_capacity(1);
    both.insert_immutable(0);
    both.insert_mutable(0);
    assert!(!fetch_resources(&mut trackers, &both));
    assert!(trackers[0].is_free());
}
