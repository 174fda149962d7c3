use yaks::access_set::{Access, ArchetypeSet, BorrowSet, BorrowTypeSet};
use yaks::borrows::{ArchetypeAccess, CondensedBorrows, SystemBorrows};
use yaks::metadata::SystemMetadata;
use yaks::type_set::TypeSet;

fn type_set(keys: &[u64]) -> TypeSet {
    let mut set = TypeSet::new();
    for key in keys {
        set.insert(*key);
    }
    set
}

#[test]
fn type_set_keeps_insertion_order_without_repetition() {
    let mut set = TypeSet::new();
    assert!(set.insert(7));
    assert!(set.insert(3));
    assert!(!set.insert(7));
    assert_eq!(set.to_vec(), vec![7, 3]);
    set.extend(&type_set(&[3, 9]));
    assert_eq!(set.to_vec(), vec![7, 3, 9]);
    assert!(set.contains(9));
    assert!(!set.is_disjoint(&type_set(&[1, 9])));
    assert!(set.is_disjoint(&type_set(&[1, 2])));
    set.clear();
    assert_eq!(set.len(), 0);
}

#[test]
fn condense_marks_positions() {
    let mut types = BorrowTypeSet::new();
    types.immutable.insert(20);
    types.mutable.insert(40);
    let set = types.condense(&[10, 20, 30, 40]);
    assert_eq!(set.immutable.ones().collect::<Vec<_>>(), vec![1]);
    assert_eq!(set.mutable.ones().collect::<Vec<_>>(), vec![3]);
    assert_eq!(set.immutable.len(), 4);
}

#[test]
fn borrow_sets_conflict_only_on_writes() {
    let mut reader = BorrowSet::with_capacity(2);
    reader.insert_immutable(0);
    let mut other_reader = BorrowSet::with_capacity(2);
    other_reader.insert_immutable(0);
    let mut writer = BorrowSet::with_capacity(2);
    writer.insert_mutable(0);
    let mut elsewhere = BorrowSet::with_capacity(2);
    elsewhere.insert_mutable(1);
    assert!(reader.is_compatible(&other_reader));
    assert!(!reader.is_compatible(&writer));
    assert!(!writer.is_compatible(&reader));
    assert!(!writer.is_compatible(&writer));
    assert!(writer.is_compatible(&elsewhere));
}

#[test]
fn archetype_set_from_query_accesses() {
    let mut set = ArchetypeSet::new();
    set.set_bits_for_query(&vec![None, Some(Access::Read), Some(Access::Write), Some(Access::Iterate)]);
    assert_eq!(set.immutable.ones().collect::<Vec<_>>(), vec![1]);
    assert_eq!(set.mutable.ones().collect::<Vec<_>>(), vec![2]);
    // Rebuilding forgets what was there.
    set.set_bits_for_query(&vec![Some(Access::Write)]);
    assert_eq!(set.immutable.ones().count(), 0);
    assert_eq!(set.mutable.ones().collect::<Vec<_>>(), vec![0]);
    let mut other = ArchetypeSet::new();
    other.set_bits_for_query(&vec![None, Some(Access::Write)]);
    assert!(set.is_compatible(&other));
    other.set_bits_for_query(&vec![Some(Access::Read)]);
    assert!(!set.is_compatible(&other));
}

#[test]
fn condensed_borrows_fill_and_compare() {
    let mut borrows = SystemBorrows::new();
    borrows.resources_mutable.insert(100);
    borrows.components_immutable.insert(7);
    let mut condensed = CondensedBorrows::with_capacity(2, 2);
    condensed.fill(&borrows, &[50, 100], &[7, 8]);
    assert_eq!(condensed.resources_mutable.ones().collect::<Vec<_>>(), vec![1]);
    assert_eq!(condensed.components_immutable.ones().collect::<Vec<_>>(), vec![0]);

    let mut reader = SystemBorrows::new();
    reader.resources_immutable.insert(100);
    reader.components_immutable.insert(7);
    let mut other = CondensedBorrows::with_capacity(2, 2);
    other.fill(&reader, &[50, 100], &[7, 8]);
    assert!(!condensed.are_resources_compatible(&other));
    assert!(condensed.are_components_compatible(&other));

    condensed.clear();
    assert!(condensed.are_resources_compatible(&other));
    condensed.grow(5, 5);
    assert_eq!(condensed.resources_mutable.len(), 5);
}

#[test]
fn archetype_access_extend_grow_clear() {
    let mut access = ArchetypeAccess::new();
    access.grow(4);
    access.extend(&vec![(0, Access::Read), (2, Access::Write), (3, Access::Iterate)]);
    assert_eq!(access.immutable.ones().collect::<Vec<_>>(), vec![0]);
    assert_eq!(access.mutable.ones().collect::<Vec<_>>(), vec![2]);
    let mut other = ArchetypeAccess::new();
    other.grow(4);
    other.extend(&vec![(2, Access::Read)]);
    assert!(!access.is_compatible(&other));
    access.clear();
    assert!(access.is_compatible(&other));
}

#[test]
fn metadata_compatibility() {
    let mut metadata = SystemMetadata::new();
    metadata.resources_mutable.insert(1);
    metadata.components_immutable.insert(5);
    assert!(!metadata.are_resource_borrows_compatible(&type_set(&[1]), &type_set(&[])));
    assert!(metadata.are_resource_borrows_compatible(&type_set(&[2]), &type_set(&[3])));
    assert!(metadata.are_component_borrows_compatible(&type_set(&[5]), &type_set(&[])));
    assert!(!metadata.are_component_borrows_compatible(&type_set(&[]), &type_set(&[5])));
}

#[test]
fn metadata_compatibility_is_symmetric() {
    let mut writer = SystemMetadata::new();
    writer.components_mutable.insert(5);
    let mut reader = SystemMetadata::new();
    reader.components_immutable.insert(5);
    assert_eq!(
        writer.are_component_borrows_compatible(&reader.components_immutable, &reader.components_mutable),
        reader.are_component_borrows_compatible(&writer.components_immutable, &writer.components_mutable),
    );
    assert!(!writer.are_component_borrows_compatible(&reader.components_immutable, &reader.components_mutable));
}
