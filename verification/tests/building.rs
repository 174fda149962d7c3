use yaks::access_set::{BorrowSet, BorrowTypeSet};
use yaks::builder::{DummyHandle, ExecutorBuilder, HandleConversion};
use yaks::error::{CantInsertSystem, NoSuchSystem};
use yaks::system_id::SystemId;

fn nothing() -> (BorrowSet, BorrowTypeSet) {
    (BorrowSet::with_capacity(0), BorrowTypeSet::new())
}

#[test]
fn handles_name_systems_in_insertion_order() {
    let (r0, c0) = nothing();
    let (r1, c1) = nothing();
    let (r2, c2) = nothing();
    let builder = ExecutorBuilder::new()
        .system(r0, c0)
        .system_with_handle(r1, c1, 10)
        .system_with_handle_and_deps(r2, c2, 20, vec![10]);
    assert_eq!(builder.len(), 3);
    assert_eq!(builder.handle_id(10), Some(SystemId(1)));
    assert_eq!(builder.handle_id(20), Some(SystemId(2)));
    assert_eq!(builder.handle_id(30), None);
    assert!(builder.has_handle(20));
    assert_eq!(builder.resolve_dependencies(&vec![20, 10]).ok(), Some(vec![SystemId(2), SystemId(1)]));
    assert_eq!(builder.resolve_dependencies(&vec![10, 30, 40]).err(), Some(1));
}

#[test]
fn handle_tables_convert() {
    let none: Vec<(u64, SystemId)> = <u64 as HandleConversion<DummyHandle>>::convert_handles(vec![(DummyHandle, SystemId(0))]);
    assert!(none.is_empty());
    let same = <u64 as HandleConversion<u64>>::convert_handles(vec![(4, SystemId(1))]);
    assert_eq!(same, vec![(4, SystemId(1))]);
}

#[test]
fn errors_compare() {
    assert_eq!(NoSuchSystem, NoSuchSystem);
    assert_eq!(CantInsertSystem::DependencyNotFound("a".to_string()), CantInsertSystem::DependencyNotFound("a".to_string()));
    assert_ne!(CantInsertSystem::CyclicDependency, CantInsertSystem::DependencyNotFound(String::new()));
}

#[test]
fn error_messages() {
    assert_eq!(NoSuchSystem.message(), "no such system");
    assert_eq!(
        CantInsertSystem::CyclicDependency.message(),
        "inserting the system would create a cycle of dependencies"
    );
    assert_eq!(
        CantInsertSystem::DependencyNotFound("physics".to_string()).message(),
        "invalid dependency: no system with handle `\"physics\"`"
    );
}
