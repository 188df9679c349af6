use movie_explorer::catalog::{Catalog, CatalogEntry};
use movie_explorer::error::IngestError;
use movie_explorer::partition::IndexRange;
use movie_explorer::store::{EdgeTable, PeopleTable, Person};
use movie_explorer::worker;

fn people_with_ids(ids: &[i64]) -> PeopleTable {
    PeopleTable::from_rows(
        ids.iter()
            .map(|id| Person { id: *id, name: format!("person {id}") })
            .collect(),
    )
}

fn catalog_of(entries: &[(i64, &[i64])]) -> Catalog {
    Catalog::from_entries(
        entries
            .iter()
            .map(|(person, works)| CatalogEntry { person: *person, works: works.to_vec() })
            .collect(),
    )
}

#[test]
fn worker_walks_its_range_in_order() {
    let people = people_with_ids(&[101, 102]);
    let catalog = catalog_of(&[(101, &[1, 2]), (102, &[2])]);
    let mut store = EdgeTable::new();
    let mut signals = Vec::new();

    let r = worker::run(
        &people,
        &catalog,
        IndexRange { start: 1, end: 3 },
        &mut store,
        &mut signals,
    );

    assert_eq!(r, Ok(()));
    assert_eq!(signals, vec![101, 102]);
    assert_eq!(store.count(), 4);
    assert_eq!(store.get_person(1, 1), Some(101));
    assert_eq!(store.get_person(1, 2), Some(101));
    assert_eq!(store.get_person(2, 1), Some(101));
    // the pair (2, 2) was written first while walking contributor 101
    assert_eq!(store.get_person(2, 2), Some(101));
}

#[test]
fn empty_range_is_a_no_op() {
    let people = people_with_ids(&[101]);
    let catalog = catalog_of(&[(101, &[1])]);
    let mut store = EdgeTable::new();
    let mut signals = Vec::new();

    let r = worker::run(
        &people,
        &catalog,
        IndexRange { start: 1, end: 1 },
        &mut store,
        &mut signals,
    );

    assert_eq!(r, Ok(()));
    assert_eq!(store.count(), 0);
    assert!(signals.is_empty());
}

#[test]
fn contributor_without_works_produces_no_edges() {
    let people = people_with_ids(&[101]);
    let catalog = catalog_of(&[(101, &[])]);
    let mut store = EdgeTable::new();
    let mut signals = Vec::new();

    let r = worker::run(
        &people,
        &catalog,
        IndexRange { start: 1, end: 2 },
        &mut store,
        &mut signals,
    );

    assert_eq!(r, Ok(()));
    assert_eq!(store.count(), 0);
    assert_eq!(signals, vec![101]);
}

#[test]
fn missing_index_aborts_but_keeps_earlier_writes() {
    let people = people_with_ids(&[101, 102]);
    let catalog = catalog_of(&[(101, &[1]), (102, &[2])]);
    let mut store = EdgeTable::new();
    let mut signals = Vec::new();

    let r = worker::run(
        &people,
        &catalog,
        IndexRange { start: 1, end: 4 },
        &mut store,
        &mut signals,
    );

    assert_eq!(r, Err(IngestError::MissingPerson { index: 3 }));
    assert_eq!(signals, vec![101, 102]);
    assert_eq!(store.count(), 2);
    assert_eq!(store.get_person(1, 1), Some(101));
    assert_eq!(store.get_person(2, 2), Some(102));
}

#[test]
fn failed_catalog_call_aborts_the_worker() {
    let people = people_with_ids(&[101, 102]);
    let catalog = catalog_of(&[(101, &[1])]);
    let mut store = EdgeTable::new();
    let mut signals = Vec::new();

    let r = worker::run(
        &people,
        &catalog,
        IndexRange { start: 1, end: 3 },
        &mut store,
        &mut signals,
    );

    assert_eq!(r, Err(IngestError::CatalogFailure { person: 102 }));
    assert_eq!(signals, vec![101]);
    assert_eq!(store.count(), 1);
    assert_eq!(store.get_person(1, 1), Some(101));
}
