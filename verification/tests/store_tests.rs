use movie_explorer::error::IngestError;
use movie_explorer::store::{Edge, EdgeTable, Movie, PeopleTable, Person};

#[test]
fn row_types_carry_external_id_and_display_text() {
    let movie = Movie { id: 603, original_title: "some film".to_string() };
    let person = Person { id: 6384, name: "someone".to_string() };
    assert_eq!(movie.clone(), movie);
    assert_eq!(person.clone(), person);
    assert_ne!(movie.id, person.id);
}

#[test]
fn inserting_same_edge_twice_keeps_one_row() {
    let mut table = EdgeTable::new();
    let e = Edge { previous_node: 1, next_node: 2, person: 7 };
    table.insert(e);
    table.insert(e);
    assert_eq!(table.count(), 1);
    assert_eq!(table.get_person(1, 2), Some(7));
}

#[test]
fn conflicting_write_keeps_first_contributor() {
    let mut table = EdgeTable::new();
    table.insert(Edge { previous_node: 1, next_node: 2, person: 7 });
    table.insert(Edge { previous_node: 1, next_node: 2, person: 9 });
    assert_eq!(table.count(), 1);
    assert_eq!(table.get_person(1, 2), Some(7));
}

#[test]
fn reversed_pair_is_a_distinct_row() {
    let mut table = EdgeTable::new();
    table.insert(Edge { previous_node: 1, next_node: 2, person: 7 });
    table.insert(Edge { previous_node: 2, next_node: 1, person: 9 });
    assert_eq!(table.count(), 2);
    assert_eq!(table.get_person(1, 2), Some(7));
    assert_eq!(table.get_person(2, 1), Some(9));
}

#[test]
fn bulk_write_absorbs_duplicates_inside_the_batch() {
    let mut table = EdgeTable::new();
    let batch = vec![
        Edge { previous_node: 1, next_node: 1, person: 7 },
        Edge { previous_node: 1, next_node: 2, person: 7 },
        Edge { previous_node: 1, next_node: 2, person: 8 },
        Edge { previous_node: 1, next_node: 1, person: 9 },
    ];
    table.insert_bulk(&batch);
    assert_eq!(table.count(), 2);
    assert_eq!(table.get_person(1, 1), Some(7));
    assert_eq!(table.get_person(1, 2), Some(7));
}

#[test]
fn contains_pair_reports_presence() {
    let mut table = EdgeTable::new();
    assert!(!table.contains_pair(3, 4));
    table.insert(Edge { previous_node: 3, next_node: 4, person: 1 });
    assert!(table.contains_pair(3, 4));
    assert!(!table.contains_pair(4, 3));
    assert_eq!(table.get_person(4, 3), None);
}

fn seed_people() -> PeopleTable {
    PeopleTable::from_rows(vec![
        Person { id: 101, name: "first".to_string() },
        Person { id: 102, name: "second".to_string() },
    ])
}

#[test]
fn dense_index_translates_to_external_id() {
    let people = seed_people();
    assert_eq!(people.count(), 2);
    assert_eq!(people.get_tmdb_id(1), Ok(101));
    assert_eq!(people.get_tmdb_id(2), Ok(102));
}

#[test]
fn missing_index_is_a_consistency_failure() {
    let people = seed_people();
    assert_eq!(
        people.get_tmdb_id(0),
        Err(IngestError::MissingPerson { index: 0 })
    );
    assert_eq!(
        people.get_tmdb_id(3),
        Err(IngestError::MissingPerson { index: 3 })
    );
}
