use movie_explorer::derive::derive_edges;
use movie_explorer::store::{Edge, EdgeTable};

#[test]
fn empty_work_list_derives_no_edges() {
    let edges = derive_edges(&vec![], 7);
    assert!(edges.is_empty());
}

#[test]
fn single_work_derives_exactly_one_self_loop() {
    let edges = derive_edges(&vec![42], 7);
    assert_eq!(edges, vec![Edge { previous_node: 42, next_node: 42, person: 7 }]);
}

#[test]
fn three_works_derive_nine_ordered_pairs() {
    let works = vec![1, 2, 3];
    let edges = derive_edges(&works, 7);
    assert_eq!(edges.len(), 9);
    let mut expected = Vec::new();
    for a in &works {
        for b in &works {
            expected.push(Edge { previous_node: *a, next_node: *b, person: 7 });
        }
    }
    assert_eq!(edges, expected);
    let self_loops = edges.iter().filter(|e| e.previous_node == e.next_node).count();
    assert_eq!(self_loops, 3);
}

#[test]
fn store_side_dedup_adds_only_missing_pairs() {
    let mut table = EdgeTable::new();
    table.insert(Edge { previous_node: 1, next_node: 2, person: 99 });
    table.insert(Edge { previous_node: 3, next_node: 3, person: 98 });

    let edges = derive_edges(&vec![1, 2, 3], 7);
    table.insert_bulk(&edges);

    assert_eq!(table.count(), 9);
    assert_eq!(table.get_person(1, 2), Some(99));
    assert_eq!(table.get_person(3, 3), Some(98));
    assert_eq!(table.get_person(2, 1), Some(7));
    for a in [1i64, 2, 3] {
        for b in [1i64, 2, 3] {
            assert!(table.contains_pair(a, b));
        }
    }
}
