use movie_explorer::partition::{partition, IndexRange};

#[test]
fn zero_total_yields_empty_ranges() {
    let ranges = partition(0, 5);
    assert_eq!(ranges.len(), 5);
    for r in &ranges {
        assert_eq!(r.start, 1);
        assert_eq!(r.end, 1);
        assert!(r.is_empty());
    }
}

#[test]
fn single_task_covers_whole_span() {
    let ranges = partition(10, 1);
    assert_eq!(ranges, vec![IndexRange { start: 1, end: 11 }]);
}

#[test]
fn ten_by_three_sizes_three_three_four() {
    let ranges = partition(10, 3);
    assert_eq!(
        ranges,
        vec![
            IndexRange { start: 1, end: 4 },
            IndexRange { start: 4, end: 7 },
            IndexRange { start: 7, end: 11 },
        ]
    );
    let sizes: Vec<i64> = ranges.iter().map(|r| r.end - r.start).collect();
    assert_eq!(sizes, vec![3, 3, 4]);
    assert_eq!(sizes.iter().sum::<i64>(), 10);
    assert_eq!(ranges[0].start, 1);
    assert_eq!(ranges.last().unwrap().end, 11);
}

#[test]
fn seven_by_two_matches_expected_ranges() {
    let ranges = partition(7, 2);
    assert_eq!(
        ranges,
        vec![IndexRange { start: 1, end: 4 }, IndexRange { start: 4, end: 8 }]
    );
}

#[test]
fn ranges_are_disjoint_ascending_and_cover() {
    let total: i64 = 10;
    let ranges = partition(total, 4);
    for w in ranges.windows(2) {
        assert!(w[0].end <= w[1].start);
        assert!(w[0].start <= w[1].start);
    }
    for j in 1..=total {
        let owners = ranges.iter().filter(|r| r.start <= j && j < r.end).count();
        assert_eq!(owners, 1);
    }
    for r in &ranges {
        assert!(1 <= r.start && r.end <= total + 1);
    }
}

#[test]
fn more_tasks_than_indices_leaves_empty_ranges() {
    let ranges = partition(3, 5);
    assert_eq!(ranges.len(), 5);
    let covered: Vec<i64> = ranges
        .iter()
        .flat_map(|r| (r.start..r.end).collect::<Vec<i64>>())
        .collect();
    assert_eq!(covered, vec![1, 2, 3]);
    assert!(ranges.iter().any(|r| r.is_empty()));
}
