use movie_explorer::progress::{per_item_elapsed, progress_permille, ProgressTracker};

#[test]
fn milestone_fires_every_hundred_signals() {
    let mut tracker = ProgressTracker::new();
    for i in 1..=250u64 {
        let milestone = tracker.record();
        assert_eq!(milestone, i % 100 == 0, "signal {i}");
        assert_eq!(tracker.count, i);
    }
}

#[test]
fn permille_is_an_integer_fraction_of_the_total() {
    assert_eq!(progress_permille(0, 10), 0);
    assert_eq!(progress_permille(5, 10), 500);
    assert_eq!(progress_permille(10, 10), 1000);
    assert_eq!(progress_permille(1, 3), 333);
    assert_eq!(progress_permille(7, 2000), 3);
}

#[test]
fn per_item_elapsed_averages_over_the_interval() {
    assert_eq!(per_item_elapsed(1000), 10);
    assert_eq!(per_item_elapsed(99), 0);
    assert_eq!(per_item_elapsed(12_345), 123);
}
