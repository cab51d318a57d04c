use beaver::parallel::worker_count;

#[test]
fn keeps_results_in_input_order() {
    let items: Vec<usize> = (0..1000).collect();
    let doubled = beaver::parallel::map(&items, |item| item * 2);
    assert_eq!(
        doubled,
        items.iter().map(|item| item * 2).collect::<Vec<_>>()
    );
}

#[test]
fn handles_a_workload_too_small_to_spread() {
    assert_eq!(beaver::parallel::map(&[1, 2, 3], |item| item + 1), [2, 3, 4]);
    assert!(beaver::parallel::map::<u8, u8, _>(&[], |item| *item).is_empty());
}

#[test]
fn worker_count_stays_home_for_small_work() {
    assert_eq!(worker_count(7, 8), 1);
    assert_eq!(worker_count(8, 8), 2);
    assert_eq!(worker_count(1000, 64), 16);
    assert_eq!(worker_count(1000, 0), 1);
    assert_eq!(worker_count(40, 4), 4);
}
