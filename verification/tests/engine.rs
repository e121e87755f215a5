use workpool::engine::{do_work, simulate, simulate_split, split_chunks, sum_partials};

#[test]
fn sim_zero_rounds_is_len() {
    assert_eq!(simulate(&vec![3, 4, 3, 1, 2], 6, 0), Some(5));
}

#[test]
fn sim_empty_population_stays_empty() {
    assert_eq!(simulate(&vec![], 6, 100), Some(0));
}

#[test]
fn sim_known_small_totals() {
    assert_eq!(simulate(&vec![3, 4, 3, 1, 2], 6, 18), Some(26));
    assert_eq!(simulate(&vec![3, 4, 3, 1, 2], 6, 80), Some(5934));
}

#[test]
fn sim_long_run_total() {
    assert_eq!(simulate(&vec![3, 4, 3, 1, 2], 6, 256), Some(26984457539));
}

#[test]
fn sim_zero_reset_grows_one_per_round() {
    assert_eq!(simulate(&vec![0], 0, 5), Some(6));
}

#[test]
fn sim_large_timer_only_counts_down() {
    assert_eq!(simulate(&vec![200], 6, 100), Some(1));
    assert_eq!(simulate(&vec![0], 6, 1), Some(2));
}

#[test]
fn do_work_matches_histogram_run() {
    let mut timers = vec![3, 4, 3, 1, 2];
    do_work(18, &mut timers, 6);
    assert_eq!(timers.len(), 26);
}

#[test]
fn round_composability_concrete() {
    // 10 rounds entity-wise, then 8 more on the histogram, equals 18 at once.
    let mut timers = vec![3, 4, 3, 1, 2];
    do_work(10, &mut timers, 6);
    assert_eq!(simulate(&timers, 6, 8), simulate(&vec![3, 4, 3, 1, 2], 6, 18));
}

#[test]
fn partition_invariance_concrete() {
    let whole = vec![2, 3, 8, 1, 0, 5, 6, 1];
    let chunks = split_chunks(&whole, 3);
    let mut parts = Vec::new();
    for c in &chunks {
        parts.push(simulate(c, 6, 50).unwrap());
    }
    let sum = sum_partials(&parts).unwrap();
    assert_eq!(Some(sum), simulate(&whole, 6, 50));
}

#[test]
fn split_chunks_sizes_and_order() {
    let data = vec![1, 2, 3, 4, 5, 6, 7];
    let chunks = split_chunks(&data, 3);
    assert_eq!(chunks.len(), 3);
    // 7 = 2 + 2 + 2 with remainder 1 going to the first chunk
    assert_eq!(chunks[0], vec![1, 2, 3]);
    assert_eq!(chunks[1], vec![4, 5]);
    assert_eq!(chunks[2], vec![6, 7]);
}

#[test]
fn split_single_chunk_is_whole() {
    let data = vec![9, 8, 7];
    let chunks = split_chunks(&data, 1);
    assert_eq!(chunks.len(), 1);
    assert_eq!(chunks[0], data);
}

#[test]
fn split_more_chunks_than_items() {
    let data = vec![5];
    let chunks = split_chunks(&data, 4);
    assert_eq!(chunks.len(), 4);
    assert_eq!(chunks[0], vec![5]);
    assert!(chunks[1].is_empty() && chunks[2].is_empty() && chunks[3].is_empty());
}

#[test]
fn split_phase_run_equals_direct_run() {
    let payload = vec![3, 4, 3, 1, 2];
    let split = simulate_split(&payload, 6, 150, 256, 3);
    assert_eq!(split, Some(26984457539));
    assert_eq!(split, simulate(&payload, 6, 256));
}

#[test]
fn sum_partials_exact() {
    assert_eq!(sum_partials(&vec![1, 2, 3, 4]), Some(10));
    assert_eq!(sum_partials(&vec![]), Some(0));
}

#[test]
fn sim_overflowing_total_is_none() {
    // a couple of thousand rounds push the population past 64 bits
    assert_eq!(simulate(&vec![1], 6, 2000), None);
}

#[test]
fn split_phase_overflow_is_none() {
    assert_eq!(simulate_split(&vec![1], 6, 10, 2000, 2), None);
}

#[test]
fn do_work_zero_rounds_changes_nothing() {
    let mut timers = vec![3, 4, 3, 1, 2];
    do_work(0, &mut timers, 6);
    assert_eq!(timers, vec![3, 4, 3, 1, 2]);
}

#[test]
fn sum_partials_overflow_is_none() {
    assert_eq!(sum_partials(&vec![u64::MAX, 1]), None);
    assert_eq!(sum_partials(&vec![u64::MAX]), Some(u64::MAX));
}
