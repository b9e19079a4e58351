use collatzish::memoizer::CollatzishMemoized;
use collatzish::records::{FinalLoop, NumberPath};
use collatzish::tally::counts;

#[test]
fn counts_of_an_empty_memoizer() {
    let memo = CollatzishMemoized::new(3, 1);
    assert!(counts(&memo).is_empty());
}

#[test]
fn counts_with_one_loop() {
    let mut memo = CollatzishMemoized::new(3, 1);
    memo.add_all_paths(10);
    let result = counts(&memo);
    assert_eq!(result.len(), 1);
    assert_eq!(result.get(&1), Some(&22));
    assert_eq!(memo.number_path_map.len(), 22);
}

#[test]
fn counts_with_several_loops() {
    let mut memo = CollatzishMemoized::new(3, 5);
    memo.add_all_paths(30);
    let result = counts(&memo);
    let mut pairs: Vec<(u64, u64)> = result.iter().map(|(k, v)| (*k, *v)).collect();
    pairs.sort();
    let mut expected: Vec<(u64, u64)> = Vec::new();
    for key in memo.final_loop_map.keys() {
        let n = memo.number_path_map.values().filter(|r| r.final_loop == *key).count() as u64;
        expected.push((*key, n));
    }
    expected.sort();
    assert_eq!(pairs, expected);
    assert_eq!(pairs.iter().map(|p| p.0).collect::<Vec<u64>>(), vec![1, 5, 19, 23]);
    let total: u64 = pairs.iter().map(|p| p.1).sum();
    assert_eq!(total as usize, memo.number_path_map.len());
    assert_eq!(pairs, vec![(1, 8), (5, 9), (19, 46), (23, 8)]);
    assert_eq!(memo.number_path_map.len(), 71);
}

#[test]
fn counts_leave_out_records_of_unknown_loops() {
    // a state put together by hand: one record names a loop that is not filed
    let mut memo = CollatzishMemoized::new(3, 1);
    memo.final_loop_map.insert(1, FinalLoop { min_value: 1, loop_length: 3 });
    memo.number_path_map
        .insert(1, NumberPath { start: 1, next: 4, final_loop: 1, length_to_loop: 0 });
    memo.number_path_map
        .insert(2, NumberPath { start: 2, next: 1, final_loop: 1, length_to_loop: 0 });
    memo.number_path_map
        .insert(9, NumberPath { start: 9, next: 28, final_loop: 7, length_to_loop: 2 });
    let result = counts(&memo);
    assert_eq!(result.len(), 1);
    assert_eq!(result.get(&1), Some(&2));
}

#[test]
fn counts_after_exploring_up_to_ten_thousand() {
    let mut memo = CollatzishMemoized::new(3, 1);
    memo.add_all_paths(10000);
    assert_eq!(memo.final_loop_map.len(), 1);
    assert_eq!(memo.number_path_map.len(), 21664);
    assert_eq!(memo.number_path_map.get(&6171).map(|r| r.length_to_loop), Some(259));
    assert!(memo.number_path_map.contains_key(&27114424));
    let result = counts(&memo);
    assert_eq!(result.len(), 1);
    assert_eq!(result.get(&1), Some(&21664));
}
