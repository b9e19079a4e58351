use collatzish::memoizer::CollatzishMemoized;
use collatzish::records::{FinalLoop, NumberPath};

fn iterate(memo: &CollatzishMemoized, mut x: u64, steps: u64) -> u64 {
    for _ in 0..steps {
        x = memo.calc_next(x);
    }
    x
}

#[test]
fn new_memoizer_is_empty() {
    let memo = CollatzishMemoized::new(3, 1);
    assert_eq!(memo.mult, 3);
    assert_eq!(memo.add, 1);
    assert!(memo.number_path_map.is_empty());
    assert!(memo.final_loop_map.is_empty());
}

#[test]
fn calc_next_halves_even_numbers() {
    let memo = CollatzishMemoized::new(3, 1);
    assert_eq!(memo.calc_next(0), 0);
    assert_eq!(memo.calc_next(2), 1);
    assert_eq!(memo.calc_next(10), 5);
    assert_eq!(memo.calc_next(u64::MAX - 1), u64::MAX / 2);
}

#[test]
fn calc_next_multiplies_and_adds_odd_numbers() {
    let memo = CollatzishMemoized::new(3, 1);
    assert_eq!(memo.calc_next(1), 4);
    assert_eq!(memo.calc_next(3), 10);
    assert_eq!(memo.calc_next(27), 82);
    let other = CollatzishMemoized::new(5, 7);
    assert_eq!(other.calc_next(9), 52);
    assert_eq!(other.calc_next(8), 4);
}

#[test]
fn calc_next_wraps_where_the_product_does_not_fit() {
    let memo = CollatzishMemoized::new(3, 1);
    assert_eq!(memo.calc_next(u64::MAX), u64::MAX - 1);
    let big = CollatzishMemoized::new(u64::MAX, u64::MAX);
    // (2^64 - 1) * 3 + (2^64 - 1) = 4 * 2^64 - 4
    assert_eq!(big.calc_next(3), u64::MAX - 3);
}

#[test]
fn path_of_six() {
    let mut memo = CollatzishMemoized::new(3, 1);
    let path = memo.get_add_path(6);
    assert_eq!(path, vec![6, 3, 10, 5, 16, 8, 4, 2, 1, 4]);
    assert_eq!(memo.final_loop_map.len(), 1);
    assert_eq!(memo.final_loop_map.get(&1), Some(&FinalLoop { min_value: 1, loop_length: 3 }));
    let record = memo.add_path(6);
    assert_eq!(record, NumberPath { start: 6, next: 3, final_loop: 1, length_to_loop: 6 });
}

#[test]
fn path_of_one_is_the_loop() {
    let mut memo = CollatzishMemoized::new(3, 1);
    let record = memo.add_path(1);
    assert_eq!(record, NumberPath { start: 1, next: 4, final_loop: 1, length_to_loop: 0 });
    assert_eq!(memo.get_add_path(1), vec![1, 4, 2, 1]);
    assert_eq!(memo.number_path_map.len(), 3);
}

#[test]
fn bulk_population_to_ten() {
    let mut memo = CollatzishMemoized::new(3, 1);
    memo.add_all_paths(10);
    assert_eq!(memo.final_loop_map.len(), 1);
    assert_eq!(memo.final_loop_map.get(&1), Some(&FinalLoop { min_value: 1, loop_length: 3 }));
    for i in 1..=10u64 {
        let record = memo.number_path_map.get(&i).expect("every number up to the limit is cached");
        assert_eq!(record.start, i);
        assert_eq!(record.final_loop, 1);
    }
    // 1..=10 and the values their trajectories pass through
    let mut keys: Vec<u64> = memo.number_path_map.keys().copied().collect();
    keys.sort();
    assert_eq!(keys, vec![1, 2, 3, 4, 5, 6, 7, 8, 9, 10, 11, 13, 14, 16, 17, 20, 22, 26, 28, 34, 40, 52]);
}

#[test]
fn bulk_population_with_limit_zero_does_nothing() {
    let mut memo = CollatzishMemoized::new(3, 1);
    memo.add_all_paths(0);
    assert!(memo.number_path_map.is_empty());
    assert!(memo.final_loop_map.is_empty());
}

#[test]
fn cached_path_of_unknown_number_is_absent() {
    let mut memo = CollatzishMemoized::new(3, 1);
    assert_eq!(memo.get_path(6), None);
    memo.add_path(6);
    assert_eq!(memo.get_path(7), None);
    assert_eq!(memo.get_path(27), None);
}

#[test]
fn cached_path_of_known_number() {
    let mut memo = CollatzishMemoized::new(3, 1);
    memo.add_path(7);
    assert_eq!(
        memo.get_path(7),
        Some(vec![7, 22, 11, 34, 17, 52, 26, 13, 40, 20, 10, 5, 16, 8, 4, 2, 1, 4])
    );
    // values on the way are cached too
    assert_eq!(memo.get_path(10), Some(vec![10, 5, 16, 8, 4, 2, 1, 4]));
    assert_eq!(memo.get_path(2), Some(vec![2, 1, 4, 2]));
}

#[test]
fn add_path_twice_gives_the_same_record() {
    let mut memo = CollatzishMemoized::new(3, 1);
    let first = memo.add_path(27);
    let paths = memo.number_path_map.clone();
    let loops = memo.final_loop_map.clone();
    let second = memo.add_path(27);
    assert_eq!(first, second);
    assert_eq!(first, NumberPath { start: 27, next: 82, final_loop: 1, length_to_loop: 109 });
    assert_eq!(memo.number_path_map, paths);
    assert_eq!(memo.final_loop_map, loops);
}

#[test]
fn every_cached_record_has_a_cached_successor() {
    let mut memo = CollatzishMemoized::new(3, 5);
    memo.add_path(27);
    memo.add_path(3);
    memo.add_path(187);
    for (key, record) in memo.number_path_map.iter() {
        assert_eq!(record.start, *key);
        assert_eq!(record.next, memo.calc_next(*key));
        let successor = memo.number_path_map.get(&record.next).expect("successor is cached");
        assert_eq!(successor.final_loop, record.final_loop);
        if record.length_to_loop > 0 {
            assert_eq!(successor.length_to_loop, record.length_to_loop - 1);
        } else {
            assert_eq!(successor.length_to_loop, 0);
        }
        assert!(memo.final_loop_map.contains_key(&record.final_loop));
    }
}

#[test]
fn loop_is_named_by_its_smallest_member_whatever_comes_first() {
    // the loop 19, 62, 31, 98, 49, 152, 76, 38 entered at different members
    let mut from_three = CollatzishMemoized::new(3, 5);
    from_three.add_path(3);
    let mut from_152 = CollatzishMemoized::new(3, 5);
    from_152.add_path(152);
    let mut from_19 = CollatzishMemoized::new(3, 5);
    from_19.add_path(19);
    for memo in [&from_three, &from_152, &from_19] {
        assert_eq!(memo.final_loop_map.len(), 1);
        assert_eq!(memo.final_loop_map.get(&19), Some(&FinalLoop { min_value: 19, loop_length: 8 }));
        for member in [19u64, 62, 31, 98, 49, 152, 76, 38] {
            assert_eq!(
                memo.number_path_map.get(&member),
                Some(&NumberPath {
                    start: member,
                    next: memo.calc_next(member),
                    final_loop: 19,
                    length_to_loop: 0
                })
            );
        }
    }
    assert_eq!(
        from_three.number_path_map.get(&3),
        Some(&NumberPath { start: 3, next: 14, final_loop: 19, length_to_loop: 8 })
    );
}

#[test]
fn several_loops_are_found() {
    let mut memo = CollatzishMemoized::new(3, 5);
    memo.add_all_paths(200);
    let mut loops: Vec<(u64, u64)> =
        memo.final_loop_map.values().map(|l| (l.min_value, l.loop_length)).collect();
    loops.sort();
    assert_eq!(loops, vec![(1, 4), (5, 3), (19, 8), (23, 8), (187, 44), (347, 44)]);
    assert_eq!(memo.number_path_map.get(&29).map(|r| r.final_loop), Some(23));
    assert_eq!(memo.number_path_map.get(&29).map(|r| r.length_to_loop), Some(0));
    assert_eq!(memo.number_path_map.get(&7).map(|r| (r.final_loop, r.length_to_loop)), Some((19, 6)));
}

#[test]
fn loop_length_is_the_least_return_time() {
    let mut memo = CollatzishMemoized::new(3, 5);
    memo.add_all_paths(200);
    for (key, entry) in memo.final_loop_map.iter() {
        assert_eq!(entry.min_value, *key);
        assert!(entry.loop_length > 0);
        assert_eq!(iterate(&memo, *key, entry.loop_length), *key);
        for fewer in 1..entry.loop_length {
            let value = iterate(&memo, *key, fewer);
            assert_ne!(value, *key);
            assert!(value > *key);
        }
    }
}

#[test]
fn paths_follow_the_recurrence_and_end_with_one_round_of_the_loop() {
    let mut memo = CollatzishMemoized::new(3, 5);
    for x in [1u64, 3, 5, 7, 23, 29, 64, 187, 100] {
        let path = memo.get_add_path(x);
        let record = memo.add_path(x);
        let round = memo.final_loop_map.get(&record.final_loop).expect("loop is known").loop_length;
        assert_eq!(path[0], x);
        assert_eq!(path.len() as u64, record.length_to_loop + round + 1);
        for pair in path.windows(2) {
            assert_eq!(pair[1], memo.calc_next(pair[0]));
        }
        let lead = record.length_to_loop as usize;
        let tail = &path[lead..];
        assert_eq!(tail[0], tail[tail.len() - 1]);
        let mut members: Vec<u64> = tail[..tail.len() - 1].to_vec();
        assert_eq!(members.iter().min(), Some(&record.final_loop));
        members.sort();
        members.dedup();
        assert_eq!(members.len() as u64, round);
        // nothing before the loop is part of it
        for value in &path[..lead] {
            assert!(!members.contains(value));
        }
    }
    assert_eq!(
        memo.get_path(3),
        Some(vec![3, 14, 7, 26, 13, 44, 22, 11, 38, 19, 62, 31, 98, 49, 152, 76, 38])
    );
}

#[test]
fn zero_is_a_loop_of_its_own() {
    let mut memo = CollatzishMemoized::new(3, 1);
    let record = memo.add_path(0);
    assert_eq!(record, NumberPath { start: 0, next: 0, final_loop: 0, length_to_loop: 0 });
    assert_eq!(memo.final_loop_map.get(&0), Some(&FinalLoop { min_value: 0, loop_length: 1 }));
    assert_eq!(memo.get_add_path(0), vec![0, 0]);
}

#[test]
fn other_rules() {
    let mut plus_one = CollatzishMemoized::new(1, 1);
    assert_eq!(plus_one.get_add_path(3), vec![3, 4, 2, 1, 2]);
    assert_eq!(plus_one.get_add_path(7), vec![7, 8, 4, 2, 1, 2]);
    assert_eq!(plus_one.final_loop_map.get(&1), Some(&FinalLoop { min_value: 1, loop_length: 2 }));
    let mut five = CollatzishMemoized::new(5, 1);
    assert_eq!(five.get_add_path(3), vec![3, 16, 8, 4, 2, 1, 6, 3]);
    assert_eq!(five.get_add_path(13), vec![13, 66, 33, 166, 83, 416, 208, 104, 52, 26, 13]);
    assert_eq!(five.add_path(17).final_loop, 17);
    assert_eq!(five.final_loop_map.len(), 3);
}

#[test]
fn add_loop_files_the_whole_cycle() {
    let mut memo = CollatzishMemoized::new(3, 1);
    let record = memo.add_loop(4);
    assert_eq!(record, NumberPath { start: 4, next: 2, final_loop: 1, length_to_loop: 0 });
    assert_eq!(memo.final_loop_map.len(), 1);
    assert_eq!(memo.final_loop_map.get(&1), Some(&FinalLoop { min_value: 1, loop_length: 3 }));
    assert_eq!(memo.number_path_map.len(), 3);
    assert_eq!(
        memo.number_path_map.get(&1),
        Some(&NumberPath { start: 1, next: 4, final_loop: 1, length_to_loop: 0 })
    );
    assert_eq!(
        memo.number_path_map.get(&2),
        Some(&NumberPath { start: 2, next: 1, final_loop: 1, length_to_loop: 0 })
    );
}

#[test]
fn create_path_list_from_a_cached_record() {
    let mut memo = CollatzishMemoized::new(3, 1);
    let record = memo.add_path(5);
    assert_eq!(record, NumberPath { start: 5, next: 16, final_loop: 1, length_to_loop: 3 });
    assert_eq!(memo.create_path_list(record), vec![5, 16, 8, 4, 2, 1, 4]);
    let member = *memo.number_path_map.get(&2).expect("loop member is cached");
    assert_eq!(memo.create_path_list(member), vec![2, 1, 4, 2]);
}

#[test]
fn walk_joins_what_is_cached() {
    let mut memo = CollatzishMemoized::new(3, 1);
    memo.add_path(5);
    let before = memo.number_path_map.len();
    // 6 -> 3 -> 10 -> 5: three new numbers
    let record = memo.add_path(6);
    assert_eq!(record.length_to_loop, 6);
    assert_eq!(memo.number_path_map.len(), before + 3);
    assert_eq!(
        memo.number_path_map.get(&10),
        Some(&NumberPath { start: 10, next: 5, final_loop: 1, length_to_loop: 4 })
    );
}
