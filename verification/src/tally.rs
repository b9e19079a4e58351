//! How many of the cached numbers end in each of the known loops.

use crate::memoizer::CollatzishMemoized;
use crate::records::NumberPath;
use crate::sequences::lemma_take_next;
use std::collections::HashMap;
use vstd::prelude::*;
use vstd::std_specs::hash::*;
use vstd::std_specs::iter::IteratorSpec;

verus! {

/// The cached numbers whose record names the loop `k`.
pub open spec fn ending_in(paths: Map<u64, NumberPath>, k: u64) -> Set<u64> {
    paths.dom().filter(|x: u64| paths[x].final_loop == k)
}

/// How many of the numbers in `keys` have a record that names the loop `k`.
pub open spec fn tally(keys: Seq<u64>, paths: Map<u64, NumberPath>, k: u64) -> nat
    decreases keys.len(),
{
    if keys.len() == 0 {
        0
    } else {
        tally(keys.drop_last(), paths, k) + if paths[keys.last()].final_loop == k {
            1nat
        } else {
            0nat
        }
    }
}

/// A tally counts no more numbers than it is given.
pub proof fn lemma_tally_bound(keys: Seq<u64>, paths: Map<u64, NumberPath>, k: u64)
    ensures
        tally(keys, paths, k) <= keys.len(),
    decreases keys.len(),
{
    if keys.len() > 0 {
        lemma_tally_bound(keys.drop_last(), paths, k);
    }
}

/// Over numbers that are all different, a tally is the size of a set.
pub proof fn lemma_tally_is_count(keys: Seq<u64>, paths: Map<u64, NumberPath>, k: u64)
    requires
        keys.no_duplicates(),
        keys.to_set() == paths.dom(),
    ensures
        tally(keys, paths, k) == ending_in(paths, k).len(),
{
    lemma_tally_of_filter(keys, paths, k);
}

/// A tally over numbers that are all different counts the numbers among
/// them whose record names the loop.
proof fn lemma_tally_of_filter(keys: Seq<u64>, paths: Map<u64, NumberPath>, k: u64)
    requires
        keys.no_duplicates(),
    ensures
        keys.to_set().filter(|x: u64| paths[x].final_loop == k).finite(),
        tally(keys, paths, k) == keys.to_set().filter(|x: u64| paths[x].final_loop == k).len(),
    decreases keys.len(),
{
    broadcast use vstd::seq_lib::seq_to_set_is_finite;

    let p = |x: u64| paths[x].final_loop == k;
    keys.to_set().lemma_len_filter(p);
    if keys.len() == 0 {
        assert(keys.to_set().filter(p) =~= Set::empty());
    } else {
        let init = keys.drop_last();
        let last = keys.last();
        lemma_tally_of_filter(init, paths, k);
        assert(!init.contains(last)) by {
            if init.contains(last) {
                let j = choose|j: int| 0 <= j < init.len() && init[j] == last;
                assert(keys[j] == keys[keys.len() - 1]);
            }
        }
        assert(keys.to_set() =~= init.to_set().insert(last)) by {
            assert forall|x: u64| keys.to_set().contains(x) <==> init.to_set().insert(last).contains(
                x,
            ) by {
                if keys.contains(x) {
                    let j = choose|j: int| 0 <= j < keys.len() && keys[j] == x;
                    if j < init.len() {
                        assert(init[j] == x);
                    }
                }
                if init.contains(x) {
                    let j = choose|j: int| 0 <= j < init.len() && init[j] == x;
                    assert(keys[j] == x);
                }
                if x == last {
                    assert(keys[keys.len() - 1] == x);
                }
            }
        }
        if p(last) {
            assert(keys.to_set().filter(p) =~= init.to_set().filter(p).insert(last));
        } else {
            assert(keys.to_set().filter(p) =~= init.to_set().filter(p));
        }
    }
}

/// For each known loop, the number of cached numbers that end in it.
pub fn counts(calculator: &CollatzishMemoized) -> (r: HashMap<u64, u64>)
    ensures
        r@.dom() == calculator@.loops.dom(),
        forall|k: u64| #[trigger]
            r@.contains_key(k) ==> r@[k] == ending_in(calculator@.paths, k).len(),
{
    broadcast use group_hash_axioms;

    let ghost paths = calculator@.paths;
    let ghost loops = calculator@.loops;
    let ghost loop_keys = calculator.final_loop_map.keys().remaining().unref();
    let ghost mut done: int = 0;
    let mut counts: HashMap<u64, u64> = HashMap::new();
    for final_loop in it: calculator.final_loop_map.keys()
        invariant
            it.seq().unref() == loop_keys,
            done == it.index(),
            0 <= done <= loop_keys.len(),
            forall|k: u64| counts@.contains_key(k) <==> loop_keys.take(done).contains(k),
            forall|k: u64| #[trigger] counts@.contains_key(k) ==> counts@[k] == 0,
    {
        proof {
            lemma_take_next(loop_keys, done);
            done = done + 1;
        }
        counts.insert(*final_loop, 0u64);
    }
    proof {
        assert(loop_keys.take(done) =~= loop_keys);
        assert(counts@.dom() =~= loops.dom());
    }
    let ghost path_keys = Seq::new(
        calculator.number_path_map.iter().remaining().len(),
        |i: int| *calculator.number_path_map.iter().remaining()[i].0,
    );
    proof {
        done = 0;
        assert(calculator.number_path_map.len() == paths.dom().len());
    }
    for entry in it: calculator.number_path_map.iter()
        invariant
            it.seq() == calculator.number_path_map.iter().remaining(),
            path_keys.len() == it.seq().len(),
            forall|i: int| 0 <= i < path_keys.len() ==> path_keys[i] == *(#[trigger] it.seq()[i]).0,
            forall|i: int|
                0 <= i < path_keys.len() ==> paths.contains_key(#[trigger] path_keys[i])
                    && paths[path_keys[i]] == *it.seq()[i].1,
            path_keys.len() == paths.dom().len(),
            path_keys.len() <= usize::MAX,
            done == it.index(),
            0 <= done <= path_keys.len(),
            counts@.dom() == loops.dom(),
            forall|k: u64| #[trigger]
                counts@.contains_key(k) ==> counts@[k] == tally(path_keys.take(done), paths, k),
    {
        let final_loop = entry.1.final_loop;
        proof {
            lemma_take_next(path_keys, done);
            lemma_tally_bound(path_keys.take(done), paths, final_loop);
            done = done + 1;
        }
        if let Some(count) = counts.get(&final_loop) {
            let more = *count + 1;
            counts.insert(final_loop, more);
        }
    }
    proof {
        assert(path_keys.take(done) =~= path_keys);
        assert(path_keys.no_duplicates());
        assert(path_keys.to_set() =~= paths.dom());
        assert forall|k: u64| #[trigger] counts@.contains_key(k) implies counts@[k] == ending_in(
            paths,
            k,
        ).len() by {
            lemma_tally_is_count(path_keys, paths, k);
        }
    }
    counts
}

} // verus!
