//! The memoizer: computes trajectories once and keeps what it has found.

use crate::bounds::lemma_distinct_bound;
use crate::model::MemoState;
use crate::records::{FinalLoop, NumberPath};
use crate::recurrence::Rule;
use crate::sequences::{lemma_subrange_first, lemma_take_next};
use std::collections::HashMap;
use vstd::prelude::*;
use vstd::std_specs::hash::*;

verus! {

/// A recurrence with everything that has been computed about it so far.
pub struct CollatzishMemoized {
    /// The record of each number visited so far.
    pub number_path_map: HashMap<u64, NumberPath>,
    /// The loops found so far, each under its smallest member.
    pub final_loop_map: HashMap<u64, FinalLoop>,
    /// The factor applied to odd numbers.
    pub mult: u64,
    /// The constant added to odd numbers after multiplying.
    pub add: u64,
}

impl View for CollatzishMemoized {
    type V = MemoState;

    open spec fn view(&self) -> MemoState {
        MemoState {
            rule: Rule { mult: self.mult, add: self.add },
            paths: self.number_path_map@,
            loops: self.final_loop_map@,
        }
    }
}

impl CollatzishMemoized {
    /// The two maps satisfy the invariant of [`MemoState`].
    pub open spec fn wf(&self) -> bool {
        self@.wf()
    }

    /// A memoizer for the recurrence with factor `mult` and constant `add`,
    /// with nothing cached.
    pub fn new(mult: u64, add: u64) -> (r: Self)
        ensures
            r.wf(),
            r@.rule == (Rule { mult, add }),
            r@.paths == Map::<u64, NumberPath>::empty(),
            r@.loops == Map::<u64, FinalLoop>::empty(),
    {
        let r = Self { number_path_map: HashMap::new(), final_loop_map: HashMap::new(), mult, add };
        proof {
            reveal(MemoState::wf);
        }
        r
    }

    /// The successor of `x`: half of an even `x`; `mult * x + add` for an odd
    /// `x`, reduced modulo 2^64 where it does not fit.
    pub fn calc_next(&self, x: u64) -> (r: u64)
        ensures
            r == self@.rule.step(x),
            x % 2 == 0 ==> r == x / 2,
            x % 2 == 1 && self.mult * x + self.add <= u64::MAX ==> r == self.mult * x + self.add,
    {
        if x % 2 == 0 {
            x / 2
        } else {
            self.mult.wrapping_mul(x).wrapping_add(self.add)
        }
    }

    /// Walks once round the cycle through `starting_num`, files the loop
    /// under its smallest member and a record with distance 0 for every
    /// member, and returns the record of `starting_num`.
    pub fn add_loop(&mut self, starting_num: u64) -> (r: NumberPath)
        requires
            old(self).wf(),
            old(self)@.rule.on_cycle(starting_num),
        ensures
            old(self)@.grown_by(final(self)@, starting_num),
            r == final(self)@.paths[starting_num],
            r.start == starting_num,
            r.correct_for(final(self)@.rule),
            r.length_to_loop == 0,
    {
        broadcast use group_hash_axioms;

        let ghost before = self@;
        let ghost rule = before.rule;
        let ghost mut p: nat = 1;
        let ghost mut at: nat = 0;
        proof {
            p = rule.lemma_period_exists(starting_num);
            rule.lemma_period_bound(starting_num, p);
        }
        let mut loop_list: Vec<u64> = Vec::new();
        loop_list.push(starting_num);
        let mut min_num = starting_num;
        let mut curr_num = self.calc_next(starting_num);
        let mut loop_length: u64 = 1;
        proof {
            rule.lemma_iterate_unfold(starting_num, 0);
            assert(loop_list@ =~= rule.trajectory(starting_num, 1));
        }
        while curr_num != starting_num
            invariant
                self@ == before,
                rule == before.rule,
                rule.is_period(starting_num, p),
                p <= u64::MAX,
                1 <= loop_length <= p,
                loop_list@ == rule.trajectory(starting_num, loop_length as nat),
                curr_num == rule.iterate(starting_num, loop_length as nat),
                at < loop_length,
                min_num == rule.iterate(starting_num, at),
                forall|j: nat|
                    j < loop_length ==> min_num <= #[trigger] rule.iterate(starting_num, j),
            decreases p - loop_length,
        {
            proof {
                rule.lemma_iterate_unfold(starting_num, loop_length as nat);
            }
            if curr_num < min_num {
                min_num = curr_num;
                proof {
                    at = loop_length as nat;
                }
            }
            loop_list.push(curr_num);
            curr_num = self.calc_next(curr_num);
            loop_length += 1;
            proof {
                assert(loop_list@ =~= rule.trajectory(starting_num, loop_length as nat));
            }
        }
        let entry = FinalLoop { min_value: min_num, loop_length };
        self.final_loop_map.insert(min_num, entry);
        let mut i: usize = 0;
        proof {
            assert(loop_list@.take(0).len() == 0);
            assert(self.number_path_map@ =~= before.paths_with_cycle(loop_list@.take(0), min_num));
        }
        while i < loop_list.len()
            invariant
                i <= loop_list.len(),
                self@.rule == rule,
                rule == before.rule,
                self@.loops == before.loops.insert(min_num, entry),
                self@.paths == before.paths_with_cycle(loop_list@.take(i as int), min_num),
            decreases loop_list.len() - i,
        {
            let num = loop_list[i];
            let record = NumberPath {
                start: num,
                next: self.calc_next(num),
                final_loop: min_num,
                length_to_loop: 0,
            };
            self.number_path_map.insert(num, record);
            proof {
                lemma_take_next(loop_list@, i as int);
                assert(self.number_path_map@ =~= before.paths_with_cycle(
                    loop_list@.take(i + 1),
                    min_num,
                ));
            }
            i += 1;
        }
        proof {
            assert(loop_list@.take(loop_list.len() as int) =~= loop_list@);
            before.lemma_add_cycle(self@, starting_num, p, at);
            self@.lemma_wf_path(starting_num);
        }
        NumberPath {
            start: starting_num,
            next: self.calc_next(starting_num),
            final_loop: min_num,
            length_to_loop: 0,
        }
    }

    /// Walks forward from an uncached `starting_num` until the next value is
    /// either cached or one that the walk has already seen. In the second
    /// case the walk has found a new loop, which is filed, and the loop
    /// members are taken out of the walk. Returns the values walked that
    /// still need a record, and the record of the value that follows them.
    fn walk_to_known(&mut self, starting_num: u64) -> (r: (Vec<u64>, NumberPath))
        requires
            old(self).wf(),
            !old(self)@.paths.contains_key(starting_num),
        ensures
            final(self).wf(),
            final(self)@.rule == old(self)@.rule,
            old(self)@.paths.submap_of(final(self)@.paths),
            old(self)@.loops.submap_of(final(self)@.loops),
            final(self)@.loops.dom() == old(self)@.loops.dom().insert(r.1.final_loop),
            final(self)@.paths.dom().subset_of(
                old(self)@.paths.dom().union(old(self)@.rule.orbit(starting_num)),
            ),
            r.0@ == old(self)@.rule.trajectory(starting_num, r.0@.len()),
            r.1.start == old(self)@.rule.iterate(starting_num, r.0@.len()),
            final(self)@.paths.contains_key(r.1.start),
            final(self)@.paths[r.1.start] == r.1,
            forall|i: int| 0 <= i < r.0@.len() ==> !old(self)@.rule.on_cycle(#[trigger] r.0@[i]),
    {
        broadcast use group_hash_axioms;

        let ghost before = self@;
        let ghost rule = before.rule;
        let mut path_list: Vec<u64> = Vec::new();
        path_list.push(starting_num);
        proof {
            assert(path_list@ =~= rule.trajectory(starting_num, 1));
            lemma_distinct_bound(path_list@);
        }
        loop
            invariant
                self@ == before,
                before == old(self)@,
                before.wf(),
                rule == before.rule,
                1 <= path_list@.len() <= 0x1_0000_0000_0000_0000,
                path_list@ == rule.trajectory(starting_num, path_list@.len()),
                path_list@.no_duplicates(),
                forall|i: int|
                    0 <= i < path_list@.len() ==> !before.paths.contains_key(
                        #[trigger] path_list@[i],
                    ),
            decreases 0x1_0000_0000_0000_0000 - path_list@.len(),
        {
            let ghost n = path_list@.len();
            let curr_num = path_list[path_list.len() - 1];
            let next_num = self.calc_next(curr_num);
            proof {
                rule.lemma_iterate_unfold(starting_num, (n - 1) as nat);
                assert(next_num == rule.iterate(starting_num, n));
            }
            if let Some(path) = self.number_path_map.get(&next_num) {
                let base = *path;
                proof {
                    assert forall|i: int| 0 <= i < n implies !rule.on_cycle(
                        #[trigger] path_list@[i],
                    ) by {
                        rule.lemma_iterate_add(starting_num, i as nat, (n - i) as nat);
                        before.lemma_uncached_off_cycle(path_list@[i], (n - i) as nat);
                    }
                    before.lemma_wf_path(next_num);
                }
                return (path_list, base);
            }
            if let Some(idx) = find_index(&path_list, next_num) {
                proof {
                    rule.lemma_walk_closes(starting_num, idx as nat, n);
                }
                let base = self.add_loop(next_num);
                path_list.truncate(idx);
                proof {
                    assert(path_list@ =~= rule.trajectory(starting_num, idx as nat));
                    assert forall|k: u64| rule.orbit(next_num).contains(k) implies rule.orbit(
                        starting_num,
                    ).contains(k) by {
                        rule.lemma_orbit_along(starting_num, idx as nat, k);
                    }
                    assert forall|i: int| 0 <= i < idx implies !rule.on_cycle(
                        #[trigger] path_list@[i],
                    ) by {
                        assert(path_list@[i] == rule.iterate(starting_num, i as nat));
                    }
                    self@.lemma_wf_path(next_num);
                }
                return (path_list, base);
            }
            proof {
                let longer = path_list@.push(next_num);
                assert(longer =~= rule.trajectory(starting_num, n + 1));
                lemma_distinct_bound(longer);
            }
            path_list.push(next_num);
        }
    }

    /// Returns the record of `starting_num`, computing and caching it first
    /// where it is not cached yet, together with a record for every value on
    /// the way from `starting_num` to the first value that was cached
    /// already, or to the loop where a new loop is found.
    pub fn add_path(&mut self, starting_num: u64) -> (r: NumberPath)
        requires
            old(self).wf(),
        ensures
            old(self)@.grown_by(final(self)@, starting_num),
            r == final(self)@.paths[starting_num],
            r.start == starting_num,
            r.correct_for(final(self)@.rule),
            old(self)@.paths.contains_key(starting_num) ==> final(self)@ == old(self)@,
    {
        broadcast use group_hash_axioms;

        let ghost before = self@;
        let ghost rule = before.rule;
        if let Some(path) = self.number_path_map.get(&starting_num) {
            proof {
                before.lemma_wf_path(starting_num);
                before.lemma_orbit_cached(starting_num);
                assert(before.paths.dom() =~= before.paths.dom().union(rule.orbit(starting_num)));
                assert(before.loops.dom() =~= before.loops.dom().insert(
                    before.paths[starting_num].final_loop,
                ));
            }
            return *path;
        }
        let (path_list, base_path) = self.walk_to_known(starting_num);
        let ghost mid = self@;
        let ghost n = path_list@.len();
        let mut curr_dist_from_loop = base_path.length_to_loop;
        let mut i: usize = path_list.len();
        proof {
            assert(path_list@.subrange(n as int, n as int).len() == 0);
        }
        while i > 0
            invariant
                i <= n,
                n == path_list@.len(),
                self.wf(),
                self@.rule == rule,
                self@.loops == mid.loops,
                mid.paths.submap_of(self@.paths),
                forall|k: u64|
                    self@.paths.contains_key(k) <==> mid.paths.contains_key(k)
                        || path_list@.subrange(i as int, n as int).contains(k),
                self@.paths.contains_key(rule.iterate(starting_num, i as nat)),
                self@.paths[rule.iterate(starting_num, i as nat)].length_to_loop
                    == curr_dist_from_loop,
                self@.paths[rule.iterate(starting_num, i as nat)].final_loop
                    == base_path.final_loop,
                path_list@ == rule.trajectory(starting_num, n),
                forall|j: int| 0 <= j < n ==> !rule.on_cycle(#[trigger] path_list@[j]),
            decreases i,
        {
            let ghost succ = rule.iterate(starting_num, i as nat);
            let ghost state = self@;
            i -= 1;
            let num = path_list[i];
            let next = self.calc_next(num);
            proof {
                rule.lemma_iterate_unfold(starting_num, i as nat);
                assert(next == succ);
                state.lemma_wf_path(succ);
                assert(!rule.on_cycle(path_list@[i as int]));
                rule.lemma_distance_extend(num, curr_dist_from_loop as nat);
                rule.lemma_distance_bound(num, (curr_dist_from_loop + 1) as nat);
                rule.lemma_final_loop_extend(num, base_path.final_loop);
            }
            curr_dist_from_loop += 1;
            let record = NumberPath {
                start: num,
                next,
                final_loop: base_path.final_loop,
                length_to_loop: curr_dist_from_loop,
            };
            self.number_path_map.insert(num, record);
            proof {
                let after = state.lemma_insert_record(record);
                assert(self@.paths == after.paths);
                assert(self@ == after);
                lemma_subrange_first(path_list@, i as int);
            }
        }
        proof {
            let after = self@;
            assert(rule.iterate(starting_num, 0) == starting_num);
            after.lemma_wf_path(starting_num);
            after.lemma_orbit_cached(starting_num);
            assert(after.paths.dom() =~= before.paths.dom().union(rule.orbit(starting_num))) by {
                assert forall|k: u64| after.paths.contains_key(k) implies before.paths.contains_key(
                    k,
                ) || rule.orbit(starting_num).contains(k) by {
                    if !mid.paths.contains_key(k) {
                        let walked = path_list@.subrange(0, n as int);
                        let j = choose|j: int| 0 <= j < walked.len() && walked[j] == k;
                        assert(rule.iterate(starting_num, j as nat) == k);
                    } else {
                        assert(mid.paths.dom().contains(k));
                    }
                }
                assert forall|k: u64| before.paths.contains_key(k) implies after.paths.contains_key(
                    k,
                ) by {
                    assert(mid.paths.contains_key(k));
                }
            }
            vstd::map_lib::lemma_submap_of_trans(before.paths, mid.paths, after.paths);
        }
        NumberPath {
            start: starting_num,
            next: self.calc_next(starting_num),
            final_loop: base_path.final_loop,
            length_to_loop: curr_dist_from_loop,
        }
    }

    /// Computes and caches the record of every number from 1 to `limit`, in
    /// ascending order.
    pub fn add_all_paths(&mut self, limit: u64)
        requires
            old(self).wf(),
        ensures
            old(self)@.grown_by_range(final(self)@, limit),
            forall|s: u64| 1 <= s <= limit ==> final(self)@.paths.contains_key(s),
    {
        let ghost before = self@;
        let ghost rule = before.rule;
        let mut i: u64 = 0;
        proof {
            assert(before.paths.dom() =~= before.paths.dom().union(rule.orbits_upto(0)));
            assert(before.loops.dom() =~= before.loops.dom().union(rule.loops_upto(0)));
        }
        while i < limit
            invariant
                i <= limit,
                before.grown_by_range(self@, i),
                forall|s: u64| 1 <= s <= i ==> self@.paths.contains_key(s),
            decreases limit - i,
        {
            let ghost mid = self@;
            i += 1;
            self.add_path(i);
            proof {
                before.lemma_grow_range_step(mid, self@, (i - 1) as u64);
                assert forall|s: u64| 1 <= s <= i implies self@.paths.contains_key(s) by {
                    if s < i {
                        assert(mid.paths.contains_key(s));
                        assert(mid.paths.dom().contains(s));
                    }
                }
            }
        }
    }

    /// The path of the number that `number_path` is the cached record of:
    /// the values from that number to its loop, then once round the loop,
    /// ending with the loop member that was reached first.
    pub fn create_path_list(&self, number_path: NumberPath) -> (r: Vec<u64>)
        requires
            self.wf(),
            self@.paths.contains_key(number_path.start),
            self@.paths[number_path.start] == number_path,
        ensures
            r@ == self@.full_path(number_path.start),
    {
        broadcast use group_hash_axioms;

        let ghost state = self@;
        let ghost rule = state.rule;
        let ghost x = number_path.start;
        let ghost lead = number_path.length_to_loop as nat;
        let mut path_list: Vec<u64> = Vec::new();
        let mut curr_number_path = number_path;
        proof {
            assert(path_list@ =~= rule.trajectory(x, 0));
        }
        while curr_number_path.length_to_loop > 0
            invariant
                self@ == state,
                state.wf(),
                rule == state.rule,
                state.paths.contains_key(curr_number_path.start),
                state.paths[curr_number_path.start] == curr_number_path,
                curr_number_path.start == rule.iterate(x, path_list@.len()),
                curr_number_path.final_loop == number_path.final_loop,
                path_list@.len() + curr_number_path.length_to_loop == lead,
                path_list@ == rule.trajectory(x, path_list@.len()),
            decreases curr_number_path.length_to_loop,
        {
            proof {
                state.lemma_wf_path(curr_number_path.start);
                state.lemma_wf_path(curr_number_path.next);
                state.lemma_successor_record(curr_number_path.start);
                rule.lemma_iterate_unfold(x, path_list@.len());
                assert(path_list@.push(curr_number_path.start) =~= rule.trajectory(
                    x,
                    path_list@.len() + 1,
                ));
            }
            path_list.push(curr_number_path.start);
            curr_number_path = *self.number_path_map.get(&curr_number_path.next).unwrap();
        }
        let loop_start = curr_number_path;
        proof {
            state.lemma_member_period(loop_start.start);
            assert(rule.iterate(loop_start.start, 0) == loop_start.start);
        }
        let ghost period: nat = state.loops[number_path.final_loop].loop_length as nat;
        let ghost mut round: nat = 0;
        while loop_start.start != curr_number_path.next
            invariant
                self@ == state,
                state.wf(),
                rule == state.rule,
                rule.is_period(loop_start.start, period),
                loop_start.start == rule.iterate(x, lead),
                round < period,
                state.paths.contains_key(curr_number_path.start),
                state.paths[curr_number_path.start] == curr_number_path,
                curr_number_path.start == rule.iterate(loop_start.start, round),
                path_list@.len() == lead + round,
                path_list@ == rule.trajectory(x, path_list@.len()),
            decreases period - round,
        {
            proof {
                state.lemma_wf_path(curr_number_path.start);
                state.lemma_wf_path(curr_number_path.next);
                rule.lemma_iterate_unfold(loop_start.start, round);
                rule.lemma_iterate_add(x, lead, round);
                assert(path_list@.push(curr_number_path.start) =~= rule.trajectory(
                    x,
                    path_list@.len() + 1,
                ));
                round = round + 1;
            }
            path_list.push(curr_number_path.start);
            curr_number_path = *self.number_path_map.get(&curr_number_path.next).unwrap();
        }
        proof {
            state.lemma_wf_path(curr_number_path.start);
            rule.lemma_iterate_unfold(loop_start.start, round);
            rule.lemma_iterate_add(x, lead, round);
            rule.lemma_iterate_add(x, lead, period);
            assert(round + 1 == period);
            assert(path_list@.push(curr_number_path.start).push(loop_start.start)
                =~= rule.trajectory(x, lead + period + 1));
        }
        path_list.push(curr_number_path.start);
        path_list.push(loop_start.start);
        path_list
    }

    /// The path of `starting_num` as far as it is cached: `None` for a number
    /// that was never computed.
    pub fn get_path(&self, starting_num: u64) -> (r: Option<Vec<u64>>)
        requires
            self.wf(),
        ensures
            match r {
                Some(path) => self@.paths.contains_key(starting_num) && path@
                    == self@.full_path(starting_num),
                None => !self@.paths.contains_key(starting_num),
            },
    {
        broadcast use group_hash_axioms;

        match self.number_path_map.get(&starting_num) {
            Some(number_path) => {
                proof {
                    self@.lemma_wf_path(starting_num);
                }
                Some(self.create_path_list(*number_path))
            },
            None => None,
        }
    }

    /// The path of `starting_num`, which is computed and cached first where
    /// it is not cached yet.
    pub fn get_add_path(&mut self, starting_num: u64) -> (r: Vec<u64>)
        requires
            old(self).wf(),
        ensures
            old(self)@.grown_by(final(self)@, starting_num),
            old(self)@.paths.contains_key(starting_num) ==> final(self)@ == old(self)@,
            r@ == final(self)@.full_path(starting_num),
    {
        let number_path = self.add_path(starting_num);
        proof {
            self@.lemma_wf_path(starting_num);
        }
        self.create_path_list(number_path)
    }
}

/// The first index at which `value` stands in `list`, if it stands there.
fn find_index(list: &Vec<u64>, value: u64) -> (r: Option<usize>)
    ensures
        match r {
            Some(i) => i < list@.len() && list@[i as int] == value && forall|j: int|
                0 <= j < i ==> list@[j] != value,
            None => !list@.contains(value),
        },
{
    let mut i: usize = 0;
    while i < list.len()
        invariant
            i <= list@.len(),
            forall|j: int| 0 <= j < i ==> list@[j] != value,
        decreases list@.len() - i,
    {
        if list[i] == value {
            return Some(i);
        }
        i += 1;
    }
    None
}

} // verus!
