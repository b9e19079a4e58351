//! The memoizer as a mathematical object: two maps and a rule, with the
//! invariant that ties them together.

use crate::records::{FinalLoop, NumberPath};
use crate::recurrence::Rule;
use vstd::prelude::*;

verus! {

/// The abstract state of a memoizer.
pub struct MemoState {
    /// The recurrence.
    pub rule: Rule,
    /// The cached record of each number visited so far.
    pub paths: Map<u64, NumberPath>,
    /// The loops found so far, each under its smallest member.
    pub loops: Map<u64, FinalLoop>,
}

impl MemoState {
    /// The invariant: every record is filed under the number it describes
    /// and is correct; with a number its successor is cached, and the loop it
    /// ends in is known; every known loop has its smallest member cached.
    #[verifier::opaque]
    pub open spec fn wf(self) -> bool {
        &&& forall|k: u64|
            self.paths.contains_key(k) ==> {
                &&& (#[trigger] self.paths[k]).start == k
                &&& self.paths[k].correct_for(self.rule)
                &&& self.paths.contains_key(self.paths[k].next)
                &&& self.loops.contains_key(self.paths[k].final_loop)
            }
        &&& forall|k: u64| #[trigger]
            self.loops.contains_key(k) ==> {
                &&& self.loops[k].min_value == k
                &&& self.loops[k].correct_for(self.rule)
                &&& self.paths.contains_key(k)
            }
    }

    /// The path of a cached number `x`: its trajectory up to the loop, once
    /// round the loop, and the first loop member again.
    pub open spec fn full_path(self, x: u64) -> Seq<u64> {
        let r = self.paths[x];
        self.rule.trajectory(
            x,
            (r.length_to_loop + self.loops[r.final_loop].loop_length + 1) as nat,
        )
    }

    /// `after` is what the state becomes when the trajectory of `x` is
    /// explored: nothing known is lost or changed, the numbers cached are
    /// those cached before and those on the trajectory of `x`, and the loops
    /// known are those known before and the one that `x` ends in.
    pub open spec fn grown_by(self, after: MemoState, x: u64) -> bool {
        &&& after.wf()
        &&& after.rule == self.rule
        &&& self.paths.submap_of(after.paths)
        &&& self.loops.submap_of(after.loops)
        &&& after.paths.dom() == self.paths.dom().union(self.rule.orbit(x))
        &&& after.paths.contains_key(x)
        &&& after.loops.dom() == self.loops.dom().insert(after.paths[x].final_loop)
    }

    /// `after` is what the state becomes when the trajectories of the
    /// numbers `1..=limit` are explored.
    pub open spec fn grown_by_range(self, after: MemoState, limit: u64) -> bool {
        &&& after.wf()
        &&& after.rule == self.rule
        &&& self.paths.submap_of(after.paths)
        &&& self.loops.submap_of(after.loops)
        &&& after.paths.dom() == self.paths.dom().union(self.rule.orbits_upto(limit))
        &&& after.loops.dom() == self.loops.dom().union(self.rule.loops_upto(limit))
    }

    /// The cached records with those of the loop members `members` written
    /// over them.
    pub open spec fn paths_with_cycle(self, members: Seq<u64>, min: u64) -> Map<u64, NumberPath> {
        Map::new(
            |k: u64| self.paths.contains_key(k) || members.contains(k),
            |k: u64|
                if members.contains(k) {
                    NumberPath::of_member(self.rule, k, min)
                } else {
                    self.paths[k]
                },
        )
    }

    /// What the invariant says of one cached number.
    pub proof fn lemma_wf_path(self, k: u64)
        requires
            self.wf(),
            self.paths.contains_key(k),
        ensures
            self.paths[k].start == k,
            self.paths[k].next == self.rule.step(k),
            self.paths[k].correct_for(self.rule),
            self.paths.contains_key(self.paths[k].next),
            self.loops.contains_key(self.paths[k].final_loop),
    {
        reveal(MemoState::wf);
    }

    /// What the invariant says of one known loop.
    pub proof fn lemma_wf_loop(self, k: u64)
        requires
            self.wf(),
            self.loops.contains_key(k),
        ensures
            self.loops[k].min_value == k,
            self.loops[k].correct_for(self.rule),
            self.paths.contains_key(k),
    {
        reveal(MemoState::wf);
    }

    /// With a number, every value on its trajectory is cached.
    pub proof fn lemma_closure(self, x: u64, n: nat)
        requires
            self.wf(),
            self.paths.contains_key(x),
        ensures
            self.paths.contains_key(self.rule.iterate(x, n)),
        decreases n,
    {
        if n > 0 {
            self.lemma_closure(x, (n - 1) as nat);
            self.lemma_wf_path(self.rule.iterate(x, (n - 1) as nat));
        }
    }

    /// The orbit of a cached number is cached.
    pub proof fn lemma_orbit_cached(self, x: u64)
        requires
            self.wf(),
            self.paths.contains_key(x),
        ensures
            self.rule.orbit(x).subset_of(self.paths.dom()),
    {
        assert forall|y: u64| self.rule.orbit(x).contains(y) implies self.paths.dom().contains(
            y,
        ) by {
            let n = choose|n: nat| #[trigger] self.rule.iterate(x, n) == y;
            self.lemma_closure(x, n);
        }
    }

    /// A number that is not cached, but whose trajectory reaches a cached
    /// number, is on no cycle.
    pub proof fn lemma_uncached_off_cycle(self, x: u64, n: nat)
        requires
            self.wf(),
            !self.paths.contains_key(x),
            self.paths.contains_key(self.rule.iterate(x, n)),
        ensures
            !self.rule.on_cycle(x),
    {
        if self.rule.on_cycle(x) {
            let back = self.rule.lemma_cycle_returns(x, n);
            self.lemma_closure(self.rule.iterate(x, n), back);
        }
    }

    /// Filing a correct record whose successor and loop are known keeps the
    /// invariant and changes nothing that was cached.
    pub proof fn lemma_insert_record(self, r: NumberPath) -> (after: MemoState)
        requires
            self.wf(),
            r.correct_for(self.rule),
            self.paths.contains_key(r.next),
            self.loops.contains_key(r.final_loop),
        ensures
            after == (MemoState { paths: self.paths.insert(r.start, r), ..self }),
            after.wf(),
            self.paths.submap_of(after.paths),
    {
        reveal(MemoState::wf);
        let after = MemoState { paths: self.paths.insert(r.start, r), ..self };
        if self.paths.contains_key(r.start) {
            r.lemma_correct_unique(self.paths[r.start], self.rule);
        }
        assert forall|k: u64| after.paths.contains_key(k) implies {
            &&& (#[trigger] after.paths[k]).start == k
            &&& after.paths[k].correct_for(after.rule)
            &&& after.paths.contains_key(after.paths[k].next)
            &&& after.loops.contains_key(after.paths[k].final_loop)
        } by {
            if k != r.start {
                assert(after.paths[k] == self.paths[k]);
            }
        }
        after
    }

    /// Filing a newly walked cycle keeps the invariant: `v` has period `p`,
    /// and the smallest of the `p` members is the one at index `at`.
    pub proof fn lemma_add_cycle(self, after: MemoState, v: u64, p: nat, at: nat)
        requires
            self.wf(),
            self.rule.is_period(v, p),
            at < p,
            forall|j: nat| j < p ==> self.rule.iterate(v, at) <= #[trigger] self.rule.iterate(v, j),
            after.rule == self.rule,
            after.loops == self.loops.insert(
                self.rule.iterate(v, at),
                FinalLoop { min_value: self.rule.iterate(v, at), loop_length: p as u64 },
            ),
            after.paths == self.paths_with_cycle(
                self.rule.trajectory(v, p),
                self.rule.iterate(v, at),
            ),
        ensures
            after.wf(),
            self.paths.submap_of(after.paths),
            self.loops.submap_of(after.loops),
            after.paths.dom() == self.paths.dom().union(self.rule.orbit(v)),
            after.paths.contains_key(v),
            after.paths[v] == NumberPath::of_member(self.rule, v, self.rule.iterate(v, at)),
    {
        reveal(MemoState::wf);
        let rule = self.rule;
        let min = rule.iterate(v, at);
        let t = rule.trajectory(v, p);
        rule.lemma_period_bound(v, p);
        assert(rule.on_cycle(v));
        assert(t[0] == v);
        assert(t[at as int] == min);
        // every member's record is correct
        assert forall|k: u64| t.contains(k) implies NumberPath::of_member(rule, k, min).correct_for(
            rule,
        ) && t.contains(rule.step(k)) by {
            let i = choose|i: int| 0 <= i < t.len() && t[i] == k;
            rule.lemma_cycle_closed(v, i as nat);
            rule.lemma_distance_zero(k);
            rule.lemma_cycle_min(v, p, at, i as nat);
            rule.lemma_iterate_unfold(v, i as nat);
            rule.lemma_orbit_of_cycle(v, p, rule.step(k));
            assert(rule.orbit(v).contains(rule.iterate(v, (i + 1) as nat)));
        }
        assert forall|k: u64| self.paths.contains_key(k) implies after.paths.contains_key(k)
            && after.paths[k] == self.paths[k] by {
            if t.contains(k) {
                NumberPath::of_member(rule, k, min).lemma_correct_unique(self.paths[k], rule);
            }
        }
        rule.lemma_period_shared(v, p, at);
        rule.lemma_cycle_min(v, p, at, at);
        let entry = FinalLoop { min_value: min, loop_length: p as u64 };
        assert(entry.correct_for(rule));
        if self.loops.contains_key(min) {
            entry.lemma_correct_unique(self.loops[min], rule);
        }
        assert(self.loops.submap_of(after.loops));
        assert(self.paths.submap_of(after.paths));
        assert forall|k: u64| after.paths.contains_key(k) implies {
            &&& (#[trigger] after.paths[k]).start == k
            &&& after.paths[k].correct_for(after.rule)
            &&& after.paths.contains_key(after.paths[k].next)
            &&& after.loops.contains_key(after.paths[k].final_loop)
        } by {
            if !t.contains(k) {
                assert(after.paths[k] == self.paths[k]);
            }
        }
        assert forall|k: u64| #[trigger] after.loops.contains_key(k) implies {
            &&& after.loops[k].min_value == k
            &&& after.loops[k].correct_for(after.rule)
            &&& after.paths.contains_key(k)
        } by {
            if k != min {
                assert(self.loops.contains_key(k));
            }
        }
        assert(after.paths.dom() =~= self.paths.dom().union(rule.orbit(v))) by {
            assert forall|k: u64| rule.orbit(v).contains(k) <==> t.contains(k) by {
                rule.lemma_orbit_of_cycle(v, p, k);
            }
        }
    }

    /// The record of the successor of a cached number names the same loop,
    /// and is one step nearer to it unless the number is on the loop.
    pub proof fn lemma_successor_record(self, k: u64)
        requires
            self.wf(),
            self.paths.contains_key(k),
        ensures
            self.paths.contains_key(self.rule.step(k)),
            self.paths[self.rule.step(k)].final_loop == self.paths[k].final_loop,
            self.paths[k].length_to_loop > 0 ==> self.paths[self.rule.step(k)].length_to_loop
                == self.paths[k].length_to_loop - 1,
            self.paths[k].length_to_loop == 0 ==> self.paths[self.rule.step(k)].length_to_loop
                == 0,
    {
        let rule = self.rule;
        let r = self.paths[k];
        let y = rule.step(k);
        self.lemma_wf_path(k);
        self.lemma_wf_path(y);
        let s = self.paths[y];
        rule.lemma_final_loop_step(k, r.final_loop);
        rule.lemma_final_loop_unique(y, r.final_loop, s.final_loop);
        if r.length_to_loop > 0 {
            rule.lemma_distance_shrink(k, r.length_to_loop as nat);
            rule.lemma_distance_unique(y, (r.length_to_loop - 1) as nat, s.length_to_loop as nat);
        } else {
            rule.lemma_distance_zero(k);
            rule.lemma_iterate_unfold(k, 0);
            rule.lemma_cycle_closed(k, 1);
            rule.lemma_distance_zero(y);
            rule.lemma_distance_unique(y, 0, s.length_to_loop as nat);
        }
    }

    /// A cached loop member has as many members in its cycle as the entry of
    /// its loop says.
    pub proof fn lemma_member_period(self, k: u64)
        requires
            self.wf(),
            self.paths.contains_key(k),
            self.paths[k].length_to_loop == 0,
        ensures
            self.loops.contains_key(self.paths[k].final_loop),
            self.rule.is_period(k, self.loops[self.paths[k].final_loop].loop_length as nat),
    {
        let rule = self.rule;
        let m = self.paths[k].final_loop;
        self.lemma_wf_path(k);
        self.lemma_wf_loop(m);
        rule.lemma_distance_zero(k);
        rule.lemma_distance_meaning(k, 0);
        rule.lemma_final_loop_meaning(k, m);
        let i = choose|i: nat| #[trigger] rule.iterate(k, i) == m;
        let back = rule.lemma_cycle_returns(k, i);
        rule.lemma_period_shared(m, self.loops[m].loop_length as nat, back);
    }

    /// Exploring one more number extends what exploring a range has given.
    pub proof fn lemma_grow_range_step(self, mid: MemoState, after: MemoState, limit: u64)
        requires
            limit < u64::MAX,
            self.grown_by_range(mid, limit),
            mid.grown_by(after, (limit + 1) as u64),
        ensures
            self.grown_by_range(after, (limit + 1) as u64),
    {
        let rule = self.rule;
        let s = (limit + 1) as u64;
        let f = after.paths[s].final_loop;
        after.lemma_wf_path(s);
        vstd::map_lib::lemma_submap_of_trans(self.paths, mid.paths, after.paths);
        vstd::map_lib::lemma_submap_of_trans(self.loops, mid.loops, after.loops);
        assert forall|y: u64|
            rule.orbits_upto(s).contains(y) <==> rule.orbits_upto(limit).contains(y) || rule.orbit(
                s,
            ).contains(y) by {
            if rule.orbits_upto(limit).contains(y) {
                let w = choose|w: u64| 1 <= w <= limit && #[trigger] rule.orbit(w).contains(y);
                assert(1 <= w <= s && rule.orbit(w).contains(y));
            }
            if rule.orbit(s).contains(y) {
                assert(1 <= s <= s && rule.orbit(s).contains(y));
            }
        }
        assert forall|m: u64|
            rule.loops_upto(s).contains(m) <==> rule.loops_upto(limit).contains(m) || m == f by {
            if rule.loops_upto(limit).contains(m) {
                let w = choose|w: u64| 1 <= w <= limit && #[trigger] rule.is_final_loop(w, m);
                assert(1 <= w <= s && rule.is_final_loop(w, m));
            }
            if m == f {
                assert(1 <= s <= s && rule.is_final_loop(s, m));
            }
            if rule.loops_upto(s).contains(m) {
                let w = choose|w: u64| 1 <= w <= s && #[trigger] rule.is_final_loop(w, m);
                if w == s {
                    rule.lemma_final_loop_unique(s, m, f);
                } else {
                    assert(1 <= w <= limit && rule.is_final_loop(w, m));
                }
            }
        }
        assert(after.paths.dom() =~= self.paths.dom().union(rule.orbits_upto(s)));
        assert(after.loops.dom() =~= self.loops.dom().union(rule.loops_upto(s)));
    }

    /// What the records say of the path of a cached number `x`: where it
    /// enters its loop, how long the loop is, and which loop it is.
    pub proof fn lemma_path_anchor(self, x: u64)
        requires
            self.wf(),
            self.paths.contains_key(x),
        ensures
            self.loops.contains_key(self.paths[x].final_loop),
            self.rule.reaches_cycle_in(x, self.paths[x].length_to_loop as nat),
            self.rule.is_final_loop(x, self.paths[x].final_loop),
            self.rule.is_period(
                self.rule.iterate(x, self.paths[x].length_to_loop as nat),
                self.loops[self.paths[x].final_loop].loop_length as nat,
            ),
    {
        let rule = self.rule;
        let lead = self.paths[x].length_to_loop as nat;
        let m = self.paths[x].final_loop;
        let c = rule.iterate(x, lead);
        self.lemma_wf_path(x);
        self.lemma_closure(x, lead);
        self.lemma_wf_path(c);
        rule.lemma_distance_meaning(x, lead);
        rule.lemma_distance_zero(c);
        rule.lemma_distance_unique(c, 0, self.paths[c].length_to_loop as nat);
        rule.lemma_final_loop_along(x, m, lead);
        rule.lemma_final_loop_unique(c, m, self.paths[c].final_loop);
        self.lemma_member_period(c);
    }
}

} // verus!
