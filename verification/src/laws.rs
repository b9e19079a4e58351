//! What holds of every memoizer, stated over its abstract state.

use crate::model::MemoState;
use crate::recurrence::Rule;
use vstd::prelude::*;

verus! {

/// A step halves an even number, and sends an odd number `x` to
/// `mult * x + add` wherever that fits in 64 bits.
pub proof fn lemma_step_formula(rule: Rule, x: u64)
    ensures
        x % 2 == 0 ==> rule.step(x) == x / 2,
        x % 2 == 1 && rule.mult * x + rule.add <= u64::MAX ==> rule.step(x) == rule.mult * x
            + rule.add,
{
}

/// Exploring a number that is cached already changes nothing: a second
/// exploration of the same number leaves the state as the first left it, and
/// so gives the same record.
pub proof fn lemma_explore_twice(s0: MemoState, s1: MemoState, s2: MemoState, x: u64)
    requires
        s0.wf(),
        s0.grown_by(s1, x),
        s1.grown_by(s2, x),
    ensures
        s2 == s1,
        s2.paths[x] == s1.paths[x],
{
    s1.lemma_orbit_cached(x);
    s1.lemma_wf_path(x);
    assert(s2.paths.dom() =~= s1.paths.dom());
    assert(s2.paths =~= s1.paths);
    assert(s2.loops.dom() =~= s1.loops.dom());
    assert(s2.loops =~= s1.loops);
}

/// After a number has been explored, every value on its trajectory has a
/// cached record, and so has the successor that the record names.
pub proof fn lemma_trajectory_cached(s0: MemoState, s1: MemoState, x: u64, n: nat)
    requires
        s0.wf(),
        s0.grown_by(s1, x),
    ensures
        s1.paths.contains_key(s1.rule.iterate(x, n)),
        s1.paths[s1.rule.iterate(x, n)].next == s1.rule.iterate(x, n + 1),
        s1.paths.contains_key(s1.paths[s1.rule.iterate(x, n)].next),
{
    s1.lemma_closure(x, n);
    s1.lemma_wf_path(s1.rule.iterate(x, n));
    s1.rule.lemma_iterate_unfold(x, n);
}

/// In every state, a cached record names a successor that is cached too.
pub proof fn lemma_successor_cached(s: MemoState, k: u64)
    requires
        s.wf(),
        s.paths.contains_key(k),
    ensures
        s.paths[k].start == k,
        s.paths[k].next == s.rule.step(k),
        s.paths.contains_key(s.paths[k].next),
{
    s.lemma_wf_path(k);
}

/// The loop that a record names is the cycle that the trajectory ends in,
/// under its smallest member: the name is on a cycle, the trajectory reaches
/// it, and no cycle member on the trajectory is smaller.
pub proof fn lemma_final_loop_is_minimum(s: MemoState, x: u64)
    requires
        s.wf(),
        s.paths.contains_key(x),
    ensures
        s.rule.on_cycle(s.paths[x].final_loop),
        s.rule.orbit(x).contains(s.paths[x].final_loop),
        forall|j: nat|
            s.rule.on_cycle(#[trigger] s.rule.iterate(x, j)) ==> s.paths[x].final_loop
                <= s.rule.iterate(x, j),
        s.loops.contains_key(s.paths[x].final_loop),
{
    s.lemma_wf_path(x);
    s.rule.lemma_final_loop_meaning(x, s.paths[x].final_loop);
}

/// What is recorded of a number does not depend on the order in which
/// numbers were explored: two memoizers of one rule hold the same record of
/// every number that both have cached, and the same entry for every loop
/// that both know.
pub proof fn lemma_records_canonical(s1: MemoState, s2: MemoState, x: u64)
    requires
        s1.wf(),
        s2.wf(),
        s1.rule == s2.rule,
    ensures
        s1.paths.contains_key(x) && s2.paths.contains_key(x) ==> s1.paths[x] == s2.paths[x],
        s1.loops.contains_key(x) && s2.loops.contains_key(x) ==> s1.loops[x] == s2.loops[x],
{
    if s1.paths.contains_key(x) && s2.paths.contains_key(x) {
        s1.lemma_wf_path(x);
        s2.lemma_wf_path(x);
        s1.paths[x].lemma_correct_unique(s2.paths[x], s1.rule);
    }
    if s1.loops.contains_key(x) && s2.loops.contains_key(x) {
        s1.lemma_wf_loop(x);
        s2.lemma_wf_loop(x);
        s1.loops[x].lemma_correct_unique(s2.loops[x], s1.rule);
    }
}

/// Two numbers whose trajectories meet are recorded with the same loop.
pub proof fn lemma_meeting_trajectories(s: MemoState, x: u64, y: u64, a: nat, b: nat)
    requires
        s.wf(),
        s.paths.contains_key(x),
        s.paths.contains_key(y),
        s.rule.iterate(x, a) == s.rule.iterate(y, b),
    ensures
        s.paths[x].final_loop == s.paths[y].final_loop,
{
    let z = s.rule.iterate(x, a);
    s.lemma_wf_path(x);
    s.lemma_wf_path(y);
    s.rule.lemma_final_loop_along(x, s.paths[x].final_loop, a);
    s.rule.lemma_final_loop_along(y, s.paths[y].final_loop, b);
    s.rule.lemma_final_loop_unique(z, s.paths[x].final_loop, s.paths[y].final_loop);
}

/// A loop entry is filed under its smallest member `k`; `loop_length` steps
/// from `k` lead back to `k`, fewer steps do not, and no value on the way is
/// smaller than `k`.
pub proof fn lemma_loop_length_exact(s: MemoState, k: u64)
    requires
        s.wf(),
        s.loops.contains_key(k),
    ensures
        s.loops[k].min_value == k,
        s.rule.iterate(k, s.loops[k].loop_length as nat) == k,
        s.loops[k].loop_length > 0,
        forall|j: nat| 0 < j < s.loops[k].loop_length ==> #[trigger] s.rule.iterate(k, j) != k,
        forall|j: nat| k <= #[trigger] s.rule.iterate(k, j),
{
    s.lemma_wf_loop(k);
    assert(s.rule.on_cycle(k));
    s.rule.lemma_final_loop_meaning(k, k);
    assert forall|j: nat| k <= #[trigger] s.rule.iterate(k, j) by {
        s.rule.lemma_cycle_closed(k, j);
    }
}

/// The shape of a path: it starts with the number; each value is followed by
/// its successor; the values before the loop are on no cycle; then come the
/// members of the loop, each once, the smallest among them; and the path
/// ends where it entered the loop.
pub proof fn lemma_full_path_shape(s: MemoState, x: u64)
    requires
        s.wf(),
        s.paths.contains_key(x),
    ensures
        ({
            let path = s.full_path(x);
            let lead = s.paths[x].length_to_loop as int;
            let round = s.loops[s.paths[x].final_loop].loop_length as int;
            let tail = path.subrange(lead, lead + round);
            &&& round > 0
            &&& path.len() == lead + round + 1
            &&& path[0] == x
            &&& forall|i: int| 0 <= i < path.len() - 1 ==> path[i + 1] == s.rule.step(#[trigger] path[i])
            &&& forall|i: int| 0 <= i < lead ==> !s.rule.on_cycle(#[trigger] path[i])
            &&& forall|i: int| lead <= i < path.len() ==> s.rule.on_cycle(#[trigger] path[i])
            &&& path[lead + round] == path[lead]
            &&& tail.no_duplicates()
            &&& tail.contains(s.paths[x].final_loop)
            &&& forall|y: u64| s.rule.orbit(path[lead]).contains(y) <==> tail.contains(y)
        }),
{
    let rule = s.rule;
    let lead = s.paths[x].length_to_loop as nat;
    let m = s.paths[x].final_loop;
    let round = s.loops[m].loop_length as nat;
    s.lemma_path_anchor(x);
    rule.lemma_trajectory_steps(x, lead + round + 1);
    rule.lemma_trajectory_split(x, lead, round);
    rule.lemma_trajectory_tail(x, lead, round, m);
}

} // verus!
