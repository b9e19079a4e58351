//! The recurrence as a mathematical object: one step, iteration, cycles.

use vstd::prelude::*;

verus! {

/// The two parameters of a recurrence.
pub struct Rule {
    pub mult: u64,
    pub add: u64,
}

impl Rule {
    /// One step: halve an even number; send an odd `x` to `mult * x + add`,
    /// reduced modulo 2^64.
    pub open spec fn step(self, x: u64) -> u64 {
        if x % 2 == 0 {
            (x / 2) as u64
        } else {
            ((self.mult * x + self.add) % 0x1_0000_0000_0000_0000) as u64
        }
    }

    /// The value reached from `x` after `n` steps.
    pub open spec fn iterate(self, x: u64, n: nat) -> u64
        decreases n,
    {
        if n == 0 {
            x
        } else {
            self.step(self.iterate(x, (n - 1) as nat))
        }
    }

    /// `x` comes back to itself after some positive number of steps.
    pub open spec fn on_cycle(self, x: u64) -> bool {
        exists|p: nat| p > 0 && #[trigger] self.iterate(x, p) == x
    }

    /// `p` is the least positive number of steps after which `x` comes back
    /// to itself: the number of distinct members of the cycle through `x`.
    pub open spec fn is_period(self, x: u64, p: nat) -> bool {
        &&& p > 0
        &&& self.iterate(x, p) == x
        &&& forall|j: nat| 0 < j < p ==> #[trigger] self.iterate(x, j) != x
    }

    /// The trajectory of `x` enters a cycle after exactly `n` steps.
    #[verifier::opaque]
    pub open spec fn reaches_cycle_in(self, x: u64, n: nat) -> bool {
        &&& self.on_cycle(self.iterate(x, n))
        &&& forall|j: nat| j < n ==> !self.on_cycle(#[trigger] self.iterate(x, j))
    }

    /// `m` is the smallest member of the cycle that the trajectory of `x`
    /// ends in.
    #[verifier::opaque]
    pub open spec fn is_final_loop(self, x: u64, m: u64) -> bool {
        &&& self.on_cycle(m)
        &&& exists|i: nat| #[trigger] self.iterate(x, i) == m
        &&& forall|j: nat|
            self.on_cycle(#[trigger] self.iterate(x, j)) ==> m <= self.iterate(x, j)
    }

    /// Every value on the trajectory of one of the numbers `1..=limit`.
    pub open spec fn orbits_upto(self, limit: u64) -> Set<u64> {
        Set::new(|y: u64| exists|s: u64| 1 <= s <= limit && #[trigger] self.orbit(s).contains(y))
    }

    /// The name of every loop that one of the numbers `1..=limit` ends in.
    pub open spec fn loops_upto(self, limit: u64) -> Set<u64> {
        Set::new(|m: u64| exists|s: u64| 1 <= s <= limit && #[trigger] self.is_final_loop(s, m))
    }

    /// The first `n` values of the trajectory of `x`, starting with `x`.
    pub open spec fn trajectory(self, x: u64, n: nat) -> Seq<u64> {
        Seq::new(n, |i: int| self.iterate(x, i as nat))
    }

    /// Every value that the trajectory of `x` passes through, `x` included.
    pub open spec fn orbit(self, x: u64) -> Set<u64> {
        Set::new(|y: u64| exists|n: nat| #[trigger] self.iterate(x, n) == y)
    }

    /// Iterating `a` steps and then `b` steps is iterating `a + b` steps.
    pub proof fn lemma_iterate_add(self, x: u64, a: nat, b: nat)
        ensures
            self.iterate(self.iterate(x, a), b) == self.iterate(x, a + b),
        decreases b,
    {
        if b > 0 {
            self.lemma_iterate_add(x, a, (b - 1) as nat);
            assert((a + b - 1) as nat == a + (b - 1) as nat);
        }
    }

    /// The first step may be taken before the others.
    pub proof fn lemma_iterate_unfold(self, x: u64, n: nat)
        ensures
            self.iterate(self.step(x), n) == self.iterate(x, n + 1),
            self.iterate(x, n + 1) == self.step(self.iterate(x, n)),
    {
        assert(self.iterate(x, 1) == self.step(self.iterate(x, 0)));
        self.lemma_iterate_add(x, 1, n);
    }

    /// A value that returns to itself after `p` steps is also where it was
    /// after `k * p` steps.
    pub proof fn lemma_cycle_multiple(self, x: u64, p: nat, k: nat)
        requires
            self.iterate(x, p) == x,
        ensures
            self.iterate(x, k * p) == x,
        decreases k,
    {
        if k > 0 {
            self.lemma_cycle_multiple(x, p, (k - 1) as nat);
            assert((k - 1) * p + p == k * p) by (nonlinear_arith);
            self.lemma_iterate_add(x, ((k - 1) * p) as nat, p);
        } else {
            assert(k * p == 0) by (nonlinear_arith)
                requires
                    k == 0,
            ;
        }
    }

    /// On a cycle of `p` steps, the step count may be reduced modulo `p`.
    pub proof fn lemma_cycle_reduce(self, x: u64, p: nat, n: nat)
        requires
            p > 0,
            self.iterate(x, p) == x,
        ensures
            self.iterate(x, n) == self.iterate(x, n % p),
        decreases n,
    {
        if n >= p {
            self.lemma_cycle_reduce(x, p, (n - p) as nat);
            self.lemma_iterate_add(x, p, (n - p) as nat);
            assert((n - p) % (p as int) == n % p) by (nonlinear_arith)
                requires
                    n >= p,
                    p > 0,
            ;
        } else {
            assert(n % p == n) by (nonlinear_arith)
                requires
                    n < p,
            ;
        }
    }

    /// From any point of its trajectory, a value on a cycle is reached again:
    /// the result is a number of further steps that lead back to `x`.
    pub proof fn lemma_cycle_returns(self, x: u64, n: nat) -> (m: nat)
        requires
            self.on_cycle(x),
        ensures
            self.iterate(self.iterate(x, n), m) == x,
    {
        let p = choose|p: nat| p > 0 && #[trigger] self.iterate(x, p) == x;
        let m = (n * (p - 1)) as nat;
        assert(n * (p - 1) >= 0 && n + n * (p - 1) == n * p) by (nonlinear_arith)
            requires
                p > 0,
        ;
        self.lemma_cycle_multiple(x, p, n);
        self.lemma_iterate_add(x, n, m);
        m
    }

    /// Every value on the trajectory of a cycle member is on the cycle.
    pub proof fn lemma_cycle_closed(self, x: u64, n: nat)
        requires
            self.on_cycle(x),
        ensures
            self.on_cycle(self.iterate(x, n)),
    {
        let p = choose|p: nat| p > 0 && #[trigger] self.iterate(x, p) == x;
        self.lemma_iterate_add(x, n, p);
        self.lemma_iterate_add(x, p, n);
        assert(self.iterate(self.iterate(x, n), p) == self.iterate(x, n));
    }

    /// Below a return time `p` there is a least one.
    pub proof fn lemma_least_return(self, x: u64, p: nat) -> (q: nat)
        requires
            p > 0,
            self.iterate(x, p) == x,
        ensures
            self.is_period(x, q),
            q <= p,
        decreases p,
    {
        if forall|j: nat| 0 < j < p ==> #[trigger] self.iterate(x, j) != x {
            p
        } else {
            let j = choose|j: nat| 0 < j < p && #[trigger] self.iterate(x, j) == x;
            self.lemma_least_return(x, j)
        }
    }

    /// Every cycle member has a period.
    pub proof fn lemma_period_exists(self, x: u64) -> (p: nat)
        requires
            self.on_cycle(x),
        ensures
            self.is_period(x, p),
    {
        let p0 = choose|p: nat| p > 0 && #[trigger] self.iterate(x, p) == x;
        self.lemma_least_return(x, p0)
    }

    /// A value has at most one period.
    pub proof fn lemma_period_unique(self, x: u64, p: nat, q: nat)
        requires
            self.is_period(x, p),
            self.is_period(x, q),
        ensures
            p == q,
    {
    }

    /// All members of a cycle have the same period.
    pub proof fn lemma_period_shared(self, x: u64, p: nat, n: nat)
        requires
            self.is_period(x, p),
        ensures
            self.is_period(self.iterate(x, n), p),
    {
        let y = self.iterate(x, n);
        self.lemma_iterate_add(x, n, p);
        self.lemma_iterate_add(x, p, n);
        assert(self.on_cycle(x));
        let back = self.lemma_cycle_returns(x, n);
        assert forall|j: nat| 0 < j < p implies #[trigger] self.iterate(y, j) != y by {
            if self.iterate(y, j) == y {
                self.lemma_iterate_add(y, j, back);
                self.lemma_iterate_add(y, back, j);
                assert(self.iterate(x, j) == x);
            }
        }
    }

    /// The first `p` values of the trajectory of a value of period `p` are
    /// pairwise different.
    pub proof fn lemma_cycle_distinct(self, x: u64, p: nat, a: nat, b: nat)
        requires
            self.is_period(x, p),
            a < b < p,
        ensures
            self.iterate(x, a) != self.iterate(x, b),
    {
        if self.iterate(x, a) == self.iterate(x, b) {
            let d = (p - b) as nat;
            self.lemma_iterate_add(x, a, d);
            self.lemma_iterate_add(x, b, d);
            assert(self.iterate(x, a + d) == x);
            assert(0 < a + d < p);
        }
    }

    /// The trajectory enters its cycle at one distance only.
    pub proof fn lemma_distance_unique(self, x: u64, a: nat, b: nat)
        requires
            self.reaches_cycle_in(x, a),
            self.reaches_cycle_in(x, b),
        ensures
            a == b,
    {
        reveal(Rule::reaches_cycle_in);
    }

    /// The trajectory ends in one cycle only, which has one smallest member.
    pub proof fn lemma_final_loop_unique(self, x: u64, m1: u64, m2: u64)
        requires
            self.is_final_loop(x, m1),
            self.is_final_loop(x, m2),
        ensures
            m1 == m2,
    {
        reveal(Rule::is_final_loop);
    }

    /// A value off every cycle is one step further from the cycle than its
    /// successor.
    pub proof fn lemma_distance_extend(self, x: u64, n: nat)
        requires
            !self.on_cycle(x),
            self.reaches_cycle_in(self.step(x), n),
        ensures
            self.reaches_cycle_in(x, n + 1),
    {
        reveal(Rule::reaches_cycle_in);
        self.lemma_iterate_unfold(x, n);
        assert forall|j: nat| j < n + 1 implies !self.on_cycle(#[trigger] self.iterate(x, j)) by {
            if j > 0 {
                self.lemma_iterate_unfold(x, (j - 1) as nat);
            }
        }
    }

    /// The successor of a value off every cycle is one step nearer to the
    /// cycle.
    pub proof fn lemma_distance_shrink(self, x: u64, n: nat)
        requires
            n > 0,
            self.reaches_cycle_in(x, n),
        ensures
            self.reaches_cycle_in(self.step(x), (n - 1) as nat),
    {
        reveal(Rule::reaches_cycle_in);
        self.lemma_iterate_unfold(x, (n - 1) as nat);
        assert forall|j: nat| j < n - 1 implies !self.on_cycle(
            #[trigger] self.iterate(self.step(x), j),
        ) by {
            self.lemma_iterate_unfold(x, j);
            assert(!self.on_cycle(self.iterate(x, j + 1)));
        }
    }

    /// A cycle member is at distance 0 from its cycle.
    pub proof fn lemma_distance_zero(self, x: u64)
        ensures
            self.on_cycle(x) <==> self.reaches_cycle_in(x, 0),
    {
        reveal(Rule::reaches_cycle_in);
        assert(self.iterate(x, 0) == x);
    }

    /// A value ends in the cycle in which its successor ends.
    pub proof fn lemma_final_loop_extend(self, x: u64, m: u64)
        requires
            self.is_final_loop(self.step(x), m),
        ensures
            self.is_final_loop(x, m),
    {
        reveal(Rule::is_final_loop);
        let y = self.step(x);
        let i = choose|i: nat| #[trigger] self.iterate(y, i) == m;
        self.lemma_iterate_unfold(x, i);
        assert(self.iterate(x, i + 1) == m);
        assert forall|j: nat| self.on_cycle(#[trigger] self.iterate(x, j)) implies m
            <= self.iterate(x, j) by {
            if j > 0 {
                self.lemma_iterate_unfold(x, (j - 1) as nat);
                assert(self.iterate(x, j) == self.iterate(y, (j - 1) as nat));
            } else {
                assert(self.iterate(x, 0) == x);
                let back = self.lemma_cycle_returns(x, 1);
                assert(self.iterate(x, 1) == y) by {
                    self.lemma_iterate_unfold(x, 0);
                }
                assert(self.iterate(y, back) == x);
                self.lemma_cycle_closed(x, 0);
            }
        }
    }

    /// The successor of a value ends in the same cycle as the value.
    pub proof fn lemma_final_loop_step(self, x: u64, m: u64)
        requires
            self.is_final_loop(x, m),
        ensures
            self.is_final_loop(self.step(x), m),
    {
        reveal(Rule::is_final_loop);
        let y = self.step(x);
        let i = choose|i: nat| #[trigger] self.iterate(x, i) == m;
        if i > 0 {
            self.lemma_iterate_unfold(x, (i - 1) as nat);
            assert(self.iterate(y, (i - 1) as nat) == m);
        } else {
            let p = choose|p: nat| p > 0 && #[trigger] self.iterate(m, p) == m;
            self.lemma_iterate_unfold(x, (p - 1) as nat);
            assert(self.iterate(y, (p - 1) as nat) == m);
        }
        assert forall|j: nat| self.on_cycle(#[trigger] self.iterate(y, j)) implies m
            <= self.iterate(y, j) by {
            self.lemma_iterate_unfold(x, j);
            assert(self.iterate(y, j) == self.iterate(x, j + 1));
        }
    }

    /// Every value on a trajectory ends in the same cycle as its start.
    pub proof fn lemma_final_loop_along(self, x: u64, m: u64, n: nat)
        requires
            self.is_final_loop(x, m),
        ensures
            self.is_final_loop(self.iterate(x, n), m),
        decreases n,
    {
        if n > 0 {
            self.lemma_final_loop_along(x, m, (n - 1) as nat);
            self.lemma_final_loop_step(self.iterate(x, (n - 1) as nat), m);
        }
    }

    /// Zero is a fixed point of every recurrence.
    pub proof fn lemma_zero_fixed(self, n: nat)
        ensures
            self.iterate(0, n) == 0,
        decreases n,
    {
        if n > 0 {
            self.lemma_zero_fixed((n - 1) as nat);
        }
    }

    /// The orbit of a value of period `p` consists of the first `p` values of
    /// its trajectory.
    pub proof fn lemma_orbit_of_cycle(self, x: u64, p: nat, y: u64)
        requires
            self.is_period(x, p),
        ensures
            self.orbit(x).contains(y) <==> self.trajectory(x, p).contains(y),
    {
        let t = self.trajectory(x, p);
        if self.orbit(x).contains(y) {
            let n = choose|n: nat| #[trigger] self.iterate(x, n) == y;
            self.lemma_cycle_reduce(x, p, n);
            assert(0 <= n % p < p) by (nonlinear_arith)
                requires
                    p > 0,
            ;
            assert(t[(n % p) as int] == y);
        }
        if t.contains(y) {
            let i = choose|i: int| 0 <= i < t.len() && t[i] == y;
            assert(self.iterate(x, i as nat) == y);
        }
    }

    /// The orbit of a value contains the orbits of the values on it.
    pub proof fn lemma_orbit_along(self, x: u64, n: nat, y: u64)
        requires
            self.orbit(self.iterate(x, n)).contains(y),
        ensures
            self.orbit(x).contains(y),
    {
        let k = choose|k: nat| #[trigger] self.iterate(self.iterate(x, n), k) == y;
        self.lemma_iterate_add(x, n, k);
    }

    /// If `min` is a member of the cycle through `v` and no member is
    /// smaller, every value on that cycle ends in the loop named `min`.
    pub proof fn lemma_cycle_min(self, v: u64, p: nat, at: nat, n: nat)
        requires
            self.is_period(v, p),
            at < p,
            forall|j: nat| j < p ==> self.iterate(v, at) <= #[trigger] self.iterate(v, j),
        ensures
            self.is_final_loop(self.iterate(v, n), self.iterate(v, at)),
    {
        reveal(Rule::is_final_loop);
        let min = self.iterate(v, at);
        let y = self.iterate(v, n);
        assert(self.on_cycle(v));
        self.lemma_cycle_closed(v, at);
        let back = self.lemma_cycle_returns(v, n);
        self.lemma_iterate_add(y, back, at);
        assert(self.iterate(y, back + at) == min);
        assert forall|j: nat| self.on_cycle(#[trigger] self.iterate(y, j)) implies min
            <= self.iterate(y, j) by {
            self.lemma_iterate_add(v, n, j);
            self.lemma_cycle_reduce(v, p, n + j);
            assert(0 <= (n + j) % p < p) by (nonlinear_arith)
                requires
                    p > 0,
            ;
            assert(min <= self.iterate(v, (n + j) % p));
        }
    }

    /// A walk of `n` pairwise different values whose next value is the one at
    /// index `i` has found a cycle: the values from index `i` on are its
    /// members, and the values before are on no cycle.
    pub proof fn lemma_walk_closes(self, x: u64, i: nat, n: nat)
        requires
            i < n,
            self.iterate(x, n) == self.iterate(x, i),
            self.trajectory(x, n).no_duplicates(),
        ensures
            self.on_cycle(self.iterate(x, i)),
            forall|j: nat| j < i ==> !self.on_cycle(#[trigger] self.iterate(x, j)),
    {
        let t = self.trajectory(x, n);
        let v = self.iterate(x, i);
        let d = (n - i) as nat;
        self.lemma_iterate_add(x, i, d);
        assert(self.iterate(v, d) == v);
        assert forall|j: nat| j < i implies !self.on_cycle(#[trigger] self.iterate(x, j)) by {
            let y = self.iterate(x, j);
            if self.on_cycle(y) {
                self.lemma_iterate_add(x, j, (i - j) as nat);
                let back = self.lemma_cycle_returns(y, (i - j) as nat);
                self.lemma_cycle_reduce(v, d, back);
                let k = back % d;
                assert(0 <= k < d) by (nonlinear_arith)
                    requires
                        d > 0,
                        k == back % d,
                ;
                self.lemma_iterate_add(x, i, k);
                assert(t[(i + k) as int] == y);
                assert(t[j as int] == y);
            }
        }
    }

    /// What it means to enter a cycle after `n` steps: the value reached is
    /// on a cycle, and no earlier value is.
    pub proof fn lemma_distance_meaning(self, x: u64, n: nat)
        requires
            self.reaches_cycle_in(x, n),
        ensures
            self.on_cycle(self.iterate(x, n)),
            forall|j: nat| j < n ==> !self.on_cycle(#[trigger] self.iterate(x, j)),
    {
        reveal(Rule::reaches_cycle_in);
    }

    /// What it means to end in the loop `m`: `m` is on a cycle, the
    /// trajectory reaches it, and no cycle member on the trajectory is
    /// smaller.
    pub proof fn lemma_final_loop_meaning(self, x: u64, m: u64)
        requires
            self.is_final_loop(x, m),
        ensures
            self.on_cycle(m),
            self.orbit(x).contains(m),
            forall|j: nat|
                self.on_cycle(#[trigger] self.iterate(x, j)) ==> m <= self.iterate(x, j),
    {
        reveal(Rule::is_final_loop);
        let i = choose|i: nat| #[trigger] self.iterate(x, i) == m;
        assert(self.iterate(x, i) == m);
    }

    /// A trajectory starts with its number, and each value in it is followed
    /// by its successor.
    pub proof fn lemma_trajectory_steps(self, x: u64, n: nat)
        requires
            n > 0,
        ensures
            self.trajectory(x, n).len() == n,
            self.trajectory(x, n)[0] == x,
            forall|i: int|
                0 <= i < n - 1 ==> self.trajectory(x, n)[i + 1] == self.step(
                    #[trigger] self.trajectory(x, n)[i],
                ),
    {
        let t = self.trajectory(x, n);
        assert(t[0] == self.iterate(x, 0));
        assert forall|i: int| 0 <= i < n - 1 implies t[i + 1] == self.step(#[trigger] t[i]) by {
            self.lemma_iterate_unfold(x, i as nat);
        }
    }

    /// A trajectory that enters its cycle after `lead` steps has no cycle
    /// member before that index and only cycle members from it on; `round`
    /// steps later it is where it entered.
    pub proof fn lemma_trajectory_split(self, x: u64, lead: nat, round: nat)
        requires
            self.reaches_cycle_in(x, lead),
            self.is_period(self.iterate(x, lead), round),
        ensures
            ({
                let path = self.trajectory(x, lead + round + 1);
                &&& forall|i: int| 0 <= i < lead ==> !self.on_cycle(#[trigger] path[i])
                &&& forall|i: int| lead <= i < path.len() ==> self.on_cycle(#[trigger] path[i])
                &&& path[(lead + round) as int] == path[lead as int]
            }),
    {
        let path = self.trajectory(x, lead + round + 1);
        let c = self.iterate(x, lead);
        self.lemma_distance_meaning(x, lead);
        assert forall|i: int| 0 <= i < lead implies !self.on_cycle(#[trigger] path[i]) by {
            assert(path[i] == self.iterate(x, i as nat));
        }
        assert forall|i: int| lead <= i < path.len() implies self.on_cycle(#[trigger] path[i]) by {
            self.lemma_iterate_add(x, lead, (i - lead) as nat);
            self.lemma_cycle_closed(c, (i - lead) as nat);
        }
        self.lemma_iterate_add(x, lead, round);
    }

    /// In a trajectory that enters its cycle after `lead` steps, the `round`
    /// values from that index on are the members of the cycle, each once, and
    /// the name of the loop is among them.
    pub proof fn lemma_trajectory_tail(self, x: u64, lead: nat, round: nat, m: u64)
        requires
            self.is_period(self.iterate(x, lead), round),
            self.is_final_loop(x, m),
        ensures
            ({
                let path = self.trajectory(x, lead + round + 1);
                let tail = path.subrange(lead as int, (lead + round) as int);
                &&& tail.no_duplicates()
                &&& tail.contains(m)
                &&& forall|y: u64| self.orbit(path[lead as int]).contains(y) <==> tail.contains(y)
            }),
    {
        let path = self.trajectory(x, lead + round + 1);
        let tail = path.subrange(lead as int, (lead + round) as int);
        let c = self.iterate(x, lead);
        assert(tail =~= self.trajectory(c, round)) by {
            assert forall|i: int| 0 <= i < round implies tail[i] == self.trajectory(c, round)[i] by {
                self.lemma_iterate_add(x, lead, i as nat);
            }
        }
        assert forall|i: int, j: int|
            0 <= i < tail.len() && 0 <= j < tail.len() && i != j implies tail[i] != tail[j] by {
            if i < j {
                self.lemma_cycle_distinct(c, round, i as nat, j as nat);
            } else {
                self.lemma_cycle_distinct(c, round, j as nat, i as nat);
            }
        }
        assert forall|y: u64| self.orbit(c).contains(y) <==> tail.contains(y) by {
            self.lemma_orbit_of_cycle(c, round, y);
        }
        self.lemma_final_loop_along(x, m, lead);
        self.lemma_final_loop_meaning(c, m);
    }
}

} // verus!
