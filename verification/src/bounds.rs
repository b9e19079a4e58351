//! Counting arguments: there are only 2^64 values, so cycles and the ways to
//! them are short enough to be counted in a `u64`.

use crate::recurrence::Rule;
use vstd::prelude::*;
use vstd::set_lib::*;

verus! {

/// A sequence of pairwise different `u64` values has at most 2^64 entries.
pub proof fn lemma_distinct_bound(s: Seq<u64>)
    requires
        s.no_duplicates(),
    ensures
        s.len() <= 0x1_0000_0000_0000_0000,
{
    let t = s.map_values(|x: u64| x as int);
    assert(t.no_duplicates());
    t.unique_seq_to_set();
    let all = set_int_range(0, 0x1_0000_0000_0000_0000);
    lemma_int_range(0, 0x1_0000_0000_0000_0000);
    assert(t.to_set().subset_of(all)) by {
        assert forall|v: int| t.to_set().contains(v) implies all.contains(v) by {
            let i = choose|i: int| 0 <= i < t.len() && t[i] == v;
            assert(t[i] == s[i] as int);
        }
    }
    lemma_len_subset(t.to_set(), all);
}

impl Rule {
    /// A cycle has at most 2^64 - 1 members: all of them differ, and zero,
    /// being a fixed point, belongs to no cycle but its own.
    pub proof fn lemma_period_bound(self, x: u64, p: nat)
        requires
            self.is_period(x, p),
        ensures
            p <= u64::MAX,
    {
        if x == 0 {
            self.lemma_zero_fixed(1);
            assert(self.iterate(x, 1) == x);
        } else {
            let s = self.trajectory(x, p).push(0u64);
            assert forall|a: int, b: int| 0 <= a < s.len() && 0 <= b < s.len() && a != b implies s[a]
                != s[b] by {
                let (lo, hi) = if a < b {
                    (a, b)
                } else {
                    (b, a)
                };
                if hi < p {
                    self.lemma_cycle_distinct(x, p, lo as nat, hi as nat);
                } else {
                    if self.iterate(x, lo as nat) == 0 {
                        self.lemma_iterate_add(x, lo as nat, (p - lo) as nat);
                        self.lemma_zero_fixed((p - lo) as nat);
                    }
                }
            }
            lemma_distinct_bound(s);
        }
    }

    /// The way to the cycle is shorter than 2^64 steps: its values all
    /// differ.
    pub proof fn lemma_distance_bound(self, x: u64, n: nat)
        requires
            self.reaches_cycle_in(x, n),
        ensures
            n <= u64::MAX,
    {
        reveal(Rule::reaches_cycle_in);
        let s = self.trajectory(x, n + 1);
        assert forall|a: int, b: int| 0 <= a < s.len() && 0 <= b < s.len() && a != b implies s[a]
            != s[b] by {
            let (lo, hi) = if a < b {
                (a, b)
            } else {
                (b, a)
            };
            if self.iterate(x, lo as nat) == self.iterate(x, hi as nat) {
                self.lemma_iterate_add(x, lo as nat, (hi - lo) as nat);
                assert(self.iterate(self.iterate(x, lo as nat), (hi - lo) as nat) == self.iterate(
                    x,
                    lo as nat,
                ));
                assert(self.on_cycle(self.iterate(x, lo as nat)));
            }
        }
        lemma_distinct_bound(s);
    }
}

} // verus!
