//! The two kinds of record that the memoizer keeps.

use crate::recurrence::Rule;
use vstd::prelude::*;

verus! {

/// What is known of one number: its successor, the loop its trajectory ends
/// in, and how many steps away that loop is.
#[derive(Debug, Clone, Copy, PartialEq, Eq, Structural)]
pub struct NumberPath {
    /// The number that the record describes.
    pub start: u64,
    /// Its successor under the recurrence.
    pub next: u64,
    /// The smallest member of the loop that its trajectory ends in.
    pub final_loop: u64,
    /// The number of steps to the first loop member; 0 exactly when `start`
    /// is itself a loop member.
    pub length_to_loop: u64,
}

/// A loop, named by its smallest member.
#[derive(Debug, Clone, Copy, PartialEq, Eq, Structural)]
pub struct FinalLoop {
    /// The smallest member of the loop.
    pub min_value: u64,
    /// The number of distinct members of the loop.
    pub loop_length: u64,
}

impl NumberPath {
    /// The record says of `start` what is true under `rule`.
    pub open spec fn correct_for(self, rule: Rule) -> bool {
        &&& self.next == rule.step(self.start)
        &&& rule.reaches_cycle_in(self.start, self.length_to_loop as nat)
        &&& rule.is_final_loop(self.start, self.final_loop)
    }

    /// The record of a loop member `k` whose loop has `min` as its smallest
    /// member.
    pub open spec fn of_member(rule: Rule, k: u64, min: u64) -> NumberPath {
        NumberPath { start: k, next: rule.step(k), final_loop: min, length_to_loop: 0 }
    }

    /// There is one correct record for each number.
    pub proof fn lemma_correct_unique(self, other: NumberPath, rule: Rule)
        requires
            self.correct_for(rule),
            other.correct_for(rule),
            self.start == other.start,
        ensures
            self == other,
    {
        rule.lemma_distance_unique(
            self.start,
            self.length_to_loop as nat,
            other.length_to_loop as nat,
        );
        rule.lemma_final_loop_unique(self.start, self.final_loop, other.final_loop);
    }
}

impl FinalLoop {
    /// `min_value` is on a cycle of `loop_length` members, none of which is
    /// smaller.
    pub open spec fn correct_for(self, rule: Rule) -> bool {
        &&& rule.is_period(self.min_value, self.loop_length as nat)
        &&& rule.is_final_loop(self.min_value, self.min_value)
    }

    /// There is one correct record for each loop.
    pub proof fn lemma_correct_unique(self, other: FinalLoop, rule: Rule)
        requires
            self.correct_for(rule),
            other.correct_for(rule),
            self.min_value == other.min_value,
        ensures
            self == other,
    {
        rule.lemma_period_unique(
            self.min_value,
            self.loop_length as nat,
            other.loop_length as nat,
        );
    }
}

} // verus!
