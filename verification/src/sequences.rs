//! Small facts about sequences.

use vstd::prelude::*;

verus! {

/// The first `i + 1` entries of a sequence are the first `i` and the one at
/// index `i`.
pub proof fn lemma_take_next(s: Seq<u64>, i: int)
    requires
        0 <= i < s.len(),
    ensures
        s.take(i + 1) == s.take(i).push(s[i]),
        s.take(i + 1).drop_last() == s.take(i),
        forall|k: u64| s.take(i + 1).contains(k) <==> s.take(i).contains(k) || k == s[i],
{
    let more = s.take(i + 1);
    let done = s.take(i);
    assert(more =~= done.push(s[i]));
    assert(more.drop_last() =~= done);
    assert forall|k: u64| more.contains(k) <==> done.contains(k) || k == s[i] by {
        if done.contains(k) {
            let j = choose|j: int| 0 <= j < done.len() && done[j] == k;
            assert(more[j] == k);
        }
        if k == s[i] {
            assert(more[i] == k);
        }
    }
}

/// The entries of a sequence from index `i` on are the one at index `i` and
/// those from index `i + 1` on.
pub proof fn lemma_subrange_first(s: Seq<u64>, i: int)
    requires
        0 <= i < s.len(),
    ensures
        forall|k: u64|
            s.subrange(i, s.len() as int).contains(k) <==> s.subrange(
                i + 1,
                s.len() as int,
            ).contains(k) || k == s[i],
{
    let done = s.subrange(i + 1, s.len() as int);
    let more = s.subrange(i, s.len() as int);
    assert forall|k: u64| more.contains(k) <==> done.contains(k) || k == s[i] by {
        if done.contains(k) {
            let j = choose|j: int| 0 <= j < done.len() && done[j] == k;
            assert(more[j + 1] == k);
        }
        if more.contains(k) && k != s[i] {
            let j = choose|j: int| 0 <= j < more.len() && more[j] == k;
            assert(done[j - 1] == k);
        }
        if k == s[i] {
            assert(more[0] == k);
        }
    }
}

} // verus!
