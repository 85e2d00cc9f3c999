//! The mathematical model of a run-length-encoded sequence.
//!
//! A run is a pair of a value and a count. A sequence of runs stands for the
//! logical sequence in which every value is repeated as often as its count
//! says. Everything here is ghost: definitions and proofs. The executable
//! container states its contracts over these functions.

use vstd::prelude::*;

verus! {

/// The largest count that one run holds.
pub const MAX_RUN: u8 = 255;

/// The number of logical elements that `runs` stand for: the sum of the counts.
pub open spec fn total<T>(runs: Seq<(T, u8)>) -> nat
    decreases runs.len(),
{
    if runs.len() == 0 {
        0
    } else {
        total(runs.drop_last()) + runs.last().1 as nat
    }
}

/// The logical sequence that `runs` stand for: each value, `count` times, in order.
pub open spec fn expand<T>(runs: Seq<(T, u8)>) -> Seq<T>
    decreases runs.len(),
{
    if runs.len() == 0 {
        Seq::empty()
    } else {
        expand(runs.drop_last()) + repeat(runs.last().0, runs.last().1 as nat)
    }
}

/// `count` copies of `value`.
pub open spec fn repeat<T>(value: T, count: nat) -> Seq<T> {
    Seq::new(count, |i: int| value)
}

/// Every run holds at least one element.
pub open spec fn well_formed<T>(runs: Seq<(T, u8)>) -> bool {
    forall|k: int| 0 <= k < runs.len() ==> (#[trigger] runs[k]).1 >= 1
}

/// The number of logical elements that stand before run `k`.
pub open spec fn start_of<T>(runs: Seq<(T, u8)>, k: int) -> nat {
    total(runs.take(k))
}

/// The index of the run that holds the logical index `idx`, for `idx` below
/// `total(runs)`: the last run that starts at or before `idx`.
pub open spec fn run_at<T>(runs: Seq<(T, u8)>, idx: int) -> int
    decreases runs.len(),
{
    if runs.len() == 0 {
        0
    } else if total(runs.drop_last()) <= idx {
        runs.len() - 1
    } else {
        run_at(runs.drop_last(), idx)
    }
}

/// The expansion is as long as the sum of the counts.
pub proof fn lemma_expand_len<T>(runs: Seq<(T, u8)>)
    ensures
        expand(runs).len() == total(runs),
    decreases runs.len(),
{
    if runs.len() > 0 {
        lemma_expand_len(runs.drop_last());
    }
}

/// Sum and expansion go through concatenation.
pub proof fn lemma_concat<T>(a: Seq<(T, u8)>, b: Seq<(T, u8)>)
    ensures
        total(a + b) == total(a) + total(b),
        expand(a + b) == expand(a) + expand(b),
    decreases b.len(),
{
    if b.len() == 0 {
        assert(a + b =~= a);
        assert(expand(a) + expand(b) =~= expand(a));
    } else {
        assert((a + b).drop_last() =~= a + b.drop_last());
        assert((a + b).last() == b.last());
        lemma_concat(a, b.drop_last());
        assert(expand(a + b) =~= expand(a) + expand(b));
    }
}

/// One run expands to its value, repeated.
pub proof fn lemma_single<T>(value: T, count: u8)
    ensures
        total(seq![(value, count)]) == count,
        expand(seq![(value, count)]) == repeat(value, count as nat),
{
    let s = seq![(value, count)];
    assert(s.drop_last() =~= Seq::<(T, u8)>::empty());
    assert(total(s.drop_last()) == 0);
    assert(expand(s.drop_last()) =~= Seq::<T>::empty());
    assert(expand(s) =~= repeat(value, count as nat));
}

/// A run starts where the run before it ends.
pub proof fn lemma_start_next<T>(runs: Seq<(T, u8)>, k: int)
    requires
        0 <= k < runs.len(),
    ensures
        start_of(runs, k + 1) == start_of(runs, k) + runs[k].1,
{
    assert(runs.take(k + 1).drop_last() =~= runs.take(k));
}

/// Nothing stands before the first run, and everything before the end.
pub proof fn lemma_start_ends<T>(runs: Seq<(T, u8)>)
    ensures
        start_of(runs, 0) == 0,
        start_of(runs, runs.len() as int) == total(runs),
{
    assert(runs.take(runs.len() as int) =~= runs);
    assert(runs.take(0) =~= Seq::<(T, u8)>::empty());
}

/// Later runs start later.
pub proof fn lemma_start_monotone<T>(runs: Seq<(T, u8)>, j: int, k: int)
    requires
        0 <= j <= k <= runs.len(),
    ensures
        start_of(runs, j) <= start_of(runs, k),
    decreases k - j,
{
    if j < k {
        lemma_start_monotone(runs, j, k - 1);
        lemma_start_next(runs, k - 1);
    }
}

/// Below the total, `run_at` names a run, and that run holds the index.
pub proof fn lemma_run_at_holds<T>(runs: Seq<(T, u8)>, idx: int)
    requires
        0 <= idx < total(runs),
    ensures
        0 <= run_at(runs, idx) < runs.len(),
        start_of(runs, run_at(runs, idx)) <= idx < start_of(runs, run_at(runs, idx))
            + runs[run_at(runs, idx)].1,
    decreases runs.len(),
{
    let front = runs.drop_last();
    assert(runs.take(runs.len() - 1) =~= front);
    if total(front) <= idx {
    } else {
        lemma_run_at_holds(front, idx);
        let k = run_at(front, idx);
        assert(front.take(k) =~= runs.take(k));
    }
}

/// The run that holds an index is the one that `run_at` names.
pub proof fn lemma_run_at_unique<T>(runs: Seq<(T, u8)>, k: int, idx: int)
    requires
        0 <= k < runs.len(),
        start_of(runs, k) <= idx < start_of(runs, k) + runs[k].1,
    ensures
        run_at(runs, idx) == k,
        idx < total(runs),
    decreases runs.len(),
{
    let front = runs.drop_last();
    assert(runs.take(runs.len() - 1) =~= front);
    lemma_start_next(runs, k);
    lemma_start_ends(runs);
    lemma_start_monotone(runs, k + 1, runs.len() as int);
    if k < runs.len() - 1 {
        lemma_start_monotone(runs, k + 1, runs.len() - 1);
        assert(front.take(k) =~= runs.take(k));
        lemma_run_at_unique(front, k, idx);
    }
}

/// The expansion, cut around run `k`.
pub proof fn lemma_split_at<T>(runs: Seq<(T, u8)>, k: int)
    requires
        0 <= k < runs.len(),
    ensures
        runs == runs.take(k) + seq![runs[k]] + runs.skip(k + 1),
        expand(runs) == expand(runs.take(k)) + repeat(runs[k].0, runs[k].1 as nat) + expand(
            runs.skip(k + 1),
        ),
        total(runs) == start_of(runs, k) + runs[k].1 + total(runs.skip(k + 1)),
{
    lemma_replace_at(runs, k, seq![runs[k]]);
    lemma_single(runs[k].0, runs[k].1);
    assert(runs =~= runs.take(k) + seq![runs[k]] + runs.skip(k + 1));
}

/// What `runs` stand for once run `k` gives way to the runs `mid`.
pub proof fn lemma_replace_at<T>(runs: Seq<(T, u8)>, k: int, mid: Seq<(T, u8)>)
    requires
        0 <= k < runs.len(),
    ensures
        expand(runs.take(k) + mid + runs.skip(k + 1)) == expand(runs.take(k)) + expand(mid)
            + expand(runs.skip(k + 1)),
        total(runs.take(k) + mid + runs.skip(k + 1)) == start_of(runs, k) + total(mid) + total(
            runs.skip(k + 1),
        ),
{
    lemma_concat(runs.take(k), mid);
    lemma_concat(runs.take(k) + mid, runs.skip(k + 1));
}

/// Every logical index inside run `k` holds that run's value.
pub proof fn lemma_expand_index<T>(runs: Seq<(T, u8)>, k: int, offset: int)
    requires
        0 <= k < runs.len(),
        0 <= offset < runs[k].1,
    ensures
        start_of(runs, k) + offset < total(runs),
        expand(runs)[start_of(runs, k) + offset] == runs[k].0,
{
    lemma_split_at(runs, k);
    lemma_expand_len(runs.take(k));
    lemma_expand_len(runs);
}

/// Runs without an empty one hold at least as many elements as there are runs.
pub proof fn lemma_total_lower<T>(runs: Seq<(T, u8)>)
    requires
        well_formed(runs),
    ensures
        total(runs) >= runs.len(),
    decreases runs.len(),
{
    if runs.len() > 0 {
        lemma_total_lower(runs.drop_last());
    }
}

/// An index inside run `k` is the last of all exactly when `k` is the last
/// run and the index is the last of that run.
pub proof fn lemma_last_index<T>(runs: Seq<(T, u8)>, k: int, offset: int)
    requires
        well_formed(runs),
        0 <= k < runs.len(),
        0 <= offset < runs[k].1,
    ensures
        start_of(runs, k) + offset + 1 == total(runs) <==> k + 1 == runs.len() && offset + 1
            == runs[k].1,
{
    lemma_split_at(runs, k);
    lemma_total_lower(runs.skip(k + 1));
}

} // verus!
