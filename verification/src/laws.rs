//! Laws of the array: what a reader may rely on when calls are combined.
//!
//! Each law speaks of an array `before` a mutation and the array `after` it,
//! tied together by the run-level result that the mutation's contract names.

use vstd::prelude::*;
use crate::edits::{
    filled_runs, insert_runs, lemma_filled_runs, lemma_insert_runs, lemma_push_runs,
    lemma_set_runs, push_runs, pushed_runs, runs_needed, set_runs,
};
use crate::rle_array::RLEArray;
use crate::runs::{lemma_expand_len, total, well_formed};

verus! {

/// After `push(value)`, `get` at the old length returns `value`, and `get` at
/// every index below it returns what it returned before.
pub proof fn law_get_after_push<T: PartialEq + Copy>(
    before: RLEArray<T>,
    after: RLEArray<T>,
    value: T,
)
    requires
        before.wf(),
        after.data@ == push_runs(before.data@, value),
    ensures
        after@.len() == before@.len() + 1,
        after.spec_get(before@.len() as int) == Ok::<T, &'static str>(value),
        forall|i: int| 0 <= i < before@.len() ==> after.spec_get(i) == before.spec_get(i),
{
    lemma_push_runs(before.data@, value);
}

/// After a successful `insert(value, idx)`, the array is one longer, `get(idx)`
/// returns `value`, every index below `idx` reads as before, and every index
/// above it reads what stood one place earlier.
pub proof fn law_get_after_insert<T: PartialEq + Copy>(
    before: RLEArray<T>,
    after: RLEArray<T>,
    value: T,
    idx: int,
)
    requires
        before.wf(),
        0 <= idx < before@.len(),
        after.data@ == insert_runs(before.data@, value, idx),
    ensures
        after@.len() == before@.len() + 1,
        after.spec_get(idx) == Ok::<T, &'static str>(value),
        forall|i: int| 0 <= i < idx ==> after.spec_get(i) == before.spec_get(i),
        forall|i: int| idx < i <= before@.len() ==> after.spec_get(i) == before.spec_get(i - 1),
{
    lemma_expand_len(before.data@);
    lemma_insert_runs(before.data@, value, idx);
}

/// After a successful `set(value, idx)`, `get(idx)` returns `value`, for every
/// index below the length, the last one included; the length and every other
/// element are as before.
pub proof fn law_get_after_set<T: PartialEq + Copy>(
    before: RLEArray<T>,
    after: RLEArray<T>,
    value: T,
    idx: int,
)
    requires
        before.wf(),
        0 <= idx < before@.len(),
        after.data@ == set_runs(before.data@, value, idx),
    ensures
        after@.len() == before@.len(),
        after.spec_get(idx) == Ok::<T, &'static str>(value),
        forall|i: int|
            0 <= i < before@.len() && i != idx ==> after.spec_get(i) == before.spec_get(i),
{
    lemma_expand_len(before.data@);
    lemma_set_runs(before.data@, value, idx);
}

/// `n` calls of `push` with one value, on an empty array, leave `n` elements
/// in as few runs as they can take: `n / 255`, rounded up. They are the runs
/// that `with_capacity` builds for `n`.
pub proof fn law_push_repeated<T>(value: T, n: nat)
    ensures
        pushed_runs(Seq::<(T, u8)>::empty(), value, n) == filled_runs(value, n),
        total(pushed_runs(Seq::<(T, u8)>::empty(), value, n)) == n,
        pushed_runs(Seq::<(T, u8)>::empty(), value, n).len() == runs_needed(n),
        well_formed(pushed_runs(Seq::<(T, u8)>::empty(), value, n)),
    decreases n,
{
    let none = Seq::<(T, u8)>::empty();
    lemma_filled_runs(value, n);
    if n == 0 {
        assert(filled_runs(value, 0) =~= none);
    } else {
        let m = (n - 1) as nat;
        law_push_repeated(value, m);
        lemma_filled_runs(value, m);
        let prior = filled_runs(value, m);
        assert(push_runs(prior, value) =~= filled_runs(value, n));
    }
}

} // verus!
