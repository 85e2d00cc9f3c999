//! What each mutation does to the runs, and what that means for the logical
//! sequence.
//!
//! The container never merges neighbouring runs of one value: a mutation
//! touches the run that holds the index and at most adds two runs beside it.
//! So the number of runs may grow under repeated mutation, while the logical
//! sequence is always the one a plain vector would hold.

use vstd::prelude::*;
use crate::runs::{
    expand, lemma_expand_len, lemma_replace_at, lemma_run_at_holds, lemma_split_at, repeat,
    run_at, start_of, total, well_formed, MAX_RUN,
};

verus! {

/// The runs after one more `value` at the end: the last run grows when it
/// holds `value` and has room, else a run of one is added.
pub open spec fn push_runs<T>(runs: Seq<(T, u8)>, value: T) -> Seq<(T, u8)> {
    if runs.len() > 0 && runs.last().0 == value && runs.last().1 < MAX_RUN {
        runs.update(runs.len() - 1, (runs.last().0, (runs.last().1 + 1) as u8))
    } else {
        runs.push((value, 1u8))
    }
}

/// The runs after `value` is put before the logical index `idx`.
///
/// Let the run that holds `idx` be `(v, c)`, with `left` of its elements before
/// `idx`. If `v` is `value`, the run grows, or, when it is full, a run of one
/// follows it. Otherwise the run is cut at `idx`: `(v, left)`, `(value, 1)`,
/// `(v, c - left)`, where an empty left part is left out. No element is lost:
/// a run that is met at its start stays whole behind the new one, also when it
/// holds a single element.
pub open spec fn insert_runs<T>(runs: Seq<(T, u8)>, value: T, idx: int) -> Seq<(T, u8)> {
    let k = run_at(runs, idx);
    let (v, c) = runs[k];
    let left = idx - start_of(runs, k);
    if v == value {
        if c < MAX_RUN {
            runs.update(k, (v, (c + 1) as u8))
        } else {
            runs.insert(k + 1, (value, 1u8))
        }
    } else if left > 0 {
        runs.update(k, (v, left as u8)).insert(k + 1, (v, (c - left) as u8)).insert(
            k + 1,
            (value, 1u8),
        )
    } else {
        runs.insert(k, (value, 1u8))
    }
}

/// The runs after the element at the logical index `idx` is taken out: its run
/// shrinks by one, and leaves when it held that element alone.
pub open spec fn remove_runs<T>(runs: Seq<(T, u8)>, idx: int) -> Seq<(T, u8)> {
    let k = run_at(runs, idx);
    let (v, c) = runs[k];
    if c > 1 {
        runs.update(k, (v, (c - 1) as u8))
    } else {
        runs.remove(k)
    }
}

/// The runs after the element at the logical index `idx` is overwritten with
/// `value`.
///
/// A run of one takes the new value in place. A longer run gives one element
/// up, and `value` is then inserted at `idx`, or pushed when `idx` was the last
/// index of all.
pub open spec fn set_runs<T>(runs: Seq<(T, u8)>, value: T, idx: int) -> Seq<(T, u8)> {
    let k = run_at(runs, idx);
    let (v, c) = runs[k];
    if c > 1 {
        let shrunk = runs.update(k, (v, (c - 1) as u8));
        if idx < total(shrunk) {
            insert_runs(shrunk, value, idx)
        } else {
            push_runs(shrunk, value)
        }
    } else {
        runs.update(k, (value, 1u8))
    }
}

/// The runs that stand for `n` copies of `value`: full runs, then the
/// remainder, if there is one. No run of count zero is made.
pub open spec fn filled_runs<T>(value: T, n: nat) -> Seq<(T, u8)> {
    let full = Seq::new(n / (MAX_RUN as nat), |i: int| (value, MAX_RUN));
    if n % (MAX_RUN as nat) == 0 {
        full
    } else {
        full.push((value, (n % (MAX_RUN as nat)) as u8))
    }
}

/// The runs after `n` calls of `push` with one `value`.
pub open spec fn pushed_runs<T>(runs: Seq<(T, u8)>, value: T, n: nat) -> Seq<(T, u8)>
    decreases n,
{
    if n == 0 {
        runs
    } else {
        push_runs(pushed_runs(runs, value, (n - 1) as nat), value)
    }
}

/// The number of runs that `n` equal elements take.
pub open spec fn runs_needed(n: nat) -> nat {
    (n + 254) / 255
}

/// `push_runs` appends to the logical sequence and keeps every run non-empty.
pub proof fn lemma_push_runs<T>(runs: Seq<(T, u8)>, value: T)
    requires
        well_formed(runs),
    ensures
        well_formed(push_runs(runs, value)),
        expand(push_runs(runs, value)) == expand(runs).push(value),
        total(push_runs(runs, value)) == total(runs) + 1,
{
    let after = push_runs(runs, value);
    if runs.len() > 0 && runs.last().0 == value && runs.last().1 < MAX_RUN {
        assert(after.drop_last() =~= runs.drop_last());
        assert(repeat(value, (runs.last().1 + 1) as nat) =~= repeat(value, runs.last().1 as nat).push(
            value,
        ));
        assert(expand(after) =~= expand(runs).push(value));
    } else {
        assert(after.drop_last() =~= runs);
        assert(expand(after) =~= expand(runs).push(value));
    }
}

/// One more run at the end adds its expansion at the end.
proof fn lemma_expand_push<T>(runs: Seq<(T, u8)>, value: T, count: u8)
    ensures
        expand(runs.push((value, count))) == expand(runs) + repeat(value, count as nat),
        total(runs.push((value, count))) == total(runs) + count,
{
    assert(runs.push((value, count)).drop_last() =~= runs);
}

/// `insert_runs` inserts into the logical sequence and keeps every run
/// non-empty.
pub proof fn lemma_insert_runs<T>(runs: Seq<(T, u8)>, value: T, idx: int)
    requires
        well_formed(runs),
        0 <= idx < total(runs),
    ensures
        well_formed(insert_runs(runs, value, idx)),
        expand(insert_runs(runs, value, idx)) == expand(runs).insert(idx, value),
        total(insert_runs(runs, value, idx)) == total(runs) + 1,
{
    let after = insert_runs(runs, value, idx);
    let k = run_at(runs, idx);
    lemma_run_at_holds(runs, idx);
    let (v, c) = runs[k];
    let left = idx - start_of(runs, k);
    let before = expand(runs.take(k));
    let behind = expand(runs.skip(k + 1));
    lemma_split_at(runs, k);
    lemma_expand_len(runs.take(k));
    let none = Seq::<(T, u8)>::empty();
    let mid = if v == value {
        if c < MAX_RUN {
            none.push((v, (c + 1) as u8))
        } else {
            none.push((v, c)).push((value, 1u8))
        }
    } else if left > 0 {
        none.push((v, left as u8)).push((value, 1u8)).push((v, (c - left) as u8))
    } else {
        none.push((value, 1u8)).push((v, c))
    };
    assert(after =~= runs.take(k) + mid + runs.skip(k + 1));
    lemma_replace_at(runs, k, mid);
    assert(expand(mid) =~= repeat(v, c as nat).insert(left, value)) by {
        if v == value {
            if c < MAX_RUN {
                lemma_expand_push(none, v, (c + 1) as u8);
            } else {
                lemma_expand_push(none, v, c);
                lemma_expand_push(none.push((v, c)), value, 1u8);
            }
        } else if left > 0 {
            lemma_expand_push(none, v, left as u8);
            lemma_expand_push(none.push((v, left as u8)), value, 1u8);
            lemma_expand_push(
                none.push((v, left as u8)).push((value, 1u8)),
                v,
                (c - left) as u8,
            );
        } else {
            lemma_expand_push(none, value, 1u8);
            lemma_expand_push(none.push((value, 1u8)), v, c);
        }
    };
    assert(expand(after) =~= expand(runs).insert(idx, value));
    lemma_expand_len(after);
    lemma_expand_len(runs);
}

/// `remove_runs` removes from the logical sequence and keeps every run
/// non-empty.
pub proof fn lemma_remove_runs<T>(runs: Seq<(T, u8)>, idx: int)
    requires
        well_formed(runs),
        0 <= idx < total(runs),
    ensures
        well_formed(remove_runs(runs, idx)),
        expand(remove_runs(runs, idx)) == expand(runs).remove(idx),
        total(remove_runs(runs, idx)) == total(runs) - 1,
{
    let after = remove_runs(runs, idx);
    let k = run_at(runs, idx);
    lemma_run_at_holds(runs, idx);
    let (v, c) = runs[k];
    let left = idx - start_of(runs, k);
    lemma_split_at(runs, k);
    lemma_expand_len(runs.take(k));
    let none = Seq::<(T, u8)>::empty();
    let mid = if c > 1 {
        none.push((v, (c - 1) as u8))
    } else {
        none
    };
    assert(after =~= runs.take(k) + mid + runs.skip(k + 1));
    lemma_replace_at(runs, k, mid);
    assert(expand(mid) =~= repeat(v, c as nat).remove(left)) by {
        if c > 1 {
            lemma_expand_push(none, v, (c - 1) as u8);
        }
    };
    assert(expand(after) =~= expand(runs).remove(idx));
    lemma_expand_len(after);
    lemma_expand_len(runs);
}

/// `set_runs` overwrites one element of the logical sequence and keeps every
/// run non-empty.
pub proof fn lemma_set_runs<T>(runs: Seq<(T, u8)>, value: T, idx: int)
    requires
        well_formed(runs),
        0 <= idx < total(runs),
    ensures
        well_formed(set_runs(runs, value, idx)),
        expand(set_runs(runs, value, idx)) == expand(runs).update(idx, value),
        total(set_runs(runs, value, idx)) == total(runs),
{
    let after = set_runs(runs, value, idx);
    let k = run_at(runs, idx);
    lemma_run_at_holds(runs, idx);
    let (v, c) = runs[k];
    lemma_expand_len(runs);
    if c > 1 {
        let shrunk = remove_runs(runs, idx);
        lemma_remove_runs(runs, idx);
        lemma_expand_len(shrunk);
        if idx < total(shrunk) {
            lemma_insert_runs(shrunk, value, idx);
        } else {
            lemma_push_runs(shrunk, value);
        }
        assert(expand(after) =~= expand(runs).update(idx, value));
    } else {
        let mid = Seq::<(T, u8)>::empty().push((value, 1u8));
        assert(after =~= runs.take(k) + mid + runs.skip(k + 1));
        lemma_split_at(runs, k);
        lemma_replace_at(runs, k, mid);
        lemma_expand_push(Seq::<(T, u8)>::empty(), value, 1u8);
        lemma_expand_len(runs.take(k));
        assert(expand(after) =~= expand(runs).update(idx, value));
    }
    lemma_expand_len(after);
}

/// `q` full runs of `value` stand for `255 * q` copies of it.
proof fn lemma_full_runs<T>(value: T, q: nat)
    ensures
        total(Seq::new(q, |i: int| (value, MAX_RUN))) == 255 * q,
        expand(Seq::new(q, |i: int| (value, MAX_RUN))) == repeat(value, 255 * q),
    decreases q,
{
    let full = Seq::new(q, |i: int| (value, MAX_RUN));
    if q == 0 {
        assert(expand(full) =~= repeat(value, 0));
    } else {
        let fewer = Seq::new((q - 1) as nat, |i: int| (value, MAX_RUN));
        lemma_full_runs(value, (q - 1) as nat);
        assert(full.drop_last() =~= fewer);
        assert(expand(full) =~= repeat(value, 255 * q));
    }
}

/// `filled_runs` stands for `n` copies of the value, in as few runs as `n`
/// equal elements can take.
pub proof fn lemma_filled_runs<T>(value: T, n: nat)
    ensures
        well_formed(filled_runs(value, n)),
        expand(filled_runs(value, n)) == repeat(value, n),
        total(filled_runs(value, n)) == n,
        filled_runs(value, n).len() == runs_needed(n),
{
    let q = n / 255;
    let r = n % 255;
    let full = Seq::new(q, |i: int| (value, MAX_RUN));
    lemma_full_runs(value, q);
    if r != 0 {
        lemma_expand_push(full, value, r as u8);
        assert(repeat(value, 255 * q) + repeat(value, r) =~= repeat(value, n));
    }
}

} // verus!
