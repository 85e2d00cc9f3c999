//! The run-length-encoded array.
//!
//! An `RLEArray` holds a logical sequence of values as runs of equal
//! neighbours, so that long stretches of one value take little room. Reading
//! and writing by logical index walks the runs: cost grows with the number of
//! runs, not with the number of elements.

use vstd::prelude::*;
use vstd::laws_eq::obeys_concrete_eq;
use vstd::string::StringExecFns;
use crate::edits::{
    filled_runs, insert_runs, lemma_filled_runs, lemma_insert_runs, lemma_push_runs,
    lemma_remove_runs, lemma_set_runs, push_runs, remove_runs, runs_needed, set_runs,
};
use crate::runs::{
    expand, lemma_expand_index, lemma_expand_len, lemma_last_index, lemma_run_at_unique,
    lemma_start_ends, lemma_start_monotone, lemma_start_next, repeat, run_at, start_of, total,
    well_formed, MAX_RUN,
};
use crate::text::{displayed, entry, line_text};

verus! {

/// The message of the one error: a logical index at or past the length.
pub const OUT_OF_RANGE: &'static str = "Index out of range";

/// A sequence of values, stored as runs `(value, count)`.
///
/// Runs are told apart by the values' `==`. The functions that compare values
/// ask that `==` on `T` is equality of values, `obeys_concrete_eq::<T>()`, as
/// it is for the integer types and `bool`.
pub struct RLEArray<T> where T: PartialEq, T: Copy {
    /// The runs, in the order of the elements they stand for.
    pub data: Vec<(T, u8)>,
}

impl<T> View for RLEArray<T> where T: PartialEq, T: Copy {
    type V = Seq<T>;

    /// The logical sequence: every run's value, repeated `count` times.
    open spec fn view(&self) -> Seq<T> {
        expand(self.data@)
    }
}

impl<T> RLEArray<T> where T: PartialEq, T: Copy {
    /// No run is empty. Every constructor gives such an array and every
    /// mutation keeps it so.
    pub open spec fn wf(&self) -> bool {
        well_formed(self.data@)
    }

    /// What `get` returns for `idx`: the element of the logical sequence,
    /// or the error where `idx` is not below the length. How the elements
    /// are laid out in runs plays no part.
    pub open spec fn spec_get(&self, idx: int) -> Result<T, &'static str> {
        if 0 <= idx < self@.len() {
            Ok(self@[idx])
        } else {
            Err(OUT_OF_RANGE)
        }
    }

    /// An array without elements.
    pub fn new() -> (array: RLEArray<T>)
        ensures
            array.wf(),
            array.data@ == Seq::<(T, u8)>::empty(),
            array@ == Seq::<T>::empty(),
    {
        RLEArray { data: Vec::new() }
    }

    /// An array of `capacity` elements, each `default`: full runs, then one
    /// run for the remainder. Where `capacity` is a multiple of the full
    /// count there is no remainder and no run is made for it, so no run is
    /// ever empty, and the runs are those that `capacity` calls of `push`
    /// would build.
    pub fn with_capacity(default: T, capacity: usize) -> (array: RLEArray<T>)
        ensures
            array.wf(),
            array.data@ == filled_runs(default, capacity as nat),
            array.data@.len() == runs_needed(capacity as nat),
            array@ == repeat(default, capacity as nat),
            array@.len() == capacity,
            forall|i: int|
                0 <= i < capacity ==> #[trigger] array.spec_get(i) == Ok::<T, &'static str>(default),
    {
        let mut data: Vec<(T, u8)> = Vec::new();
        let full_sets: usize = capacity / (MAX_RUN as usize);
        let remainder: usize = capacity % (MAX_RUN as usize);
        let mut i: usize = 0;
        while i < full_sets
            invariant
                0 <= i <= full_sets,
                data@ == Seq::new(i as nat, |j: int| (default, MAX_RUN)),
            decreases full_sets - i,
        {
            data.push((default, MAX_RUN));
            i += 1;
            assert(data@ =~= Seq::new(i as nat, |j: int| (default, MAX_RUN)));
        }
        if remainder > 0 {
            data.push((default, remainder as u8));
        }
        proof {
            lemma_filled_runs(default, capacity as nat);
        }
        RLEArray { data }
    }

    /// The number of runs.
    pub fn data_len(&self) -> (n: usize)
        ensures
            n == self.data@.len(),
    {
        self.data.len()
    }

    /// The number of logical elements: the sum of the counts.
    pub fn len(&self) -> (n: usize)
        requires
            self@.len() <= usize::MAX,
        ensures
            n == self@.len(),
    {
        let mut total_size: usize = 0;
        let mut i: usize = 0;
        proof {
            lemma_expand_len(self.data@);
            lemma_start_ends(self.data@);
        }
        while i < self.data.len()
            invariant
                0 <= i <= self.data@.len(),
                total_size == start_of(self.data@, i as int),
                total(self.data@) <= usize::MAX,
            decreases self.data@.len() - i,
        {
            let (_value, count) = self.data[i];
            proof {
                lemma_start_next(self.data@, i as int);
                lemma_start_monotone(self.data@, i + 1, self.data@.len() as int);
                lemma_start_ends(self.data@);
            }
            total_size += count as usize;
            i += 1;
        }
        total_size
    }

    /// Adds `value` at the end. The last run grows when it holds `value` and
    /// is not full; otherwise a run of one is added.
    pub fn push(&mut self, value: T)
        requires
            old(self).wf(),
            obeys_concrete_eq::<T>(),
        ensures
            final(self).wf(),
            final(self).data@ == push_runs(old(self).data@, value),
            final(self)@ == old(self)@.push(value),
    {
        proof {
            reveal(obeys_concrete_eq);
            lemma_push_runs(self.data@, value);
        }
        let len = self.data.len();
        if len == 0 {
            self.data.push((value, 1));
        } else {
            let (last, count) = self.data[len - 1];
            if last == value && count < MAX_RUN {
                self.data[len - 1].1 += 1;
            } else {
                self.data.push((value, 1));
            }
        }
    }

    /// Finds the run that holds the logical index `idx`, and how many of the
    /// run's elements stand before `idx`.
    fn locate(&self, idx: usize) -> (found: Option<(usize, u8)>)
        ensures
            found is Some <==> idx < self@.len(),
            found matches Some((k, offset)) ==> {
                &&& k == run_at(self.data@, idx as int)
                &&& k < self.data.len()
                &&& offset < self.data@[k as int].1
                &&& idx == start_of(self.data@, k as int) + offset
            },
    {
        let mut rest: usize = idx;
        let mut i: usize = 0;
        proof {
            lemma_expand_len(self.data@);
            lemma_start_ends(self.data@);
        }
        while i < self.data.len()
            invariant
                0 <= i <= self.data@.len(),
                idx == start_of(self.data@, i as int) + rest,
                self@.len() == total(self.data@),
            decreases self.data@.len() - i,
        {
            let (_value, count) = self.data[i];
            proof {
                lemma_start_next(self.data@, i as int);
            }
            if rest < count as usize {
                proof {
                    lemma_run_at_unique(self.data@, i as int, idx as int);
                }
                return Some((i, rest as u8));
            }
            rest -= count as usize;
            i += 1;
        }
        proof {
            lemma_start_ends(self.data@);
        }
        None
    }

    /// Puts `value` before the element at the logical index `idx`; that
    /// element and all behind it move one place on.
    ///
    /// Where the run that holds `idx` has another value, it is cut in two
    /// around the new element. A run that is met at its first element stays
    /// whole, behind the new one, whatever its count: nothing is dropped.
    /// Neighbouring runs of one value are not merged.
    pub fn insert(&mut self, value: T, idx: usize) -> (result: Result<(), &'static str>)
        requires
            old(self).wf(),
            obeys_concrete_eq::<T>(),
        ensures
            final(self).wf(),
            idx < old(self)@.len() ==> {
                &&& result is Ok
                &&& final(self).data@ == insert_runs(old(self).data@, value, idx as int)
                &&& final(self)@ == old(self)@.insert(idx as int, value)
            },
            idx >= old(self)@.len() ==> {
                &&& result == Err::<(), &'static str>(OUT_OF_RANGE)
                &&& final(self).data@ == old(self).data@
            },
    {
        proof {
            reveal(obeys_concrete_eq);
            lemma_expand_len(self.data@);
        }
        match self.locate(idx) {
            Some((k, left)) => {
                proof {
                    lemma_insert_runs(self.data@, value, idx as int);
                }
                let (run_value, count) = self.data[k];
                if run_value == value {
                    if count == MAX_RUN {
                        self.data.insert(k + 1, (value, 1));
                    } else {
                        self.data[k].1 += 1;
                    }
                } else if left > 0 {
                    self.data[k].1 = left;
                    self.data.insert(k + 1, (run_value, count - left));
                    self.data.insert(k + 1, (value, 1));
                } else {
                    self.data.insert(k, (value, 1));
                }
                Ok(())
            },
            None => Err(OUT_OF_RANGE),
        }
    }

    /// Takes out the element at the logical index `idx`; all behind it move
    /// one place back. The run that held it shrinks, or leaves when it held
    /// nothing else. The runs on both sides are not merged.
    pub fn remove(&mut self, idx: usize) -> (result: Result<(), &'static str>)
        requires
            old(self).wf(),
        ensures
            final(self).wf(),
            idx < old(self)@.len() ==> {
                &&& result is Ok
                &&& final(self).data@ == remove_runs(old(self).data@, idx as int)
                &&& final(self)@ == old(self)@.remove(idx as int)
            },
            idx >= old(self)@.len() ==> {
                &&& result == Err::<(), &'static str>(OUT_OF_RANGE)
                &&& final(self).data@ == old(self).data@
            },
    {
        proof {
            lemma_expand_len(self.data@);
        }
        match self.locate(idx) {
            Some((k, _offset)) => {
                proof {
                    lemma_remove_runs(self.data@, idx as int);
                }
                let (_value, count) = self.data[k];
                if count > 1 {
                    self.data[k].1 -= 1;
                } else {
                    self.data.remove(k);
                }
                Ok(())
            },
            None => Err(OUT_OF_RANGE),
        }
    }

    /// Overwrites the element at the logical index `idx` with `value`. Every
    /// index below the length is accepted, the last one too.
    ///
    /// A run of one takes `value` in place. A longer run gives one element
    /// up, and `value` is inserted at `idx`, or pushed where `idx` was the
    /// last index.
    pub fn set(&mut self, value: T, idx: usize) -> (result: Result<(), &'static str>)
        requires
            old(self).wf(),
            obeys_concrete_eq::<T>(),
        ensures
            final(self).wf(),
            idx < old(self)@.len() ==> {
                &&& result is Ok
                &&& final(self).data@ == set_runs(old(self).data@, value, idx as int)
                &&& final(self)@ == old(self)@.update(idx as int, value)
            },
            idx >= old(self)@.len() ==> {
                &&& result == Err::<(), &'static str>(OUT_OF_RANGE)
                &&& final(self).data@ == old(self).data@
            },
    {
        proof {
            lemma_expand_len(self.data@);
        }
        match self.locate(idx) {
            Some((k, offset)) => {
                proof {
                    lemma_set_runs(self.data@, value, idx as int);
                    lemma_remove_runs(self.data@, idx as int);
                    lemma_last_index(self.data@, k as int, offset as int);
                }
                let (_value, count) = self.data[k];
                if count > 1 {
                    let at_end = k + 1 == self.data.len() && offset + 1 == count;
                    self.data[k].1 -= 1;
                    proof {
                        lemma_expand_len(self.data@);
                    }
                    if at_end {
                        self.push(value);
                        Ok(())
                    } else {
                        self.insert(value, idx)
                    }
                } else {
                    self.data[k] = (value, 1);
                    Ok(())
                }
            },
            None => Err(OUT_OF_RANGE),
        }
    }

    /// The element at the logical index `idx`, or the error for an index at
    /// or past the length. The scan stops at the first run whose end lies
    /// behind `idx`.
    pub fn get(&self, idx: usize) -> (result: Result<T, &'static str>)
        ensures
            result == self.spec_get(idx as int),
            idx < self@.len() ==> result == Ok::<T, &'static str>(self@[idx as int]),
            idx >= self@.len() ==> result == Err::<T, &'static str>(OUT_OF_RANGE),
    {
        match self.locate(idx) {
            Some((k, offset)) => {
                proof {
                    lemma_expand_index(self.data@, k as int, offset as int);
                }
                Ok(self.data[k].0)
            },
            None => Err(OUT_OF_RANGE),
        }
    }
}

impl<T> RLEArray<T> where T: PartialEq, T: Copy, T: std::fmt::Display {
    /// A line for diagnostics: for every run, in order, `[value-count]; `,
    /// with the value as it displays and the count in decimal.
    pub fn get_pretty_string(&self) -> (line: String)
        ensures
            exists|texts: Seq<String>|
                #[trigger] displayed(self.data@, texts) && line@ == line_text(self.data@, texts),
    {
        let mut result = String::new();
        let ghost mut texts: Seq<String> = Seq::empty();
        let mut i: usize = 0;
        while i < self.data.len()
            invariant
                0 <= i <= self.data@.len(),
                displayed(self.data@.take(i as int), texts),
                result@ == line_text(self.data@.take(i as int), texts),
            decreases self.data@.len() - i,
        {
            let (value, count) = self.data[i];
            let value_text = value.to_string();
            let piece = entry(value_text.as_str(), count);
            result.append(piece.as_str());
            proof {
                let grown = texts.push(value_text);
                assert(self.data@.take(i + 1).drop_last() =~= self.data@.take(i as int));
                assert(grown.drop_last() =~= texts);
                texts = grown;
            }
            i += 1;
        }
        proof {
            assert(self.data@.take(i as int) =~= self.data@);
        }
        result
    }
}

} // verus!
