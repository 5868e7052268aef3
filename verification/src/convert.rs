//! From sequences and runs to the vector, and back.

use crate::table::{clone_is_exact, RleVec, Run};
use vstd::laws_eq::obeys_concrete_eq;
use vstd::prelude::*;

verus! {

/// The elements that a sequence of runs stands for: each value as often as
/// its run is long, run after run.
pub open spec fn flatten<T>(runs: Seq<Run<T>>) -> Seq<T>
    decreases runs.len(),
{
    if runs.len() == 0 {
        Seq::empty()
    } else {
        flatten(runs.drop_last()) + Seq::new(runs.last().len as nat, |i: int| runs.last().value)
    }
}

/// The more runs, the more elements.
pub proof fn lemma_flatten_grows<T>(runs: Seq<Run<T>>, k: int)
    requires
        0 <= k <= runs.len(),
    ensures
        flatten(runs.take(k)).len() <= flatten(runs).len(),
    decreases runs.len(),
{
    if k < runs.len() {
        lemma_flatten_grows(runs.drop_last(), k);
        assert(runs.drop_last().take(k) =~= runs.take(k));
    } else {
        assert(runs.take(k) =~= runs);
    }
}

impl<T: Eq> RleVec<T> {
    /// Constructs a vector from the elements of `values`, in their order.
    pub fn from_vec(values: Vec<T>) -> (rle: RleVec<T>)
        requires
            obeys_concrete_eq::<T>(),
        ensures
            rle.wf(),
            rle.minimal(),
            rle@ == values@,
    {
        let ghost all = values@;
        assert(values.len() == all.len());
        let mut rle: RleVec<T> = RleVec::new();
        assert(rle.minimal());
        for value in it: values
            invariant
                obeys_concrete_eq::<T>(),
                it.seq() == all,
                all.len() <= usize::MAX,
                rle.wf(),
                rle.minimal(),
                rle@ == all.take(it.index() as int),
        {
            assert(all.take(it.index() + 1) =~= all.take(it.index() as int).push(value));
            rle.push(value);
        }
        assert(all.take(all.len() as int) =~= all);
        rle
    }

    /// Constructs a vector from runs, in their order. Runs of length zero
    /// add nothing, and neighbouring runs of one value become one run.
    ///
    /// The number of elements must fit in a `usize`.
    pub fn from_runs(runs: Vec<Run<T>>) -> (rle: RleVec<T>)
        requires
            obeys_concrete_eq::<T>(),
            flatten(runs@).len() <= usize::MAX,
        ensures
            rle.wf(),
            rle.minimal(),
            rle@ == flatten(runs@),
    {
        let ghost all = runs@;
        let mut rle: RleVec<T> = RleVec::new();
        assert(rle.minimal());
        assert(all.take(0) =~= Seq::<Run<T>>::empty());
        for run in it: runs
            invariant
                obeys_concrete_eq::<T>(),
                it.seq() == all,
                flatten(all).len() <= usize::MAX,
                rle.wf(),
                rle.minimal(),
                rle@ == flatten(all.take(it.index() as int)),
        {
            proof {
                let k = it.index() as int;
                assert(all.take(k + 1).drop_last() =~= all.take(k));
                assert(all.take(k + 1).last() == run);
                lemma_flatten_grows(all, k + 1);
            }
            rle.push_n(run.len, run.value);
        }
        assert(all.take(all.len() as int) =~= all);
        rle
    }
}

impl<T: Eq + Clone> RleVec<T> {
    /// Constructs a vector from clones of the elements of `slice`, in their
    /// order.
    pub fn from_slice(slice: &[T]) -> (rle: RleVec<T>)
        requires
            obeys_concrete_eq::<T>(),
            clone_is_exact::<T>(),
        ensures
            rle.wf(),
            rle.minimal(),
            rle@ == slice@,
    {
        let mut rle: RleVec<T> = RleVec::new();
        assert(rle.minimal());
        let count: usize = slice.len();
        let mut k: usize = 0;
        while k < count
            invariant
                obeys_concrete_eq::<T>(),
                clone_is_exact::<T>(),
                count == slice@.len(),
                k <= count,
                rle.wf(),
                rle.minimal(),
                rle@ == slice@.take(k as int),
            decreases count - k,
        {
            let value = slice[k].clone();
            assert(cloned::<T>(slice@[k as int], value));
            assert(slice@.take(k + 1) =~= slice@.take(k as int).push(value));
            rle.push(value);
            k += 1;
        }
        assert(slice@.take(count as int) =~= slice@);
        rle
    }

    /// Returns clones of the elements, in their order: the cursor over the
    /// elements is run to its end.
    pub fn to_vec(&self) -> (values: Vec<T>)
        requires
            self.wf(),
            clone_is_exact::<T>(),
        ensures
            values@ == self@,
    {
        let mut values: Vec<T> = Vec::new();
        let mut it = self.iter();
        assert(self@.take(0) =~= Seq::<T>::empty());
        loop
            invariant_except_break
                clone_is_exact::<T>(),
                it.wf(),
                it.source() == *self,
                values@ == self@.take(it.position()),
            ensures
                values@ == self@,
            decreases self@.len() - it.position(),
        {
            let ghost at = it.position();
            match it.next() {
                Some(value) => {
                    let copy = value.clone();
                    assert(cloned::<T>(*value, copy));
                    assert(self@.take(at + 1) =~= self@.take(at).push(copy));
                    values.push(copy);
                },
                None => {
                    assert(self@.take(at) =~= self@);
                    break ;
                },
            }
        }
        values
    }
}

} // verus!
