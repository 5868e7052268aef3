//! The run-length encoded vector: its model, how it is made, and what can be
//! asked of it.

use crate::iter::{Iter, Runs};
use crate::model::{
    expand, extent, first_of, has_end, holds, increasing, lemma_expand, lemma_expand_at,
    lemma_owner_is, lemma_owner_unique, owner, InternalRun,
};
use vstd::prelude::*;

verus! {

/// A run as callers see it: a value and the number of times it is repeated.
#[derive(Debug, PartialEq, Eq)]
pub struct Run<T> {
    /// The length of this run.
    pub len: usize,
    /// The value of this run.
    pub value: T,
}

/// A vector stored as runs of equal values.
///
/// Its view is the sequence of its elements. How the elements are cut into
/// runs is told by [`RleVec::spec_ends`], the position of each run's last
/// element.
#[derive(Debug)]
pub struct RleVec<T> {
    pub(crate) runs: Vec<InternalRun<T>>,
}

/// Position `e` of `s` is the last of a stretch of equal values: `s` ends
/// there, or the next element differs.
pub open spec fn breaks_after<T>(s: Seq<T>, e: int) -> bool {
    0 <= e < s.len() && (e + 1 == s.len() || s[e] != s[e + 1])
}

/// Every clone of a `T` is equal to what it was cloned from.
pub open spec fn clone_is_exact<T: Clone>() -> bool {
    forall|a: T, b: T| #[trigger] cloned::<T>(a, b) ==> a == b
}

impl<T> View for RleVec<T> {
    type V = Seq<T>;

    open(crate) spec fn view(&self) -> Seq<T> {
        expand(self.runs@)
    }
}

impl<T: Clone> Clone for RleVec<T> {
    /// Returns a vector with a clone of each run's value. Where clones are
    /// exact, the copy has the same elements and the same runs.
    fn clone(&self) -> (copy: Self)
        ensures
            clone_is_exact::<T>() ==> copy@ == self@ && copy.spec_ends() == self.spec_ends() && (
            self.wf() ==> copy.wf()),
    {
        let count: usize = self.runs.len();
        let mut runs: Vec<InternalRun<T>> = Vec::with_capacity(count);
        let mut k: usize = 0;
        while k < count
            invariant
                count == self.runs@.len(),
                k <= count,
                runs@.len() == k,
                clone_is_exact::<T>() ==> forall|q: int| 0 <= q < k ==> runs@[q] == self.runs@[q],
            decreases count - k,
        {
            let value = self.runs[k].value.clone();
            assert(cloned::<T>(self.runs@[k as int].value, value));
            runs.push(InternalRun { end: self.runs[k].end, value });
            k += 1;
        }
        let copy = RleVec { runs };
        assert(clone_is_exact::<T>() ==> copy.runs@ =~= self.runs@);
        copy
    }
}

impl<T> RleVec<T> {
    /// The runs are in order and none is empty, and the number of elements
    /// fits in a `usize`.
    pub open(crate) spec fn wf(&self) -> bool {
        increasing(self.runs@) && extent(self.runs@) <= usize::MAX
    }

    /// The position of the last element of each run, in order.
    pub open(crate) spec fn spec_ends(&self) -> Seq<int> {
        Seq::new(self.runs@.len(), |k: int| self.runs@[k].end as int)
    }

    /// The position of the first element of run `k`.
    pub open spec fn spec_start(&self, k: int) -> int {
        if k <= 0 {
            0
        } else {
            self.spec_ends()[k - 1] + 1
        }
    }

    /// A run ends at position `e`.
    pub open spec fn is_run_end(&self, e: int) -> bool {
        self.spec_ends().contains(e)
    }

    /// A run ends only where the value changes or the sequence ends: no two
    /// neighbouring runs hold the same value.
    pub open spec fn minimal(&self) -> bool {
        forall|e: int| #[trigger] self.is_run_end(e) ==> breaks_after(self@, e)
    }

    /// What well-formedness means for the view and the run ends: the ends
    /// grow strictly and lie inside the sequence, the last run ends with the
    /// sequence, all elements of a run are equal, and a run ends wherever two
    /// neighbouring elements differ.
    pub proof fn lemma_structure(&self)
        requires
            self.wf(),
        ensures
            self@.len() <= usize::MAX,
            forall|a: int, b: int|
                0 <= a < b < self.spec_ends().len() ==> self.spec_ends()[a] < self.spec_ends()[b],
            forall|k: int|
                0 <= k < self.spec_ends().len() ==> 0 <= (#[trigger] self.spec_ends()[k])
                    < self@.len(),
            forall|k: int|
                0 <= k < self.spec_ends().len() ==> 0 <= (#[trigger] self.spec_start(k))
                    <= self.spec_ends()[k],
            self.spec_ends().len() == 0 <==> self@.len() == 0,
            self.spec_ends().len() > 0 ==> self.spec_ends().last() == self@.len() - 1,
            forall|k: int, j: int|
                0 <= k < self.spec_ends().len() && (#[trigger] self.spec_start(k)) <= j
                    <= self.spec_ends()[k] ==> #[trigger] self@[j] == self@[self.spec_ends()[k]],
            forall|e: int| breaks_after(self@, e) ==> #[trigger] self.is_run_end(e),
    {
        let runs = self.runs@;
        let ends = self.spec_ends();
        lemma_expand(runs);
        assert forall|a: int, b: int| 0 <= a < b < ends.len() implies ends[a] < ends[b] by {
            assert(runs[a].end < runs[b].end);
        }
        assert forall|k: int| 0 <= k < ends.len() implies 0 <= (#[trigger] ends[k])
            < self@.len() by {
            if k > 0 {
                assert(runs[k - 1].end < runs[k].end);
            }
            assert(holds(runs, k, ends[k]));
        }
        assert forall|k: int| 0 <= k < ends.len() implies 0 <= (#[trigger] self.spec_start(k))
            <= ends[k] by {
            if k > 0 {
                assert(runs[k - 1].end < runs[k].end);
            }
        }
        assert forall|k: int, j: int|
            0 <= k < ends.len() && (#[trigger] self.spec_start(k)) <= j
                <= ends[k] implies #[trigger] self@[j] == self@[ends[k]] by {
            if k > 0 {
                assert(runs[k - 1].end < runs[k].end);
            }
            assert(holds(runs, k, j));
            assert(holds(runs, k, ends[k]));
        }
        assert forall|e: int| breaks_after(self@, e) implies #[trigger] self.is_run_end(e) by {
            lemma_expand_at(runs, e);
            let k = owner(runs, e);
            if e < runs[k].end {
                assert(holds(runs, k, e + 1));
                assert(false);
            }
            assert(ends[k] == e);
        }
    }

    /// Inside the crate, a run end of the model is an end of a stored run.
    pub(crate) proof fn lemma_ends(&self)
        ensures
            forall|e: int| #[trigger] self.is_run_end(e) <==> has_end(self.runs@, e),
    {
        let ends = self.spec_ends();
        assert forall|e: int| #[trigger] self.is_run_end(e) <==> has_end(self.runs@, e) by {
            if self.is_run_end(e) {
                let k = choose|k: int| 0 <= k < ends.len() && ends[k] == e;
                assert(self.runs@[k].end == e);
            }
            if has_end(self.runs@, e) {
                let k = choose|k: int|
                    0 <= k < self.runs@.len() && (#[trigger] self.runs@[k]).end == e;
                assert(ends[k] == e);
            }
        }
    }

    /// Constructs a new empty `RleVec<T>`.
    pub fn new() -> (rle: RleVec<T>)
        ensures
            rle.wf(),
            rle@ == Seq::<T>::empty(),
            rle.spec_ends() == Seq::<int>::empty(),
    {
        let rle = RleVec { runs: Vec::new() };
        assert(rle@ =~= Seq::<T>::empty());
        assert(rle.spec_ends() =~= Seq::<int>::empty());
        rle
    }

    /// Constructs a new empty `RleVec<T>` with room for `capacity` runs.
    ///
    /// The capacity counts runs, not elements: how many are needed depends
    /// on how the data is composed.
    pub fn with_capacity(capacity: usize) -> (rle: RleVec<T>)
        ensures
            rle.wf(),
            rle@ == Seq::<T>::empty(),
            rle.spec_ends() == Seq::<int>::empty(),
    {
        let rle = RleVec { runs: Vec::with_capacity(capacity) };
        assert(rle@ =~= Seq::<T>::empty());
        assert(rle.spec_ends() =~= Seq::<int>::empty());
        rle
    }

    /// Returns the number of elements.
    pub fn len(&self) -> (n: usize)
        requires
            self.wf(),
        ensures
            n == self@.len(),
    {
        let count: usize = self.runs.len();
        if count == 0 {
            0
        } else {
            self.runs[count - 1].end + 1
        }
    }

    /// Returns `true` if there are no elements.
    pub fn is_empty(&self) -> (b: bool)
        ensures
            b <==> self@.len() == 0,
    {
        self.runs.is_empty()
    }

    /// Removes all elements.
    pub fn clear(&mut self)
        ensures
            final(self).wf(),
            final(self)@ == Seq::<T>::empty(),
            final(self).spec_ends() == Seq::<int>::empty(),
    {
        self.runs.clear();
        assert(self@ =~= Seq::<T>::empty());
        assert(self.spec_ends() =~= Seq::<int>::empty());
    }

    /// Returns the number of runs.
    pub fn runs_len(&self) -> (n: usize)
        ensures
            n == self.spec_ends().len(),
    {
        self.runs.len()
    }

    /// Returns the position of the first element of each run.
    pub fn starts(&self) -> (starts: Vec<usize>)
        requires
            self.wf(),
        ensures
            starts@.len() == self.spec_ends().len(),
            forall|k: int| 0 <= k < starts@.len() ==> #[trigger] starts@[k] == self.spec_start(k),
    {
        let count: usize = self.runs.len();
        let mut starts: Vec<usize> = Vec::new();
        let mut k: usize = 0;
        while k < count
            invariant
                self.wf(),
                count == self.runs@.len(),
                k <= count,
                starts@.len() == k,
                forall|q: int| 0 <= q < k ==> #[trigger] starts@[q] == self.spec_start(q),
            decreases count - k,
        {
            if k == 0 {
                starts.push(0);
            } else {
                assert(self.runs@[k - 1].end < self.runs@[k as int].end);
                starts.push(self.runs[k - 1].end + 1);
            }
            k += 1;
        }
        starts
    }

    /// Returns the position of the last element of each run.
    pub fn ends(&self) -> (ends: Vec<usize>)
        ensures
            ends@.len() == self.spec_ends().len(),
            forall|k: int| 0 <= k < ends@.len() ==> #[trigger] ends@[k] == self.spec_ends()[k],
    {
        let count: usize = self.runs.len();
        let mut ends: Vec<usize> = Vec::new();
        let mut k: usize = 0;
        while k < count
            invariant
                count == self.runs@.len(),
                k <= count,
                ends@.len() == k,
                forall|q: int| 0 <= q < k ==> #[trigger] ends@[q] == self.spec_ends()[q],
            decreases count - k,
        {
            ends.push(self.runs[k].end);
            k += 1;
        }
        ends
    }

    /// The runs as callers see them: the value and the length of each.
    pub open spec fn spec_runs(&self) -> Seq<Run<T>> {
        Seq::new(
            self.spec_ends().len(),
            |k: int|
                Run {
                    len: (self.spec_ends()[k] - self.spec_start(k) + 1) as usize,
                    value: self@[self.spec_ends()[k]],
                },
        )
    }

    /// Returns a cursor over the elements, standing at the first.
    pub fn iter(&self) -> (it: Iter<'_, T>)
        requires
            self.wf(),
        ensures
            it.wf(),
            it.source() == *self,
            it.position() == 0,
    {
        proof {
            lemma_owner_is(self.runs@, 0, 0);
        }
        Iter { rle: self, run_index: 0, index: 0 }
    }

    /// Returns a cursor over the runs, standing at the first.
    pub fn runs(&self) -> (it: Runs<'_, T>)
        requires
            self.wf(),
        ensures
            it.wf(),
            it.source() == *self,
            it.position() == 0,
    {
        Runs { rle: self, index: 0, last_end: 0 }
    }

    /// The index of the run that position `index` lies in, found by binary
    /// search for the first run that ends at or after `index`.
    pub(crate) fn run_index(&self, index: usize) -> (p: usize)
        requires
            self.wf(),
            index < self@.len(),
        ensures
            holds(self.runs@, p as int, index as int),
            p == owner(self.runs@, index as int),
    {
        let mut lo: usize = 0;
        let mut hi: usize = self.runs.len() - 1;
        while lo < hi
            invariant
                self.wf(),
                lo <= hi < self.runs@.len(),
                self.runs@[hi as int].end >= index,
                lo > 0 ==> self.runs@[lo - 1].end < index,
            decreases hi - lo,
        {
            let mid: usize = lo + (hi - lo) / 2;
            if self.runs[mid].end < index {
                lo = mid + 1;
            } else {
                hi = mid;
            }
        }
        proof {
            lemma_owner_unique(self.runs@, lo as int, index as int);
        }
        lo
    }

    /// The run that position `index` lies in: its index, and the positions of
    /// its first and last element.
    pub(crate) fn index_info(&self, index: usize) -> (info: (usize, usize, usize))
        requires
            self.wf(),
            index < self@.len(),
        ensures
            holds(self.runs@, info.0 as int, index as int),
            info.0 == owner(self.runs@, index as int),
            info.1 == first_of(self.runs@, info.0 as int),
            info.2 == self.runs@[info.0 as int].end,
    {
        let p: usize = self.run_index(index);
        if p == 0 {
            (0, 0, self.runs[0].end)
        } else {
            (p, self.runs[p - 1].end + 1, self.runs[p].end)
        }
    }

    /// Returns the element at position `index`.
    pub fn index(&self, index: usize) -> (value: &T)
        requires
            self.wf(),
            index < self@.len(),
        ensures
            *value == self@[index as int],
    {
        let p: usize = self.run_index(index);
        proof {
            lemma_expand(self.runs@);
        }
        &self.runs[p].value
    }
}

} // verus!
