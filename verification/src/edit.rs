//! Editing the vector in place: replacing, inserting and removing one
//! element.

use crate::cases::{
    inserted, joins, lemma_insert_absorbed, lemma_insert_split, lemma_remove_joined,
    lemma_remove_shrinks, lemma_remove_single, lemma_set_first_joins, lemma_set_first_splits,
    lemma_set_inside, lemma_set_join_after, lemma_set_join_before, lemma_set_join_both,
    lemma_set_last_joins, lemma_set_last_splits, lemma_set_overwrite, removed, replaced,
};
use crate::model::{extent, first_of, holds, increasing, lemma_neighbourhood, InternalRun};
use crate::steps::shifted;
use crate::table::{breaks_after, clone_is_exact, RleVec};
use vstd::laws_eq::obeys_concrete_eq;
use vstd::prelude::*;

verus! {

impl<T> RleVec<T> {
    /// `after` is `self` with the element at `index` replaced by `value`.
    /// Where the element already was `value` the runs stay as they are;
    /// otherwise a run ends just before `index`, and at `index`, exactly
    /// where the new value differs from its neighbour or the sequence ends,
    /// and all other run ends stay.
    pub open spec fn set_yields(&self, index: int, value: T, after: Self) -> bool {
        &&& after@ == self@.update(index, value)
        &&& self@[index] == value ==> after.spec_ends() == self.spec_ends()
        &&& self@[index] != value ==> forall|e: int| #[trigger]
            after.is_run_end(e) <==> if e == index - 1 || e == index {
                breaks_after(after@, e)
            } else {
                self.is_run_end(e)
            }
    }

    /// Replacing an element keeps a minimal vector minimal.
    pub proof fn lemma_set_minimal(&self, index: int, value: T, after: Self)
        requires
            self.wf(),
            self.minimal(),
            0 <= index < self@.len(),
            self.set_yields(index, value, after),
        ensures
            after.minimal(),
    {
        if self@[index] == value {
            assert(after@ =~= self@);
            assert forall|e: int| #[trigger] after.is_run_end(e) implies breaks_after(
                after@,
                e,
            ) by {
                assert(self.is_run_end(e));
            }
        } else {
            assert forall|e: int| #[trigger] after.is_run_end(e) implies breaks_after(
                after@,
                e,
            ) by {
                if e != index - 1 && e != index {
                    assert(self.is_run_end(e));
                    assert(breaks_after(self@, e));
                }
            }
        }
    }
}

impl<T> RleVec<T> {
    /// From the stored runs to the model, for an element that was replaced.
    pub(crate) proof fn lemma_set_done(&self, index: int, value: T, after: Self)
        requires
            self.wf(),
            0 <= index < self@.len(),
            self@[index] != value,
            replaced(self.runs@, after.runs@, index, value),
        ensures
            after.wf(),
            self.set_yields(index, value, after),
            self.minimal() ==> after.minimal(),
    {
        self.lemma_ends();
        after.lemma_ends();
        if self.minimal() {
            self.lemma_set_minimal(index, value, after);
        }
    }
}

impl<T: Eq + Clone> RleVec<T> {
    /// Replaces the element at position `index` by `value`.
    ///
    /// Where this breaks a run in two or three, or joins the element to a
    /// neighbouring run, the runs after it are moved; where the value is the
    /// one already there, nothing is touched.
    pub fn set(&mut self, index: usize, value: T)
        requires
            old(self).wf(),
            index < old(self)@.len(),
            obeys_concrete_eq::<T>(),
            clone_is_exact::<T>(),
        ensures
            final(self).wf(),
            old(self).set_yields(index as int, value, *final(self)),
            old(self).minimal() ==> final(self).minimal(),
    {
        let ghost before = *self;
        let ghost r0 = before.runs@;
        let ghost i = index as int;
        let info: (usize, usize, usize) = self.index_info(index);
        let mut p: usize = info.0;
        let start: usize = info.1;
        let end: usize = info.2;
        proof {
            reveal(obeys_concrete_eq);
            lemma_neighbourhood(r0, p as int, i);
        }
        if self.runs[p].value == value {
            assert(self@ =~= before@.update(i, value));
            return ;
        }
        // a run of one element takes the new value, or joins the run before or after it

        if end - start == 0 {
            let ghost mut r1 = r0;
            let ghost mut r2 = r0;
            let ghost mut joined = false;
            if p > 0 && self.runs[p - 1].value == value {
                self.runs.remove(p);
                self.runs[p - 1].end += 1;
                p -= 1;
                proof {
                    joined = true;
                    r1 = r0.remove(p + 1);
                    r2 = self.runs@;
                    assert(r2 =~= r1.update(
                        p as int,
                        InternalRun { end: r0[p + 1].end, value: r0[p as int].value },
                    ));
                }
            }
            if p < self.runs.len() - 1 && self.runs[p + 1].value == value {
                self.runs.remove(p);
                proof {
                    if joined {
                        lemma_set_join_both(r0, r1, r2, self.runs@, p + 1, i, value);
                    } else {
                        lemma_set_join_after(r0, self.runs@, p as int, i, value);
                    }
                    before.lemma_set_done(i, value, *self);
                }
                return ;
            }
            self.runs[p].value = value;
            proof {
                if joined {
                    assert(self.runs@ =~= r2.update(
                        p as int,
                        InternalRun { end: r0[p + 1].end, value },
                    ));
                    lemma_set_join_before(r0, r1, r2, self.runs@, p + 1, i, value);
                } else {
                    assert(self.runs@ =~= r0.update(
                        p as int,
                        InternalRun { end: r0[p as int].end, value },
                    ));
                    lemma_set_overwrite(r0, self.runs@, p as int, i, value);
                }
                before.lemma_set_done(i, value, *self);
            }
            return ;
        }
        // a longer run is cut at the element, which may join the run before or after it

        if index == start {
            if p > 0 && self.runs[p - 1].value == value {
                self.runs[p - 1].end += 1;
                proof {
                    assert(self.runs@ =~= r0.update(
                        p - 1,
                        InternalRun { end: index, value: r0[p - 1].value },
                    ));
                    lemma_set_first_joins(r0, self.runs@, p as int, i, value);
                }
            } else {
                self.runs.insert(p, InternalRun { value, end: start });
                proof {
                    lemma_set_first_splits(r0, self.runs@, p as int, i, value);
                }
            }
        } else if index == end {
            self.runs[p].end -= 1;
            let ghost r1 = self.runs@;
            assert(r1 =~= r0.update(
                p as int,
                InternalRun { end: (index - 1) as usize, value: r0[p as int].value },
            ));
            if p < self.runs.len() - 1 && self.runs[p + 1].value == value {
                proof {
                    lemma_set_last_joins(r0, self.runs@, p as int, i, value);
                }
            } else {
                self.runs.insert(p + 1, InternalRun { value, end });
                proof {
                    lemma_set_last_splits(r0, r1, self.runs@, p as int, i, value);
                }
            }
        } else {
            self.runs[p].end = index - 1;
            let ghost r1 = self.runs@;
            assert(r1 =~= r0.update(
                p as int,
                InternalRun { end: (index - 1) as usize, value: r0[p as int].value },
            ));
            let tail = self.runs[p].value.clone();
            assert(cloned::<T>(r1[p as int].value, tail));
            assert(p < self.runs.len());
            self.runs.insert(p + 1, InternalRun { value, end: index });
            let ghost r2 = self.runs@;
            assert(p + 1 < self.runs.len());
            self.runs.insert(p + 2, InternalRun { value: tail, end });
            proof {
                lemma_set_inside(r0, r1, r2, self.runs@, p as int, i, value);
            }
        }
        proof {
            before.lemma_set_done(i, value, *self);
        }
    }
}

impl<T> RleVec<T> {
    /// `after` is `self` with `value` put in before position `index`. The
    /// run ends before it stay and those after it move up by one. At the new
    /// element a run ends exactly where the next element differs or the
    /// sequence ends. Just before it a run ends exactly where the new
    /// element differs from the one before, except that an element put in
    /// front of its equal leaves that place as it was.
    pub open spec fn insert_yields(&self, index: int, value: T, after: Self) -> bool {
        &&& after@ == self@.insert(index, value)
        &&& forall|e: int| #[trigger]
            after.is_run_end(e) <==> if e < index - 1 {
                self.is_run_end(e)
            } else if e > index {
                self.is_run_end(e - 1)
            } else if e == index - 1 && index < self@.len() && self@[index] == value {
                self.is_run_end(e)
            } else {
                breaks_after(after@, e)
            }
    }

    /// Inserting keeps a minimal vector minimal.
    pub proof fn lemma_insert_minimal(&self, index: int, value: T, after: Self)
        requires
            self.wf(),
            self.minimal(),
            0 <= index <= self@.len(),
            self.insert_yields(index, value, after),
        ensures
            after.minimal(),
    {
        assert forall|e: int| #[trigger] after.is_run_end(e) implies breaks_after(after@, e) by {
            if e < index - 1 {
                assert(self.is_run_end(e));
                assert(breaks_after(self@, e));
            } else if e > index {
                assert(self.is_run_end(e - 1));
                assert(breaks_after(self@, e - 1));
            } else if e == index - 1 && index < self@.len() && self@[index] == value {
                assert(self.is_run_end(e));
                assert(breaks_after(self@, e));
            }
        }
    }

    /// From the stored runs to the model, for an element that was put in.
    pub(crate) proof fn lemma_insert_done(&self, index: int, value: T, after: Self)
        requires
            self.wf(),
            0 <= index < self@.len(),
            self@.len() < usize::MAX,
            inserted(self.runs@, after.runs@, index, value),
        ensures
            after.wf(),
            self.insert_yields(index, value, after),
            self.minimal() ==> after.minimal(),
    {
        self.lemma_ends();
        after.lemma_ends();
        if self.minimal() {
            self.lemma_insert_minimal(index, value, after);
        }
    }

    /// The element at `index` is a run by itself.
    pub open spec fn stands_alone(&self, index: int) -> bool {
        (index == 0 || self.is_run_end(index - 1)) && self.is_run_end(index)
    }

    /// Removing the element at `index` joins the runs on its two sides: it
    /// stands alone between two runs of one value, and there are more than
    /// three runs.
    pub open spec fn remove_joins(&self, index: int) -> bool {
        &&& self.stands_alone(index)
        &&& 0 < index < self@.len() - 1
        &&& self@[index - 1] == self@[index + 1]
        &&& self.spec_ends().len() > 3
    }

    /// Removing the element at `index` leaves two runs of one value side by
    /// side: it stands alone between them, and they are the only other runs.
    pub open spec fn remove_leaves_twins(&self, index: int) -> bool {
        &&& self.stands_alone(index)
        &&& 0 < index < self@.len() - 1
        &&& self@[index - 1] == self@[index + 1]
        &&& self.spec_ends().len() == 3
    }

    /// `after` is `self` without the element at `index`, which is `taken`.
    /// The run ends before it stay and those after it move down by one. Just
    /// before it a run ends if one ended there or at `index`, unless the
    /// runs on its two sides were joined.
    pub open spec fn remove_yields(&self, index: int, after: Self, taken: T) -> bool {
        &&& taken == self@[index]
        &&& after@ == self@.remove(index)
        &&& forall|e: int| #[trigger]
            after.is_run_end(e) <==> if e < index - 1 {
                self.is_run_end(e)
            } else if e >= index {
                self.is_run_end(e + 1)
            } else {
                index > 0 && (self.is_run_end(index - 1) || self.is_run_end(index))
                    && !self.remove_joins(index)
            }
    }

    /// Removing keeps a minimal vector minimal, unless it leaves twins.
    pub proof fn lemma_remove_minimal(&self, index: int, after: Self, taken: T)
        requires
            self.wf(),
            self.minimal(),
            0 <= index < self@.len(),
            self.remove_yields(index, after, taken),
            !self.remove_leaves_twins(index),
        ensures
            after.minimal(),
    {
        assert forall|e: int| #[trigger] after.is_run_end(e) implies breaks_after(after@, e) by {
            if e < index - 1 {
                assert(self.is_run_end(e));
                assert(breaks_after(self@, e));
            } else if e >= index {
                assert(self.is_run_end(e + 1));
                assert(breaks_after(self@, e + 1));
            } else {
                if index + 1 < self@.len() && self@[index - 1] == self@[index + 1] {
                    if !self.is_run_end(index) {
                        assert(!breaks_after(self@, index)) by {
                            self.lemma_structure();
                        }
                        assert(breaks_after(self@, index - 1));
                    } else if !self.is_run_end(index - 1) {
                        assert(!breaks_after(self@, index - 1)) by {
                            self.lemma_structure();
                        }
                        assert(breaks_after(self@, index));
                    } else {
                        self.lemma_three_runs(index);
                    }
                }
            }
        }
    }

    /// Removing an element that leaves twins leaves a vector that is not
    /// minimal: its two runs hold the same value.
    pub proof fn lemma_remove_twins(&self, index: int, after: Self, taken: T)
        requires
            self.wf(),
            0 <= index < self@.len(),
            self.remove_yields(index, after, taken),
            self.remove_leaves_twins(index),
        ensures
            !after.minimal(),
            after.is_run_end(index - 1),
            after@[index - 1] == after@[index],
    {
        assert(after.is_run_end(index - 1));
        assert(after@[index - 1] == self@[index - 1]);
        assert(after@[index] == self@[index + 1]);
        assert(!breaks_after(after@, index - 1));
    }

    /// Where an element stands alone, with elements on both its sides, there
    /// are at least three runs.
    pub proof fn lemma_three_runs(&self, index: int)
        requires
            self.wf(),
            self.stands_alone(index),
            0 < index < self@.len() - 1,
        ensures
            self.spec_ends().len() >= 3,
    {
        self.lemma_structure();
        let ends = self.spec_ends();
        let a = choose|k: int| 0 <= k < ends.len() && ends[k] == index - 1;
        let b = choose|k: int| 0 <= k < ends.len() && ends[k] == index;
        assert(ends[ends.len() - 1] == self@.len() - 1);
    }

    /// From the stored runs to the model, for an element that was taken out.
    pub(crate) proof fn lemma_remove_done(&self, index: int, after: Self, taken: T)
        requires
            self.wf(),
            0 <= index < self@.len(),
            taken == self@[index],
            removed(self.runs@, after.runs@, index),
        ensures
            after.wf(),
            self.remove_yields(index, after, taken),
            self.minimal() && !self.remove_leaves_twins(index) ==> after.minimal(),
    {
        self.lemma_ends();
        after.lemma_ends();
        self.lemma_structure();
        assert(self.spec_ends().len() == self.runs@.len());
        assert(index > 0 ==> (joins(self.runs@, index) <==> self.remove_joins(index)));
        if self.minimal() && !self.remove_leaves_twins(index) {
            self.lemma_remove_minimal(index, after, taken);
        }
    }
}

impl<T: Eq + Clone> RleVec<T> {
    /// Removes and returns the element at position `index`; the elements
    /// after it move down by one.
    ///
    /// Where the element was a run by itself, the runs on its two sides are
    /// joined if they hold the same value and more than two runs are left.
    pub fn remove(&mut self, index: usize) -> (taken: T)
        requires
            old(self).wf(),
            index < old(self)@.len(),
            obeys_concrete_eq::<T>(),
            clone_is_exact::<T>(),
        ensures
            final(self).wf(),
            old(self).remove_yields(index as int, *final(self), taken),
            old(self).minimal() && !old(self).remove_leaves_twins(index as int)
                ==> final(self).minimal(),
    {
        let ghost before = *self;
        let ghost r0 = before.runs@;
        let ghost i = index as int;
        let info: (usize, usize, usize) = self.index_info(index);
        let p: usize = info.0;
        let start: usize = info.1;
        let end: usize = info.2;
        proof {
            reveal(obeys_concrete_eq);
            lemma_neighbourhood(r0, p as int, i);
        }
        let single: bool = end - start == 0;
        let taken: T = if single {
            self.runs.remove(p).value
        } else {
            let value = self.runs[p].value.clone();
            assert(cloned::<T>(r0[p as int].value, value));
            value
        };
        let ghost r1 = self.runs@;
        // the elements after the one that goes move down by one
        let count: usize = self.runs.len();
        let mut k: usize = p;
        while k < count
            invariant
                count == r1.len(),
                self.runs@.len() == count,
                p <= k <= count,
                increasing(r0),
                holds(r0, p as int, i),
                r1 == if single {
                    r0.remove(p as int)
                } else {
                    r0
                },
                single <==> first_of(r0, p as int) == r0[p as int].end,
                forall|q: int|
                    0 <= q < count ==> (#[trigger] self.runs@[q]).value == r1[q].value
                        && self.runs@[q].end == r1[q].end - if p <= q < k {
                        1int
                    } else {
                        0int
                    },
            decreases count - k,
        {
            assert(r1[k as int].end > 0) by {
                if single {
                    assert(r1[k as int] == r0[k + 1]);
                    assert(r0[p as int].end < r0[k + 1].end);
                } else {
                    if k > p {
                        assert(r0[p as int].end < r0[k as int].end);
                    }
                }
            }
            self.runs[k].end -= 1;
            k += 1;
        }
        let ghost r2 = self.runs@;
        assert(p < count ==> shifted(r1, r2, p as int, -1));
        assert(p == count ==> r2 =~= r1);
        if single {
            // the runs on the two sides of the one that went may have become one
            if p > 0 && p < self.runs.len() && self.runs.len() > 2 && self.runs[p - 1].value
                == self.runs[p].value {
                let after_end: usize = self.runs[p].end;
                self.runs[p - 1].end = after_end;
                self.runs.remove(p);
                proof {
                    assert(self.runs@ =~= r2.remove(p - 1));
                    lemma_remove_joined(r0, r1, r2, self.runs@, p as int, i);
                }
            } else {
                proof {
                    lemma_remove_single(r0, r1, r2, p as int, i);
                }
            }
        } else {
            proof {
                lemma_remove_shrinks(r0, r2, p as int, i);
            }
        }
        proof {
            before.lemma_remove_done(i, *self, taken);
        }
        taken
    }

    /// Puts `value` in at position `index`; the elements from there on move
    /// up by one.
    ///
    /// The number of elements must stay within `usize`.
    pub fn insert(&mut self, index: usize, value: T)
        requires
            old(self).wf(),
            index <= old(self)@.len(),
            old(self)@.len() < usize::MAX,
            obeys_concrete_eq::<T>(),
            clone_is_exact::<T>(),
        ensures
            final(self).wf(),
            old(self).insert_yields(index as int, value, *final(self)),
            old(self).minimal() ==> final(self).minimal(),
    {
        let ghost before = *self;
        let ghost r0 = before.runs@;
        let ghost i = index as int;
        if index == self.len() {
            self.push(value);
            proof {
                before.lemma_structure();
                assert(self@ =~= before@.insert(i, value));
            }
            return ;
        }
        let info: (usize, usize, usize) = self.index_info(index);
        let p: usize = info.0;
        let start: usize = info.1;
        let end: usize = info.2;
        proof {
            reveal(obeys_concrete_eq);
            lemma_neighbourhood(r0, p as int, i);
        }
        // the elements from the new one on move up by one
        let count: usize = self.runs.len();
        let mut k: usize = p;
        while k < count
            invariant
                count == r0.len(),
                self.runs@.len() == count,
                p <= k <= count,
                increasing(r0),
                extent(r0) < usize::MAX,
                forall|q: int|
                    0 <= q < count ==> (#[trigger] self.runs@[q]).value == r0[q].value
                        && self.runs@[q].end == r0[q].end + if p <= q < k {
                        1int
                    } else {
                        0int
                    },
            decreases count - k,
        {
            assert(r0[k as int].end < extent(r0)) by {
                if k < count - 1 {
                    assert(r0[k as int].end < r0[count - 1].end);
                }
            }
            self.runs[k].end += 1;
            k += 1;
        }
        let ghost grown = self.runs@;
        assert(shifted(r0, grown, p as int, 1));
        if self.runs[p].value == value {
            proof {
                lemma_insert_absorbed(r0, grown, p as int, i, value);
                before.lemma_insert_done(i, value, *self);
            }
            return ;
        }
        proof {
            lemma_insert_absorbed(r0, grown, p as int, i, r0[p as int].value);
        }
        // the new element cuts the run that it stands in, or joins the run before it

        if index == start {
            if p > 0 && self.runs[p - 1].value == value {
                self.runs[p - 1].end += 1;
                proof {
                    assert(self.runs@ =~= grown.update(
                        p - 1,
                        InternalRun { end: index, value: grown[p - 1].value },
                    ));
                    lemma_set_first_joins(grown, self.runs@, p as int, i, value);
                }
            } else {
                self.runs.insert(p, InternalRun { value, end: index });
                proof {
                    lemma_set_first_splits(grown, self.runs@, p as int, i, value);
                }
            }
        } else {
            self.runs[p].end = index - 1;
            let ghost r1 = self.runs@;
            assert(r1 =~= grown.update(
                p as int,
                InternalRun { end: (index - 1) as usize, value: grown[p as int].value },
            ));
            assert(p < self.runs.len());
            self.runs.insert(p + 1, InternalRun { value, end: index });
            let ghost r2 = self.runs@;
            assert(p + 1 < self.runs.len());
            let tail = self.runs[p].value.clone();
            assert(cloned::<T>(r1[p as int].value, tail));
            self.runs.insert(p + 2, InternalRun { value: tail, end: end + 1 });
            proof {
                lemma_set_inside(grown, r1, r2, self.runs@, p as int, i, value);
            }
        }
        proof {
            lemma_insert_split(r0, grown, self.runs@, p as int, i, value);
            before.lemma_insert_done(i, value, *self);
        }
    }
}

} // verus!
