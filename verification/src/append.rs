//! Appending to the vector.

use crate::model::{lemma_expand, lemma_neighbourhood, InternalRun};
use crate::steps::{lemma_insert, lemma_update};
use crate::table::{breaks_after, RleVec};
use vstd::laws_eq::obeys_concrete_eq;
use vstd::prelude::*;

verus! {

impl<T> RleVec<T> {
    /// `after` is `self` with `n` copies of `value` appended: the runs before
    /// the last one stay, and from the old last element on a run ends
    /// exactly where the value changes or the sequence ends.
    pub open spec fn push_n_yields(&self, n: nat, value: T, after: Self) -> bool {
        &&& after@ == self@ + Seq::new(n, |i: int| value)
        &&& forall|e: int| #[trigger]
            after.is_run_end(e) <==> if e < self@.len() - 1 {
                self.is_run_end(e)
            } else {
                breaks_after(after@, e)
            }
    }

    /// Appending keeps a minimal vector minimal.
    pub proof fn lemma_push_n_minimal(&self, n: nat, value: T, after: Self)
        requires
            self.wf(),
            self.minimal(),
            self.push_n_yields(n, value, after),
        ensures
            after.minimal(),
    {
        assert forall|e: int| #[trigger] after.is_run_end(e) implies breaks_after(after@, e) by {
            if e < self@.len() - 1 {
                assert(self.is_run_end(e));
                assert(breaks_after(self@, e));
                assert(after@[e] == self@[e]);
                assert(after@[e + 1] == self@[e + 1]);
            }
        }
    }
}

impl<T: Eq> RleVec<T> {
    /// Appends an element to the back.
    ///
    /// The number of elements must stay within `usize`.
    pub fn push(&mut self, value: T)
        requires
            old(self).wf(),
            obeys_concrete_eq::<T>(),
            old(self)@.len() < usize::MAX,
        ensures
            final(self).wf(),
            final(self)@ == old(self)@.push(value),
            old(self).push_n_yields(1, value, *final(self)),
            old(self).minimal() ==> final(self).minimal(),
    {
        self.push_n(1, value);
        assert(self@ =~= old(self)@.push(value));
    }

    /// Appends the same element `n` times to the back; with `n == 0` nothing
    /// changes.
    ///
    /// The number of elements must stay within `usize`.
    pub fn push_n(&mut self, n: usize, value: T)
        requires
            old(self).wf(),
            obeys_concrete_eq::<T>(),
            old(self)@.len() + n <= usize::MAX,
        ensures
            final(self).wf(),
            old(self).push_n_yields(n as nat, value, *final(self)),
            old(self).minimal() ==> final(self).minimal(),
    {
        let ghost before = *self;
        let ghost target = before@ + Seq::new(n as nat, |i: int| value);
        proof {
            reveal(obeys_concrete_eq);
            before.lemma_structure();
            before.lemma_ends();
            lemma_expand(before.runs@);
        }
        if n == 0 {
            assert(self@ =~= target);
            return ;
        }
        let count: usize = self.runs.len();
        if count > 0 {
            proof {
                lemma_neighbourhood(before.runs@, count - 1, before.runs@[count - 1].end as int);
            }
            if self.runs[count - 1].value == value {
                self.runs[count - 1].end += n;
                proof {
                    lemma_update(before.runs@, count - 1, self.runs@[count - 1]);
                    assert(self.runs@ =~= before.runs@.update(count - 1, self.runs@[count - 1]));
                }
            } else {
                let end: usize = self.runs[count - 1].end + n;
                self.runs.push(InternalRun { value, end });
                proof {
                    let last = self.runs@[count as int];
                    lemma_insert(before.runs@, count as int, last);
                    assert(self.runs@ =~= before.runs@.insert(count as int, last));
                }
            }
        } else {
            self.runs.push(InternalRun { value, end: n - 1 });
            proof {
                lemma_insert(before.runs@, 0, self.runs@[0]);
                assert(self.runs@ =~= before.runs@.insert(0, self.runs@[0]));
            }
        }
        proof {
            self.lemma_ends();
            assert(self@ =~= target);
            assert forall|e: int| #[trigger]
                self.is_run_end(e) <==> if e < before@.len() - 1 {
                    before.is_run_end(e)
                } else {
                    breaks_after(self@, e)
                } by {
                if e >= before@.len() - 1 && e + 1 < self@.len() {
                    assert(self@[e + 1] == value);
                }
            }
            if before.minimal() {
                before.lemma_push_n_minimal(n as nat, value, *self);
            }
        }
    }
}

} // verus!
