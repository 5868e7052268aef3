//! Cursors over a vector: one that walks its elements, one that walks its runs.

use crate::model::{
    at, first_of, holds, lemma_expand, lemma_owner_counts, lemma_owner_holds, lemma_owner_is, owner,
};
use crate::table::{RleVec, Run};
use vstd::prelude::*;

verus! {

/// A cursor over the elements of a vector, from the first to the last.
///
/// It is made by [`RleVec::iter`]. It borrows the vector, which therefore
/// cannot change while the cursor lives.
pub struct Iter<'a, T> {
    pub(crate) rle: &'a RleVec<T>,
    pub(crate) run_index: usize,
    pub(crate) index: usize,
}

impl<'a, T> Iter<'a, T> {
    /// The vector that the cursor walks.
    pub open(crate) spec fn source(&self) -> RleVec<T> {
        *self.rle
    }

    /// The position of the element that comes next; the vector's length once
    /// the cursor is spent.
    pub open(crate) spec fn position(&self) -> int {
        self.index as int
    }

    /// The cursor stands inside its vector or at its end, and knows the run
    /// that it stands in.
    pub open(crate) spec fn wf(&self) -> bool {
        &&& self.rle.wf()
        &&& self.index <= self.rle@.len()
        &&& self.run_index == owner(self.rle.runs@, self.index as int)
    }

    /// The elements still to come.
    pub open spec fn remaining(&self) -> Seq<T> {
        self.source()@.skip(self.position())
    }

    /// The index of the run that the element which comes next lies in.
    pub(crate) open spec fn run(&self) -> usize {
        self.run_index
    }

    /// The run that the `j`-th of the elements still to come lies in.
    pub(crate) open spec fn run_of_remaining(&self, j: int) -> usize {
        owner(self.rle.runs@, self.index + j) as usize
    }

    /// Counted among the elements still to come, the place of the first
    /// element of run `k`.
    pub(crate) open spec fn first_in(&self, k: usize) -> int {
        if first_of(self.rle.runs@, k as int) < self.index {
            0
        } else {
            first_of(self.rle.runs@, k as int) - self.index
        }
    }

    /// Counted among the elements still to come, the place of the last
    /// element of run `k`.
    pub(crate) open spec fn last_in(&self, k: usize) -> int {
        self.rle.runs@[k as int].end - self.index
    }

    /// The elements still to come are those of the runs from the cursor's
    /// run on, run after run.
    pub(crate) proof fn lemma_remaining(&self)
        requires
            self.wf(),
        ensures
            self.remaining().len() == self.source()@.len() - self.position(),
            self.position() < self.source()@.len() ==> self.run() < self.rle.runs@.len(),
            forall|j: int|
                0 <= j < self.remaining().len() ==> self.run() <= #[trigger] self.run_of_remaining(
                    j,
                ) < self.rle.runs@.len() && self.remaining()[j] == at(
                    self.rle.runs@,
                    self.run_of_remaining(j),
                ).value && self.first_in(self.run_of_remaining(j)) <= j <= self.last_in(
                    self.run_of_remaining(j),
                ),
            forall|k: usize|
                self.run() <= k < self.rle.runs@.len() ==> 0 <= self.first_in(k) <= self.last_in(k)
                    < self.remaining().len() && self.remaining()[self.first_in(k)] == (
                #[trigger] at(self.rle.runs@, k)).value && self.remaining()[self.last_in(k)] == at(
                    self.rle.runs@,
                    k,
                ).value,
            forall|k: usize, m: usize|
                self.run() <= k < m < self.rle.runs@.len() ==> #[trigger] self.last_in(k)
                    < #[trigger] self.first_in(m),
    {
        let runs = self.rle.runs@;
        let pos = self.index as int;
        lemma_expand(runs);
        lemma_owner_counts(runs, pos);
        assert(self.rle.runs.len() == runs.len());
        if pos < self.rle@.len() {
            lemma_owner_holds(runs, pos);
        }
        assert forall|j: int| 0 <= j < self.remaining().len() implies self.run()
            <= #[trigger] self.run_of_remaining(j) < runs.len() && self.remaining()[j] == at(
            runs,
            self.run_of_remaining(j),
        ).value && self.first_in(self.run_of_remaining(j)) <= j <= self.last_in(
            self.run_of_remaining(j),
        ) by {
            lemma_owner_holds(runs, pos + j);
            let q = owner(runs, pos + j);
            lemma_owner_counts(runs, pos + j);
            if q < self.run_index {
                assert(runs[q].end < pos);
            }
        }
        assert forall|k: usize| self.run() <= k < runs.len() implies 0 <= self.first_in(k)
            <= self.last_in(k) < self.remaining().len() && self.remaining()[self.first_in(k)] == (
        #[trigger] at(runs, k)).value && self.remaining()[self.last_in(k)] == at(
            runs,
            k,
        ).value by {
            let e = runs[k as int].end as int;
            if self.run_index < k {
                assert(runs[self.run_index as int].end < runs[k as int].end);
                assert(runs[self.run_index as int].end <= runs[k - 1].end) by {
                    if self.run_index < k - 1 {
                        assert(runs[self.run_index as int].end < runs[k - 1].end);
                    }
                }
            }
            if k > 0 {
                assert(runs[k - 1].end < runs[k as int].end);
            }
            if k < runs.len() - 1 {
                assert(runs[k as int].end < runs[runs.len() - 1].end);
            }
            assert(holds(runs, k as int, e));
            assert(holds(runs, k as int, pos + self.first_in(k)));
            assert(self.remaining()[e - pos] == runs[k as int].value);
            assert(self.remaining()[self.first_in(k)] == runs[k as int].value);
        }
        assert forall|k: usize, m: usize| self.run() <= k < m < runs.len() implies #[trigger]
            self.last_in(k) < #[trigger] self.first_in(m) by {
            if k < m - 1 {
                assert(runs[k as int].end < runs[m - 1].end);
            }
            if self.run_index < k {
                assert(runs[self.run_index as int].end < runs[k as int].end);
            }
        }
    }

    /// Gives the next element and steps past it, or `None` at the end.
    pub fn next(&mut self) -> (item: Option<&'a T>)
        requires
            old(self).wf(),
        ensures
            final(self).wf(),
            final(self).source() == old(self).source(),
            old(self).position() < old(self).source()@.len() ==> item == Some(
                &old(self).source()@[old(self).position()],
            ) && final(self).position() == old(self).position() + 1,
            old(self).position() >= old(self).source()@.len() ==> item.is_none()
                && final(self).position() == old(self).position(),
    {
        if self.rle.is_empty() || self.index == self.rle.len() {
            return None;
        }
        proof {
            lemma_expand(self.rle.runs@);
            lemma_owner_holds(self.rle.runs@, self.index as int);
        }
        let value: &'a T = &self.rle.runs[self.run_index].value;
        self.index += 1;
        if self.index > self.rle.runs[self.run_index].end {
            assert(self.run_index < self.rle.runs.len());
            self.run_index += 1;
        }
        proof {
            let runs = self.rle.runs@;
            let at = self.run_index as int;
            if at > 0 && at < runs.len() {
                assert(runs[at - 1].end < runs[at].end);
            }
            lemma_owner_is(runs, at, self.index as int);
        }
        Some(value)
    }

    /// Steps over `n` elements, then gives the next one and steps past it;
    /// `None` if fewer than `n + 1` elements were left, and the cursor is
    /// then spent.
    ///
    /// The run of the element is found by binary search, not by stepping.
    pub fn nth(&mut self, n: usize) -> (item: Option<&'a T>)
        requires
            old(self).wf(),
        ensures
            final(self).wf(),
            final(self).source() == old(self).source(),
            old(self).position() + n < old(self).source()@.len() ==> item == Some(
                &old(self).source()@[old(self).position() + n],
            ) && final(self).position() == old(self).position() + n + 1,
            old(self).position() + n >= old(self).source()@.len() ==> item.is_none()
                && final(self).position() == old(self).source()@.len(),
    {
        let len: usize = self.rle.len();
        if n < len - self.index {
            self.index += n;
            self.run_index = self.rle.run_index(self.index);
        } else {
            self.index = len;
            self.run_index = self.rle.runs_len();
            proof {
                let runs = self.rle.runs@;
                lemma_owner_is(runs, runs.len() as int, len as int);
            }
        }
        self.next()
    }
}

impl<'a> Iter<'a, u8> {
    /// Copies the bytes still to come into `buf`, in their order, until
    /// `buf` is full or no byte is left, and steps past them. Returns the
    /// number of bytes copied: 0 once the cursor is spent.
    pub fn read(&mut self, buf: &mut [u8]) -> (count: usize)
        requires
            old(self).wf(),
        ensures
            final(self).wf(),
            final(self).source() == old(self).source(),
            final(self).position() == old(self).position() + count,
            count == (if old(buf)@.len() <= old(self).remaining().len() {
                old(buf)@.len()
            } else {
                old(self).remaining().len()
            }),
            final(buf)@ == old(self).remaining().take(count as int) + old(buf)@.skip(count as int),
    {
        let ghost rest = self.remaining();
        let ghost start = self.position();
        let mut count: usize = 0;
        let room: usize = buf.len();
        while count < room
            invariant
                self.wf(),
                self.source() == old(self).source(),
                rest == old(self).remaining(),
                start == old(self).position(),
                room == old(buf)@.len(),
                buf@.len() == room,
                count <= room,
                count <= rest.len(),
                self.position() == start + count,
                buf@ == rest.take(count as int) + old(buf)@.skip(count as int),
            ensures
                count == room || count == rest.len(),
            decreases room - count,
        {
            match self.next() {
                Some(byte) => {
                    buf[count] = *byte;
                    assert(buf@ =~= rest.take(count + 1) + old(buf)@.skip(count + 1));
                    count += 1;
                },
                None => {
                    break ;
                },
            }
        }
        count
    }
}

/// A cursor over the runs of a vector, from the first to the last.
///
/// It is made by [`RleVec::runs`]. It borrows the vector, which therefore
/// cannot change while the cursor lives.
pub struct Runs<'a, T> {
    pub(crate) rle: &'a RleVec<T>,
    pub(crate) index: usize,
    pub(crate) last_end: usize,
}

impl<'a, T> Runs<'a, T> {
    /// The vector that the cursor walks.
    pub open(crate) spec fn source(&self) -> RleVec<T> {
        *self.rle
    }

    /// The index of the run that comes next; the number of runs once the
    /// cursor is spent.
    pub open(crate) spec fn position(&self) -> int {
        self.index as int
    }

    /// The cursor stands at a run of its vector or behind the last one, and
    /// knows where that run begins.
    pub open(crate) spec fn wf(&self) -> bool {
        &&& self.rle.wf()
        &&& self.index <= self.rle.runs@.len()
        &&& self.last_end == first_of(self.rle.runs@, self.index as int)
    }

    /// Gives the next run, as its value and its length, and steps past it;
    /// `None` behind the last run.
    pub fn next(&mut self) -> (item: Option<Run<&'a T>>)
        requires
            old(self).wf(),
        ensures
            final(self).wf(),
            final(self).source() == old(self).source(),
            old(self).position() < old(self).source().spec_ends().len() ==> item.is_some()
                && item.unwrap().len == old(self).source().spec_runs()[old(self).position()].len
                && *item.unwrap().value
                == old(self).source().spec_runs()[old(self).position()].value
                && final(self).position() == old(self).position() + 1,
            old(self).position() >= old(self).source().spec_ends().len() ==> item.is_none()
                && final(self).position() == old(self).position(),
    {
        if self.index < self.rle.runs.len() {
            proof {
                let runs = self.rle.runs@;
                let at = self.index as int;
                if at > 0 {
                    assert(runs[at - 1].end < runs[at].end);
                }
                if at < runs.len() - 1 {
                    assert(runs[at].end < runs[runs.len() - 1].end);
                }
                lemma_expand(runs);
                assert(holds(runs, at, runs[at].end as int));
            }
            let end: usize = self.rle.runs[self.index].end;
            let value: &'a T = &self.rle.runs[self.index].value;
            let len: usize = end - self.last_end + 1;
            self.index += 1;
            self.last_end = end + 1;
            Some(Run { len, value })
        } else {
            None
        }
    }
}

} // verus!
