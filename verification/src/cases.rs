//! The cases of each edit of the vector, one lemma per case: what the stored
//! runs stand for after the steps that the case takes.

use crate::model::{
    expand, extent, first_of, has_end, holds, increasing, lemma_neighbourhood, InternalRun,
};
use crate::steps::{
    lemma_insert, lemma_remove, lemma_shift_down, lemma_shift_up, lemma_update, shifted,
};
use crate::table::breaks_after;
use vstd::prelude::*;

verus! {

/// `after` stands for what `runs` stands for with position `i` replaced by
/// `value`; a run ends just before `i`, and at `i`, exactly where the value
/// changes or the sequence ends, and the other run ends are those of `runs`.
pub open spec fn replaced<T>(
    runs: Seq<InternalRun<T>>,
    after: Seq<InternalRun<T>>,
    i: int,
    value: T,
) -> bool {
    &&& increasing(after)
    &&& extent(after) == extent(runs)
    &&& expand(after) == expand(runs).update(i, value)
    &&& forall|e: int| #[trigger]
        has_end(after, e) <==> if e == i - 1 || e == i {
            breaks_after(expand(after), e)
        } else {
            has_end(runs, e)
        }
}

/// A run of one element whose new value is that of both neighbours: the
/// three runs become one.
pub proof fn lemma_set_join_both<T>(
    runs: Seq<InternalRun<T>>,
    r1: Seq<InternalRun<T>>,
    r2: Seq<InternalRun<T>>,
    after: Seq<InternalRun<T>>,
    p: int,
    i: int,
    value: T,
)
    requires
        increasing(runs),
        holds(runs, p, i),
        first_of(runs, p) == i == runs[p].end,
        0 < p < runs.len() - 1,
        runs[p - 1].value == value,
        runs[p + 1].value == value,
        r1 == runs.remove(p),
        r2 == r1.update(p - 1, InternalRun { end: runs[p].end, value: runs[p - 1].value }),
        after == r2.remove(p - 1),
    ensures
        replaced(runs, after, i, value),
{
    lemma_neighbourhood(runs, p, i);
    lemma_remove(runs, p);
    lemma_update(r1, p - 1, r2[p - 1]);
    lemma_remove(r2, p - 1);
    assert forall|j: int| 0 <= j < extent(runs) implies expand(after)[j] == expand(runs).update(
        i,
        value,
    )[j] by {
        if first_of(runs, p - 1) <= j < i {
            assert(holds(runs, p - 1, j));
        }
    }
    assert(expand(after) =~= expand(runs).update(i, value));
}

/// A run of one element whose new value is that of the run before it only:
/// that run takes the element.
pub proof fn lemma_set_join_before<T>(
    runs: Seq<InternalRun<T>>,
    r1: Seq<InternalRun<T>>,
    r2: Seq<InternalRun<T>>,
    after: Seq<InternalRun<T>>,
    p: int,
    i: int,
    value: T,
)
    requires
        increasing(runs),
        holds(runs, p, i),
        first_of(runs, p) == i == runs[p].end,
        0 < p,
        runs[p - 1].value == value,
        p < runs.len() - 1 ==> runs[p + 1].value != value,
        r1 == runs.remove(p),
        r2 == r1.update(p - 1, InternalRun { end: runs[p].end, value: runs[p - 1].value }),
        after == r2.update(p - 1, InternalRun { end: runs[p].end, value }),
    ensures
        replaced(runs, after, i, value),
{
    lemma_neighbourhood(runs, p, i);
    lemma_remove(runs, p);
    lemma_update(r1, p - 1, r2[p - 1]);
    assert(after =~= r2);
    assert forall|j: int| 0 <= j < extent(runs) implies expand(after)[j] == expand(runs).update(
        i,
        value,
    )[j] by {
        if first_of(runs, p - 1) <= j < i {
            assert(holds(runs, p - 1, j));
        }
    }
    assert(expand(after) =~= expand(runs).update(i, value));
}

/// A run of one element whose new value is that of the run after it only:
/// that run takes the element.
pub proof fn lemma_set_join_after<T>(
    runs: Seq<InternalRun<T>>,
    after: Seq<InternalRun<T>>,
    p: int,
    i: int,
    value: T,
)
    requires
        increasing(runs),
        holds(runs, p, i),
        first_of(runs, p) == i == runs[p].end,
        p > 0 ==> runs[p - 1].value != value,
        p < runs.len() - 1,
        runs[p + 1].value == value,
        after == runs.remove(p),
    ensures
        replaced(runs, after, i, value),
{
    lemma_neighbourhood(runs, p, i);
    lemma_remove(runs, p);
    assert(expand(after) =~= expand(runs).update(i, value));
}

/// A run of one element whose new value is that of neither neighbour: the
/// run keeps its place and takes the value.
pub proof fn lemma_set_overwrite<T>(
    runs: Seq<InternalRun<T>>,
    after: Seq<InternalRun<T>>,
    p: int,
    i: int,
    value: T,
)
    requires
        increasing(runs),
        holds(runs, p, i),
        first_of(runs, p) == i == runs[p].end,
        p > 0 ==> runs[p - 1].value != value,
        p < runs.len() - 1 ==> runs[p + 1].value != value,
        after == runs.update(p, InternalRun { end: runs[p].end, value }),
    ensures
        replaced(runs, after, i, value),
{
    lemma_neighbourhood(runs, p, i);
    lemma_update(runs, p, after[p]);
    assert(expand(after) =~= expand(runs).update(i, value));
}

/// The first element of a longer run, with the value of the run before it:
/// that run grows by the element.
pub proof fn lemma_set_first_joins<T>(
    runs: Seq<InternalRun<T>>,
    after: Seq<InternalRun<T>>,
    p: int,
    i: int,
    value: T,
)
    requires
        increasing(runs),
        holds(runs, p, i),
        first_of(runs, p) == i < runs[p].end,
        runs[p].value != value,
        p > 0,
        runs[p - 1].value == value,
        after == runs.update(p - 1, InternalRun { end: i as usize, value: runs[p - 1].value }),
    ensures
        replaced(runs, after, i, value),
{
    lemma_neighbourhood(runs, p, i);
    lemma_update(runs, p - 1, after[p - 1]);
    assert forall|j: int| 0 <= j < extent(runs) implies expand(after)[j] == expand(runs).update(
        i,
        value,
    )[j] by {
        if first_of(runs, p - 1) <= j < i {
            assert(holds(runs, p - 1, j));
        }
    }
    assert(expand(after) =~= expand(runs).update(i, value));
}

/// The first element of a longer run, with a value that the run before it
/// does not have: the element becomes a run of its own.
pub proof fn lemma_set_first_splits<T>(
    runs: Seq<InternalRun<T>>,
    after: Seq<InternalRun<T>>,
    p: int,
    i: int,
    value: T,
)
    requires
        increasing(runs),
        holds(runs, p, i),
        first_of(runs, p) == i < runs[p].end,
        runs[p].value != value,
        p > 0 ==> runs[p - 1].value != value,
        after == runs.insert(p, InternalRun { end: i as usize, value }),
    ensures
        replaced(runs, after, i, value),
{
    lemma_neighbourhood(runs, p, i);
    lemma_insert(runs, p, after[p]);
    assert(expand(after) =~= expand(runs).update(i, value));
}

/// The last element of a longer run, with the value of the run after it:
/// the run gives the element up to that run.
pub proof fn lemma_set_last_joins<T>(
    runs: Seq<InternalRun<T>>,
    after: Seq<InternalRun<T>>,
    p: int,
    i: int,
    value: T,
)
    requires
        increasing(runs),
        holds(runs, p, i),
        first_of(runs, p) < i == runs[p].end,
        runs[p].value != value,
        p < runs.len() - 1,
        runs[p + 1].value == value,
        after == runs.update(p, InternalRun { end: (i - 1) as usize, value: runs[p].value }),
    ensures
        replaced(runs, after, i, value),
{
    lemma_neighbourhood(runs, p, i);
    lemma_update(runs, p, after[p]);
    assert(holds(runs, p, i - 1));
    assert(expand(after) =~= expand(runs).update(i, value));
}

/// The last element of a longer run, with a value that the run after it does
/// not have: the element becomes a run of its own.
pub proof fn lemma_set_last_splits<T>(
    runs: Seq<InternalRun<T>>,
    r1: Seq<InternalRun<T>>,
    after: Seq<InternalRun<T>>,
    p: int,
    i: int,
    value: T,
)
    requires
        increasing(runs),
        holds(runs, p, i),
        first_of(runs, p) < i == runs[p].end,
        runs[p].value != value,
        p < runs.len() - 1 ==> runs[p + 1].value != value,
        r1 == runs.update(p, InternalRun { end: (i - 1) as usize, value: runs[p].value }),
        after == r1.insert(p + 1, InternalRun { end: i as usize, value }),
    ensures
        replaced(runs, after, i, value),
{
    lemma_neighbourhood(runs, p, i);
    lemma_update(runs, p, r1[p]);
    lemma_insert(r1, p + 1, after[p + 1]);
    assert(holds(runs, p, i - 1));
    assert(expand(after) =~= expand(runs).update(i, value));
}

/// An element inside a longer run: the run is cut in three.
pub proof fn lemma_set_inside<T>(
    runs: Seq<InternalRun<T>>,
    r1: Seq<InternalRun<T>>,
    r2: Seq<InternalRun<T>>,
    after: Seq<InternalRun<T>>,
    p: int,
    i: int,
    value: T,
)
    requires
        increasing(runs),
        holds(runs, p, i),
        first_of(runs, p) < i < runs[p].end,
        runs[p].value != value,
        r1 == runs.update(p, InternalRun { end: (i - 1) as usize, value: runs[p].value }),
        r2 == r1.insert(p + 1, InternalRun { end: i as usize, value }),
        after == r2.insert(p + 2, InternalRun { end: runs[p].end, value: runs[p].value }),
    ensures
        replaced(runs, after, i, value),
{
    lemma_neighbourhood(runs, p, i);
    lemma_update(runs, p, r1[p]);
    lemma_insert(r1, p + 1, r2[p + 1]);
    lemma_insert(r2, p + 2, after[p + 2]);
    assert(holds(runs, p, i - 1));
    assert(holds(runs, p, i + 1));
    assert forall|j: int| 0 <= j < extent(runs) implies expand(after)[j] == expand(runs).update(
        i,
        value,
    )[j] by {
        if first_of(runs, p) <= j <= runs[p].end {
            assert(holds(runs, p, j));
        }
    }
    assert(expand(after) =~= expand(runs).update(i, value));
}

/// `after` stands for what `runs` stands for with `value` put in before
/// position `i`. The run ends before it stay and those after it move up by
/// one. At the new element a run ends exactly where the next element
/// differs. Just before it a run ends exactly where the new element differs
/// from the one before, except that an element put in front of its equal
/// leaves that place as it was.
pub open spec fn inserted<T>(
    runs: Seq<InternalRun<T>>,
    after: Seq<InternalRun<T>>,
    i: int,
    value: T,
) -> bool {
    &&& increasing(after)
    &&& extent(after) == extent(runs) + 1
    &&& expand(after) == expand(runs).insert(i, value)
    &&& forall|e: int| #[trigger]
        has_end(after, e) <==> if e < i - 1 {
            has_end(runs, e)
        } else if e > i {
            has_end(runs, e - 1)
        } else if e == i - 1 && i < extent(runs) && expand(runs)[i] == value {
            has_end(runs, e)
        } else {
            breaks_after(expand(after), e)
        }
}

/// The new element has the value of the run that it is put into: the run
/// grows by one.
pub proof fn lemma_insert_absorbed<T>(
    runs: Seq<InternalRun<T>>,
    after: Seq<InternalRun<T>>,
    p: int,
    i: int,
    value: T,
)
    requires
        increasing(runs),
        holds(runs, p, i),
        runs[p].value == value,
        shifted(runs, after, p, 1),
    ensures
        inserted(runs, after, i, value),
{
    lemma_neighbourhood(runs, p, i);
    lemma_shift_up(runs, after, p);
    assert forall|j: int| 0 <= j < extent(after) implies expand(after)[j] == expand(runs).insert(
        i,
        value,
    )[j] by {
        if i <= j <= runs[p].end + 1 {
            if j <= runs[p].end {
                assert(holds(runs, p, j));
            }
            if j > i {
                assert(holds(runs, p, j - 1));
            }
        }
    }
    assert(expand(after) =~= expand(runs).insert(i, value));
}

/// The new element has another value than the run that it is put into: once
/// the run has grown by one, the element is replaced as `set` does it.
pub proof fn lemma_insert_split<T>(
    runs: Seq<InternalRun<T>>,
    grown: Seq<InternalRun<T>>,
    after: Seq<InternalRun<T>>,
    p: int,
    i: int,
    value: T,
)
    requires
        increasing(runs),
        holds(runs, p, i),
        runs[p].value != value,
        shifted(runs, grown, p, 1),
        replaced(grown, after, i, value),
    ensures
        inserted(runs, after, i, value),
{
    lemma_insert_absorbed(runs, grown, p, i, runs[p].value);
    lemma_neighbourhood(runs, p, i);
    assert(expand(after) =~= expand(runs).insert(i, value));
}

/// Taking the element at `i` away joins the runs on its two sides: it stood
/// alone between two runs of one value, and more than three runs were there.
pub open spec fn joins<T>(runs: Seq<InternalRun<T>>, i: int) -> bool {
    &&& has_end(runs, i - 1)
    &&& has_end(runs, i)
    &&& i + 1 < extent(runs)
    &&& expand(runs)[i - 1] == expand(runs)[i + 1]
    &&& runs.len() > 3
}

/// `after` stands for what `runs` stands for without position `i`. The run
/// ends before it stay and those after it move down by one. Just before it a
/// run ends if one ended there or at `i`, unless the runs on the two sides
/// were joined.
pub open spec fn removed<T>(runs: Seq<InternalRun<T>>, after: Seq<InternalRun<T>>, i: int) -> bool {
    &&& increasing(after)
    &&& extent(after) == extent(runs) - 1
    &&& expand(after) == expand(runs).remove(i)
    &&& forall|e: int| #[trigger]
        has_end(after, e) <==> if e < i - 1 {
            has_end(runs, e)
        } else if e >= i {
            has_end(runs, e + 1)
        } else {
            i > 0 && (has_end(runs, i - 1) || has_end(runs, i)) && !joins(runs, i)
        }
}

/// An element of a longer run: the run shrinks by one.
pub proof fn lemma_remove_shrinks<T>(
    runs: Seq<InternalRun<T>>,
    after: Seq<InternalRun<T>>,
    p: int,
    i: int,
)
    requires
        increasing(runs),
        holds(runs, p, i),
        first_of(runs, p) < runs[p].end,
        shifted(runs, after, p, -1),
    ensures
        removed(runs, after, i),
{
    lemma_neighbourhood(runs, p, i);
    lemma_shift_down(runs, after, p);
    assert forall|j: int| 0 <= j < extent(after) implies expand(after)[j] == expand(runs).remove(
        i,
    )[j] by {
        if i <= j < runs[p].end {
            assert(holds(runs, p, j));
            assert(holds(runs, p, j + 1));
        }
    }
    assert(expand(after) =~= expand(runs).remove(i));
}

/// A run of one element goes, and the runs on its two sides stay apart.
pub proof fn lemma_remove_single<T>(
    runs: Seq<InternalRun<T>>,
    r1: Seq<InternalRun<T>>,
    after: Seq<InternalRun<T>>,
    p: int,
    i: int,
)
    requires
        increasing(runs),
        holds(runs, p, i),
        first_of(runs, p) == i == runs[p].end,
        r1 == runs.remove(p),
        p < r1.len() ==> shifted(r1, after, p, -1),
        p == r1.len() ==> after == r1,
        !(0 < p < runs.len() - 1 && runs.len() > 3 && runs[p - 1].value == runs[p + 1].value),
    ensures
        removed(runs, after, i),
{
    lemma_neighbourhood(runs, p, i);
    lemma_remove(runs, p);
    if p < r1.len() {
        assert(r1[p] == runs[p + 1]);
        lemma_shift_down(r1, after, p);
        assert forall|j: int| 0 <= j < extent(after) implies expand(after)[j] == expand(
            runs,
        ).remove(i)[j] by {
            if i <= j < runs[p + 1].end {
                assert(holds(runs, p + 1, j + 1));
            }
        }
    }
    assert(expand(after) =~= expand(runs).remove(i));
}

/// A run of one element goes, and the runs on its two sides, which hold the
/// same value, become one.
pub proof fn lemma_remove_joined<T>(
    runs: Seq<InternalRun<T>>,
    r1: Seq<InternalRun<T>>,
    r2: Seq<InternalRun<T>>,
    after: Seq<InternalRun<T>>,
    p: int,
    i: int,
)
    requires
        increasing(runs),
        holds(runs, p, i),
        first_of(runs, p) == i == runs[p].end,
        0 < p < runs.len() - 1,
        runs.len() > 3,
        runs[p - 1].value == runs[p + 1].value,
        r1 == runs.remove(p),
        shifted(r1, r2, p, -1),
        after == r2.remove(p - 1),
    ensures
        removed(runs, after, i),
{
    lemma_neighbourhood(runs, p, i);
    lemma_remove(runs, p);
    assert(r1[p] == runs[p + 1]);
    assert(r1[p - 1] == runs[p - 1]);
    lemma_shift_down(r1, r2, p);
    lemma_remove(r2, p - 1);
    assert forall|j: int| 0 <= j < extent(after) implies expand(after)[j] == expand(runs).remove(
        i,
    )[j] by {
        if i <= j < runs[p + 1].end {
            assert(holds(runs, p + 1, j + 1));
        }
        if first_of(runs, p - 1) <= j < i {
            assert(holds(runs, p - 1, j));
        }
    }
    assert(expand(after) =~= expand(runs).remove(i));
}

} // verus!
