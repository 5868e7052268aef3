//! What holds of the vector across its operations, stated over the model
//! that the operations' contracts use.

use crate::convert::flatten;
use crate::table::{breaks_after, RleVec};
use vstd::prelude::*;

verus! {

/// Two strictly growing sequences with the same members are the same
/// sequence.
pub proof fn lemma_same_members(a: Seq<int>, b: Seq<int>)
    requires
        forall|i: int, j: int| 0 <= i < j < a.len() ==> a[i] < a[j],
        forall|i: int, j: int| 0 <= i < j < b.len() ==> b[i] < b[j],
        forall|e: int| a.contains(e) <==> b.contains(e),
    ensures
        a == b,
    decreases a.len(),
{
    if a.len() == 0 {
        if b.len() > 0 {
            assert(b.contains(b[0]));
        }
        assert(a =~= b);
    } else {
        assert(a.contains(a.last()));
        let at_b = choose|k: int| 0 <= k < b.len() && b[k] == a.last();
        assert(b.contains(b.last()));
        let at_a = choose|k: int| 0 <= k < a.len() && a[k] == b.last();
        assert(a.last() == b.last());
        let a0 = a.drop_last();
        let b0 = b.drop_last();
        assert forall|e: int| a0.contains(e) <==> b0.contains(e) by {
            if a0.contains(e) {
                let k = choose|k: int| 0 <= k < a0.len() && a0[k] == e;
                assert(a[k] == e);
                assert(a.contains(e));
                let m = choose|m: int| 0 <= m < b.len() && b[m] == e;
                assert(b0[m] == e);
            }
            if b0.contains(e) {
                let k = choose|k: int| 0 <= k < b0.len() && b0[k] == e;
                assert(b[k] == e);
                assert(b.contains(e));
                let m = choose|m: int| 0 <= m < a.len() && a[m] == e;
                assert(a0[m] == e);
            }
        }
        lemma_same_members(a0, b0);
        assert(a =~= a0.push(a.last()));
        assert(b =~= b0.push(b.last()));
    }
}

/// In a minimal vector a run ends exactly where the value changes or the
/// sequence ends.
pub proof fn lemma_minimal_ends<T>(rle: RleVec<T>)
    requires
        rle.wf(),
        rle.minimal(),
    ensures
        forall|e: int| #[trigger] rle.is_run_end(e) <==> breaks_after(rle@, e),
{
    rle.lemma_structure();
}

/// A vector is minimal exactly if no two neighbouring runs hold the same
/// value.
pub proof fn lemma_minimal_neighbours<T>(rle: RleVec<T>)
    requires
        rle.wf(),
    ensures
        rle.minimal() <==> forall|k: int|
            0 < k < rle.spec_runs().len() ==> rle.spec_runs()[k - 1].value != (
            #[trigger] rle.spec_runs()[k]).value,
{
    rle.lemma_structure();
    let ends = rle.spec_ends();
    let runs = rle.spec_runs();
    if rle.minimal() {
        assert forall|k: int| 0 < k < runs.len() implies runs[k - 1].value != (
        #[trigger] runs[k]).value by {
            assert(ends[k - 1] < ends[k]);
            assert(rle.is_run_end(ends[k - 1]));
            assert(breaks_after(rle@, ends[k - 1]));
            assert(rle.spec_start(k) == ends[k - 1] + 1);
            assert(rle@[ends[k - 1] + 1] == rle@[ends[k]]);
        }
    }
    if forall|k: int| 0 < k < runs.len() ==> runs[k - 1].value != (#[trigger] runs[k]).value {
        assert forall|e: int| #[trigger] rle.is_run_end(e) implies breaks_after(rle@, e) by {
            let k = choose|k: int| 0 <= k < ends.len() && ends[k] == e;
            if k < ends.len() - 1 {
                assert(ends[k] < ends[k + 1]);
                assert(runs[k].value != runs[k + 1].value);
                assert(rle.spec_start(k + 1) == ends[k] + 1);
                assert(rle@[ends[k] + 1] == rle@[ends[k + 1]]);
            }
        }
    }
}

/// A sequence can be cut into runs minimally in one way only: two minimal
/// vectors with the same elements have the same runs.
pub proof fn lemma_minimal_unique<T>(a: RleVec<T>, b: RleVec<T>)
    requires
        a.wf(),
        b.wf(),
        a.minimal(),
        b.minimal(),
        a@ == b@,
    ensures
        a.spec_ends() == b.spec_ends(),
        a.spec_runs() == b.spec_runs(),
{
    a.lemma_structure();
    b.lemma_structure();
    assert forall|e: int| a.spec_ends().contains(e) <==> b.spec_ends().contains(e) by {
        assert(a.is_run_end(e) <==> breaks_after(a@, e));
        assert(b.is_run_end(e) <==> breaks_after(b@, e));
    }
    lemma_same_members(a.spec_ends(), b.spec_ends());
    assert(a.spec_runs() =~= b.spec_runs());
}

/// The number of stretches of equal neighbouring values that `s` falls into.
pub open spec fn count_stretches<T>(s: Seq<T>) -> nat
    decreases s.len(),
{
    if s.len() == 0 {
        0
    } else if s.len() == 1 {
        1
    } else if s[s.len() - 2] != s.last() {
        count_stretches(s.drop_last()) + 1
    } else {
        count_stretches(s.drop_last())
    }
}

/// A strictly growing sequence that holds exactly the places where a
/// stretch of `s` ends is as long as `s` has stretches.
pub proof fn lemma_count_stretches<T>(s: Seq<T>, ends: Seq<int>)
    requires
        forall|i: int, j: int| 0 <= i < j < ends.len() ==> ends[i] < ends[j],
        forall|e: int| ends.contains(e) <==> breaks_after(s, e),
    ensures
        ends.len() == count_stretches(s),
    decreases s.len(),
{
    let n = s.len() as int;
    if n == 0 {
        if ends.len() > 0 {
            assert(ends.contains(ends[0]));
        }
    } else {
        assert(breaks_after(s, n - 1));
        assert(ends.contains(n - 1));
        let at = choose|k: int| 0 <= k < ends.len() && ends[k] == n - 1;
        assert(ends.contains(ends.last()));
        assert(at == ends.len() - 1);
        let d = ends.drop_last();
        assert forall|e: int| d.contains(e) <==> breaks_after(s, e) && e != n - 1 by {
            if d.contains(e) {
                let k = choose|k: int| 0 <= k < d.len() && d[k] == e;
                assert(ends[k] == e);
                assert(ends.contains(e));
            }
            if breaks_after(s, e) && e != n - 1 {
                assert(ends.contains(e));
                let k = choose|k: int| 0 <= k < ends.len() && ends[k] == e;
                assert(d[k] == e);
            }
        }
        if n == 1 {
            if d.len() > 0 {
                assert(d.contains(d[0]));
            }
        } else {
            let s0 = s.drop_last();
            if s[n - 2] != s[n - 1] {
                assert forall|e: int| d.contains(e) <==> breaks_after(s0, e) by {}
                lemma_count_stretches(s0, d);
            } else {
                let d0 = d.push(n - 2);
                assert forall|i: int, j: int| 0 <= i < j < d0.len() implies d0[i] < d0[j] by {
                    if j == d.len() {
                        assert(d.contains(d[i]));
                    }
                }
                assert forall|e: int| d0.contains(e) <==> breaks_after(s0, e) by {
                    if d0.contains(e) {
                        let k = choose|k: int| 0 <= k < d0.len() && d0[k] == e;
                        if k < d.len() {
                            assert(d.contains(d[k]));
                        }
                    }
                    if breaks_after(s0, e) {
                        if e == n - 2 {
                            assert(d0[d.len() as int] == e);
                        } else {
                            assert(d.contains(e));
                            let k = choose|k: int| 0 <= k < d.len() && d[k] == e;
                            assert(d0[k] == e);
                        }
                    }
                }
                lemma_count_stretches(s0, d0);
            }
        }
    }
}

/// A minimal vector has as many runs as its elements have stretches of
/// equal neighbouring values.
pub proof fn lemma_minimal_run_count<T>(rle: RleVec<T>)
    requires
        rle.wf(),
        rle.minimal(),
    ensures
        rle.spec_ends().len() == count_stretches(rle@),
{
    rle.lemma_structure();
    assert forall|e: int| rle.spec_ends().contains(e) <==> breaks_after(rle@, e) by {
        assert(rle.is_run_end(e) <==> breaks_after(rle@, e));
    }
    lemma_count_stretches(rle@, rle.spec_ends());
}

/// The runs of a vector, flattened, are its elements.
pub proof fn lemma_flatten_runs<T>(rle: RleVec<T>)
    requires
        rle.wf(),
    ensures
        flatten(rle.spec_runs()) == rle@,
{
    rle.lemma_structure();
    let runs = rle.spec_runs();
    lemma_flatten_prefix(rle, runs.len() as int);
    assert(runs.take(runs.len() as int) =~= runs);
    assert(rle@.take(rle@.len() as int) =~= rle@);
}

/// The first `k` runs of a vector, flattened, are its elements up to the
/// start of run `k`.
pub proof fn lemma_flatten_prefix<T>(rle: RleVec<T>, k: int)
    requires
        rle.wf(),
        0 <= k <= rle.spec_runs().len(),
    ensures
        0 <= rle.spec_start(k) <= rle@.len(),
        flatten(rle.spec_runs().take(k)) == rle@.take(rle.spec_start(k)),
    decreases k,
{
    rle.lemma_structure();
    let runs = rle.spec_runs();
    let ends = rle.spec_ends();
    if k == 0 {
        assert(flatten(runs.take(0)) =~= rle@.take(0));
    } else {
        lemma_flatten_prefix(rle, k - 1);
        let part = runs.take(k);
        assert(part.drop_last() =~= runs.take(k - 1));
        assert(part.last() == runs[k - 1]);
        assert(0 <= rle.spec_start(k - 1) <= ends[k - 1]);
        assert forall|j: int| rle.spec_start(k - 1) <= j <= ends[k - 1] implies rle@[j]
            == runs[k - 1].value by {
            assert(rle@[j] == rle@[ends[k - 1]]);
        }
        assert(flatten(part) =~= rle@.take(rle.spec_start(k)));
    }
}

/// The number of elements follows the plain sequence: appending adds what
/// was appended, replacing keeps the number, inserting adds one and removing
/// takes one away.
pub proof fn lemma_lengths<T>(rle: RleVec<T>, after: RleVec<T>, i: int, n: nat, value: T, taken: T)
    ensures
        rle.push_n_yields(n, value, after) ==> after@.len() == rle@.len() + n,
        0 <= i < rle@.len() && rle.set_yields(i, value, after) ==> after@.len() == rle@.len(),
        0 <= i <= rle@.len() && rle.insert_yields(i, value, after) ==> after@.len() == rle@.len()
            + 1,
        0 <= i < rle@.len() && rle.remove_yields(i, after, taken) ==> after@.len() == rle@.len()
            - 1,
{
}

/// A vector built from a sequence gives the sequence back: `from_slice` or
/// `from_vec`, then `to_vec`.
pub proof fn lemma_round_trip<T>(values: Seq<T>, rle: RleVec<T>, back: Seq<T>)
    requires
        rle@ == values,
        back == rle@,
    ensures
        back == values,
{
}

/// A minimal vector rebuilt from its own runs is the same vector: the runs
/// that the cursor over runs gives, handed to `from_runs`.
pub proof fn lemma_runs_round_trip<T>(rle: RleVec<T>, rebuilt: RleVec<T>)
    requires
        rle.wf(),
        rle.minimal(),
        rebuilt.wf(),
        rebuilt.minimal(),
        rebuilt@ == flatten(rle.spec_runs()),
    ensures
        rebuilt@ == rle@,
        rebuilt.spec_ends() == rle.spec_ends(),
        rebuilt.spec_runs() == rle.spec_runs(),
{
    lemma_flatten_runs(rle);
    lemma_minimal_unique(rebuilt, rle);
}

/// A vector that is not minimal does not come back from its own runs:
/// `from_runs` joins the neighbouring runs of one value.
pub proof fn lemma_runs_round_trip_joins<T>(rle: RleVec<T>, rebuilt: RleVec<T>)
    requires
        rle.wf(),
        !rle.minimal(),
        rebuilt.wf(),
        rebuilt.minimal(),
        rebuilt@ == flatten(rle.spec_runs()),
    ensures
        rebuilt@ == rle@,
        rebuilt.spec_ends() != rle.spec_ends(),
{
    lemma_flatten_runs(rle);
    if rebuilt.spec_ends() == rle.spec_ends() {
        assert forall|e: int| #[trigger] rle.is_run_end(e) implies breaks_after(rle@, e) by {
            assert(rebuilt.is_run_end(e));
        }
    }
}

/// The element that `index` gives at a position is the one that `to_vec`
/// holds there.
pub proof fn lemma_index_agrees<T>(rle: RleVec<T>, i: int, item: T, values: Seq<T>)
    requires
        rle.wf(),
        0 <= i < rle@.len(),
        item == rle@[i],
        values == rle@,
    ensures
        item == values[i],
{
}

/// Setting an element to the value it has changes nothing: not the
/// elements, not their number, not the runs.
pub proof fn lemma_set_same<T>(rle: RleVec<T>, i: int, after: RleVec<T>)
    requires
        rle.wf(),
        0 <= i < rle@.len(),
        rle.set_yields(i, rle@[i], after),
    ensures
        after@ == rle@,
        after@.len() == rle@.len(),
        after.spec_ends() == rle.spec_ends(),
        after.spec_runs() == rle.spec_runs(),
{
    assert(after@ =~= rle@);
    assert(after.spec_runs() =~= rle.spec_runs());
}

/// The one case in which `remove` after `insert` does not restore the runs:
/// an element put inside a vector of a single run, with another value.
pub open spec fn insert_cuts_single_run<T>(rle: RleVec<T>, i: int, x: T) -> bool {
    rle.spec_ends().len() == 1 && 0 < i < rle@.len() && x != rle@[i]
}

/// Removing an element right after it was inserted gives the element back
/// and restores a minimal vector, its elements and its runs; all but where
/// the element was put inside a single run.
pub proof fn lemma_insert_remove<T>(
    rle: RleVec<T>,
    i: int,
    x: T,
    mid: RleVec<T>,
    after: RleVec<T>,
    taken: T,
)
    requires
        rle.wf(),
        rle.minimal(),
        0 <= i <= rle@.len(),
        mid.wf(),
        rle.insert_yields(i, x, mid),
        after.wf(),
        mid.remove_yields(i, after, taken),
        !insert_cuts_single_run(rle, i, x),
    ensures
        taken == x,
        after@ == rle@,
        after.spec_ends() == rle.spec_ends(),
        after.spec_runs() == rle.spec_runs(),
        after.minimal(),
{
    assert(after@ =~= rle@);
    rle.lemma_insert_minimal(i, x, mid);
    if mid.remove_leaves_twins(i) {
        lemma_twins_from_single_run(rle, i, x, mid);
    }
    mid.lemma_remove_minimal(i, after, taken);
    lemma_minimal_unique(after, rle);
}

/// Where removing the element just inserted would leave twins, the vector
/// had a single run and the element was put inside it.
pub proof fn lemma_twins_from_single_run<T>(rle: RleVec<T>, i: int, x: T, mid: RleVec<T>)
    requires
        rle.wf(),
        rle.minimal(),
        0 <= i <= rle@.len(),
        mid.wf(),
        mid.minimal(),
        rle.insert_yields(i, x, mid),
        mid.remove_leaves_twins(i),
    ensures
        insert_cuts_single_run(rle, i, x),
{
    rle.lemma_structure();
    mid.lemma_structure();
    let ends = rle.spec_ends();
    let mends = mid.spec_ends();
    let k1 = choose|k: int| 0 <= k < mends.len() && mends[k] == i - 1;
    let k2 = choose|k: int| 0 <= k < mends.len() && mends[k] == i;
    assert(mends[2] == mid@.len() - 1);
    assert(mends[0] < mends[1] < mends[2]);
    assert(k1 == 0 && k2 == 1);
    assert(mid.is_run_end(i - 1) && breaks_after(mid@, i - 1));
    assert(mid.is_run_end(i) && breaks_after(mid@, i));
    assert(mid@[i - 1] == rle@[i - 1]);
    assert(mid@[i + 1] == rle@[i]);
    assert(mid@[i] == x);
    assert forall|e: int| rle.is_run_end(e) implies e == rle@.len() - 1 by {
        if e < i - 1 {
            assert(mid.is_run_end(e));
            let k = choose|k: int| 0 <= k < mends.len() && mends[k] == e;
        } else if e == i - 1 {
            assert(breaks_after(rle@, e));
        } else {
            assert(mid.is_run_end(e + 1));
            let k = choose|k: int| 0 <= k < mends.len() && mends[k] == e + 1;
        }
    }
    if ends.len() > 1 {
        assert(ends[0] < ends[1]);
        assert(rle.is_run_end(ends[0]));
        assert(rle.is_run_end(ends[1]));
    }
}

/// Where an element is put inside a single run, with another value, and
/// removed again, the elements come back but the run stays cut in two.
pub proof fn lemma_insert_remove_cut<T>(
    rle: RleVec<T>,
    i: int,
    x: T,
    mid: RleVec<T>,
    after: RleVec<T>,
    taken: T,
)
    requires
        rle.wf(),
        mid.wf(),
        rle.insert_yields(i, x, mid),
        after.wf(),
        mid.remove_yields(i, after, taken),
        insert_cuts_single_run(rle, i, x),
    ensures
        taken == x,
        after@ == rle@,
        mid.remove_leaves_twins(i),
        rle.spec_ends() == seq![rle@.len() - 1],
        mid.spec_ends() == seq![i - 1, i, rle@.len() as int],
        after.spec_ends() == seq![i - 1, rle@.len() - 1],
{
    let n = rle@.len() as int;
    rle.lemma_structure();
    mid.lemma_structure();
    after.lemma_structure();
    assert(after@ =~= rle@);
    let ends = rle.spec_ends();
    assert(ends[0] == n - 1);
    assert(ends =~= seq![n - 1]);
    assert(rle.spec_start(0) == 0);
    assert(rle@[i - 1] == rle@[ends[0]]);
    assert(rle@[i] == rle@[ends[0]]);
    assert(mid@[i - 1] == rle@[i - 1]);
    assert(mid@[i] == x);
    assert(mid@[i + 1] == rle@[i]);
    let three = seq![i - 1, i, n];
    assert forall|e: int| mid.spec_ends().contains(e) <==> three.contains(e) by {
        assert(mid.is_run_end(e) <==> mid.spec_ends().contains(e));
        if e < i - 1 {
            if rle.is_run_end(e) {
                let k = choose|k: int| 0 <= k < ends.len() && ends[k] == e;
            }
        } else if e > i {
            if rle.is_run_end(e - 1) {
                let k = choose|k: int| 0 <= k < ends.len() && ends[k] == e - 1;
            } else if e == n {
                assert(ends[0] == e - 1);
            }
        }
        if three.contains(e) {
            let k = choose|k: int| 0 <= k < three.len() && three[k] == e;
        }
        assert(three[0] == i - 1 && three[1] == i && three[2] == n);
    }
    lemma_same_members(mid.spec_ends(), three);
    assert(mid.spec_ends()[0] == i - 1 && mid.spec_ends()[1] == i);
    assert(mid.is_run_end(i - 1) && mid.is_run_end(i));
    let two = seq![i - 1, n - 1];
    assert forall|e: int| after.spec_ends().contains(e) <==> two.contains(e) by {
        assert(after.is_run_end(e) <==> after.spec_ends().contains(e));
        if e >= i {
            if mid.is_run_end(e + 1) {
                let k = choose|k: int| 0 <= k < three.len() && three[k] == e + 1;
            } else if e == n - 1 {
                assert(three[2] == e + 1);
            }
        } else if e < i - 1 {
            if mid.is_run_end(e) {
                let k = choose|k: int| 0 <= k < three.len() && three[k] == e;
            }
        }
        if two.contains(e) {
            let k = choose|k: int| 0 <= k < two.len() && two[k] == e;
        }
        assert(two[0] == i - 1 && two[1] == n - 1);
    }
    lemma_same_members(after.spec_ends(), two);
}

} // verus!
