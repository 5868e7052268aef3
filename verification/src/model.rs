//! The stored form of a run, what a sequence of stored runs stands for, and
//! how a single edit of that sequence changes what it stands for.

use vstd::prelude::*;

verus! {

/// A run as it is stored: its value and the position, in the whole sequence,
/// of its last element.
#[derive(Debug)]
pub struct InternalRun<T> {
    pub end: usize,
    pub value: T,
}

/// The runs' ends grow strictly from one run to the next.
pub open spec fn increasing<T>(runs: Seq<InternalRun<T>>) -> bool {
    forall|a: int, b: int|
        #![trigger runs[a], runs[b]]
        0 <= a < b < runs.len() ==> runs[a].end < runs[b].end
}

/// The position of the first element of run `k`; for `k == runs.len()`, the
/// number of elements in all the runs.
pub open spec fn first_of<T>(runs: Seq<InternalRun<T>>, k: int) -> int {
    if k <= 0 {
        0
    } else {
        runs[k - 1].end + 1
    }
}

/// The number of elements that the runs stand for.
pub open spec fn extent<T>(runs: Seq<InternalRun<T>>) -> int {
    first_of(runs, runs.len() as int)
}

/// The stored run at index `k`.
pub open spec fn at<T>(runs: Seq<InternalRun<T>>, k: usize) -> InternalRun<T> {
    runs[k as int]
}

/// Run `k` exists and position `i` lies in it.
pub open spec fn holds<T>(runs: Seq<InternalRun<T>>, k: int, i: int) -> bool {
    0 <= k < runs.len() && first_of(runs, k) <= i <= runs[k].end
}

/// The number of runs that end before position `i`: for a position inside
/// the sequence, the index of the run that it lies in.
pub open spec fn owner<T>(runs: Seq<InternalRun<T>>, i: int) -> int
    decreases runs.len(),
{
    if runs.len() == 0 {
        0
    } else if runs.last().end < i {
        runs.len() as int
    } else {
        owner(runs.drop_last(), i)
    }
}

/// The sequence of elements that the runs stand for.
pub open spec fn expand<T>(runs: Seq<InternalRun<T>>) -> Seq<T> {
    Seq::new(extent(runs) as nat, |i: int| runs[owner(runs, i)].value)
}

/// Some run ends at position `e`.
pub open spec fn has_end<T>(runs: Seq<InternalRun<T>>, e: int) -> bool {
    exists|k: int| 0 <= k < runs.len() && (#[trigger] runs[k]).end == e
}

pub proof fn lemma_owner_counts<T>(runs: Seq<InternalRun<T>>, i: int)
    requires
        increasing(runs),
    ensures
        0 <= owner(runs, i) <= runs.len(),
        forall|k: int| 0 <= k < owner(runs, i) ==> (#[trigger] runs[k]).end < i,
        owner(runs, i) < runs.len() ==> runs[owner(runs, i)].end >= i,
    decreases runs.len(),
{
    if runs.len() > 0 && runs.last().end >= i {
        let d = runs.drop_last();
        assert(increasing(d)) by {
            assert forall|a: int, b: int| 0 <= a < b < d.len() implies d[a].end < d[b].end by {
                assert(d[a] == runs[a] && d[b] == runs[b]);
            }
        }
        lemma_owner_counts(d, i);
        assert forall|k: int| 0 <= k < owner(runs, i) implies (#[trigger] runs[k]).end < i by {
            assert(d[k] == runs[k]);
        }
        if owner(d, i) < d.len() {
            assert(d[owner(d, i)] == runs[owner(d, i)]);
        }
    } else if runs.len() > 0 {
        assert forall|k: int| 0 <= k < runs.len() implies (#[trigger] runs[k]).end < i by {
            if k < runs.len() - 1 {
                assert(runs[k].end < runs[runs.len() - 1].end);
            }
        }
    }
}

/// Every position inside the sequence lies in the run that `owner` names.
pub proof fn lemma_owner_holds<T>(runs: Seq<InternalRun<T>>, i: int)
    requires
        increasing(runs),
        0 <= i < extent(runs),
    ensures
        holds(runs, owner(runs, i), i),
{
    lemma_owner_counts(runs, i);
    let o = owner(runs, i);
    if o == runs.len() {
        assert(runs[runs.len() - 1].end < i);
    }
    if o > 0 {
        assert(runs[o - 1].end < i);
    }
}

/// A position lies in one run only.
pub proof fn lemma_owner_unique<T>(runs: Seq<InternalRun<T>>, k: int, i: int)
    requires
        increasing(runs),
        holds(runs, k, i),
    ensures
        owner(runs, i) == k,
        0 <= i < extent(runs),
{
    lemma_owner_counts(runs, i);
    let o = owner(runs, i);
    if o > k {
        assert(runs[k].end < i);
    }
    if o < k {
        assert(runs[o].end >= i);
        if o < k - 1 {
            assert(runs[o].end < runs[k - 1].end);
        }
    }
    if k < runs.len() - 1 {
        assert(runs[k].end < runs[runs.len() - 1].end);
    }
}

/// The number that `owner` gives is told by the two runs next to it.
pub proof fn lemma_owner_is<T>(runs: Seq<InternalRun<T>>, o: int, i: int)
    requires
        increasing(runs),
        0 <= o <= runs.len(),
        o > 0 ==> runs[o - 1].end < i,
        o < runs.len() ==> runs[o].end >= i,
    ensures
        owner(runs, i) == o,
{
    lemma_owner_counts(runs, i);
    let found = owner(runs, i);
    if found < o {
        if found < o - 1 {
            assert(runs[found].end < runs[o - 1].end);
        }
    }
    if found > o {
        assert(runs[o].end < i);
    }
}

/// Each position of the expansion holds the value of the run it lies in.
pub proof fn lemma_expand<T>(runs: Seq<InternalRun<T>>)
    requires
        increasing(runs),
    ensures
        expand(runs).len() == extent(runs),
        forall|k: int, i: int| #[trigger]
            holds(runs, k, i) ==> 0 <= i < extent(runs) && expand(runs)[i] == runs[k].value,
{
    assert forall|k: int, i: int| #[trigger] holds(runs, k, i) implies 0 <= i < extent(runs)
        && expand(runs)[i] == runs[k].value by {
        lemma_owner_unique(runs, k, i);
    }
}

/// The value at one position of the expansion.
pub proof fn lemma_expand_at<T>(runs: Seq<InternalRun<T>>, i: int)
    requires
        increasing(runs),
        0 <= i < extent(runs),
    ensures
        holds(runs, owner(runs, i), i),
        expand(runs)[i] == runs[owner(runs, i)].value,
{
    lemma_owner_holds(runs, i);
}

/// What stands at and next to a position `i` of run `p`, and whether a run
/// ends there or just before it.
pub proof fn lemma_neighbourhood<T>(runs: Seq<InternalRun<T>>, p: int, i: int)
    requires
        increasing(runs),
        holds(runs, p, i),
    ensures
        0 <= i < extent(runs),
        expand(runs).len() == extent(runs),
        expand(runs)[i] == runs[p].value,
        i > 0 ==> expand(runs)[i - 1] == if i == first_of(runs, p) {
            runs[p - 1].value
        } else {
            runs[p].value
        },
        i + 1 < extent(runs) ==> expand(runs)[i + 1] == if i == runs[p].end {
            runs[p + 1].value
        } else {
            runs[p].value
        },
        has_end(runs, i - 1) <==> i > 0 && i == first_of(runs, p),
        has_end(runs, i) <==> i == runs[p].end,
        i == first_of(runs, p) ==> (p == 0 <==> i == 0),
        i == runs[p].end ==> (p == runs.len() - 1 <==> i + 1 == extent(runs)),
        p > 0 ==> runs[p - 1].end < runs[p].end,
        p < runs.len() - 1 ==> runs[p].end < runs[p + 1].end,
        forall|k: int, j: int|
            p - 1 <= k <= p + 1 && holds(runs, k, j) ==> #[trigger] expand(runs)[j]
                == (#[trigger] runs[k]).value,
        forall|e: int| #[trigger] has_end(runs, e) ==> 0 <= e < extent(runs),
        forall|e: int| first_of(runs, p) <= e < runs[p].end ==> !#[trigger] has_end(runs, e),
        p < runs.len() - 1 ==> forall|e: int|
            runs[p].end < e < runs[p + 1].end ==> !#[trigger] has_end(runs, e),
{
    lemma_expand(runs);
    assert forall|e: int| #[trigger] has_end(runs, e) implies 0 <= e < extent(runs) by {
        let k = choose|k: int| 0 <= k < runs.len() && (#[trigger] runs[k]).end == e;
        if k < runs.len() - 1 {
            assert(runs[k].end < runs[runs.len() - 1].end);
        }
    }
    assert forall|e: int| first_of(runs, p) <= e < runs[p].end implies !#[trigger] has_end(
        runs,
        e,
    ) by {
        if has_end(runs, e) {
            let k = choose|k: int| 0 <= k < runs.len() && (#[trigger] runs[k]).end == e;
            if k < p - 1 {
                assert(runs[k].end < runs[p - 1].end);
            }
            if k > p {
                assert(runs[p].end < runs[k].end);
            }
        }
    }
    if p < runs.len() - 1 {
        assert forall|e: int| runs[p].end < e < runs[p + 1].end implies !#[trigger] has_end(
            runs,
            e,
        ) by {
            if has_end(runs, e) {
                let k = choose|k: int| 0 <= k < runs.len() && (#[trigger] runs[k]).end == e;
                if k < p {
                    assert(runs[k].end < runs[p].end);
                }
                if k > p + 1 {
                    assert(runs[p + 1].end < runs[k].end);
                }
            }
        }
    }
    if p > 0 {
        assert(runs[p - 1].end < runs[p].end);
        if p > 1 {
            assert(runs[p - 2].end < runs[p - 1].end);
        }
    }
    if p < runs.len() - 1 {
        assert(runs[p].end < runs[p + 1].end);
        if p + 1 < runs.len() - 1 {
            assert(runs[p + 1].end < runs[runs.len() - 1].end);
        }
    }
    if i > 0 {
        if i == first_of(runs, p) {
            assert(holds(runs, p - 1, i - 1));
        } else {
            assert(holds(runs, p, i - 1));
        }
    }
    if i + 1 < extent(runs) {
        if i == runs[p].end {
            assert(holds(runs, p + 1, i + 1));
        } else {
            assert(holds(runs, p, i + 1));
        }
    }
    if has_end(runs, i - 1) {
        let k = choose|k: int| 0 <= k < runs.len() && (#[trigger] runs[k]).end == i - 1;
        if k < p - 1 {
            assert(runs[k].end < runs[p - 1].end);
        }
        if k >= p {
            if k > p {
                assert(runs[p].end < runs[k].end);
            }
        }
    }
    if has_end(runs, i) {
        let k = choose|k: int| 0 <= k < runs.len() && (#[trigger] runs[k]).end == i;
        if k < p {
            if k < p - 1 {
                assert(runs[k].end < runs[p - 1].end);
            }
        }
        if k > p {
            assert(runs[p].end < runs[k].end);
        }
    }
    if i > 0 && i == first_of(runs, p) {
        assert(runs[p - 1].end == i - 1);
    }
    if i == runs[p].end {
        assert(runs[p].end == i);
    }
}

} // verus!
