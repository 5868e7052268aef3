//! The single steps that an edit is made of, and what each does to the
//! elements that the stored runs stand for.

use crate::model::{
    expand, extent, first_of, has_end, holds, increasing, lemma_expand_at, lemma_owner_unique,
    owner, InternalRun,
};
use vstd::prelude::*;

verus! {

/// Taking run `p` out leaves its positions to the run after it; when it was
/// the last run, the sequence ends where it began.
pub proof fn lemma_remove<T>(runs: Seq<InternalRun<T>>, p: int)
    requires
        increasing(runs),
        0 <= p < runs.len(),
    ensures
        increasing(runs.remove(p)),
        extent(runs.remove(p)) == if p == runs.len() - 1 {
            first_of(runs, p)
        } else {
            extent(runs)
        },
        forall|j: int|
            0 <= j < extent(runs.remove(p)) ==> #[trigger] expand(runs.remove(p))[j] == if first_of(
                runs,
                p,
            ) <= j <= runs[p].end {
                runs[p + 1].value
            } else {
                expand(runs)[j]
            },
        forall|e: int| #[trigger]
            has_end(runs.remove(p), e) <==> has_end(runs, e) && e != runs[p].end,
{
    let after = runs.remove(p);
    assert forall|k: int| 0 <= k < after.len() implies #[trigger] after[k] == if k < p {
        runs[k]
    } else {
        runs[k + 1]
    } by {}
    assert(increasing(after)) by {
        assert forall|a: int, b: int| 0 <= a < b < after.len() implies after[a].end
            < after[b].end by {
            let a0 = if a < p { a } else { a + 1 };
            let b0 = if b < p { b } else { b + 1 };
            assert(runs[a0].end < runs[b0].end);
        }
    }
    assert forall|j: int| 0 <= j < extent(after) implies #[trigger] expand(after)[j] == if first_of(
        runs,
        p,
    ) <= j <= runs[p].end {
        runs[p + 1].value
    } else {
        expand(runs)[j]
    } by {
        lemma_expand_at(after, j);
        let k = owner(after, j);
        if k < p {
            assert(holds(runs, k, j));
            lemma_owner_unique(runs, k, j);
            if k < p - 1 {
                assert(runs[k].end < runs[p - 1].end);
            }
        } else if k == p {
            if j > runs[p].end {
                assert(holds(runs, p + 1, j));
                lemma_owner_unique(runs, p + 1, j);
            }
        } else {
            assert(holds(runs, k + 1, j));
            lemma_owner_unique(runs, k + 1, j);
            assert(runs[p].end < runs[k].end);
        }
    }
    assert forall|e: int| #[trigger]
        has_end(after, e) <==> has_end(runs, e) && e != runs[p].end by {
        if has_end(after, e) {
            let k = choose|k: int| 0 <= k < after.len() && (#[trigger] after[k]).end == e;
            let k0 = if k < p { k } else { k + 1 };
            assert(runs[k0].end == e);
            if k0 < p {
                assert(runs[k0].end < runs[p].end);
            } else {
                assert(runs[p].end < runs[k0].end);
            }
        }
        if has_end(runs, e) && e != runs[p].end {
            let k0 = choose|k: int| 0 <= k < runs.len() && (#[trigger] runs[k]).end == e;
            let k = if k0 < p { k0 } else { k0 - 1 };
            assert(after[k].end == e);
        }
    }
}

/// Putting a run in at `p` gives it the positions from the start of the run
/// that stood there up to its own end.
pub proof fn lemma_insert<T>(runs: Seq<InternalRun<T>>, p: int, r: InternalRun<T>)
    requires
        increasing(runs),
        0 <= p <= runs.len(),
        first_of(runs, p) <= r.end,
        p < runs.len() ==> r.end < runs[p].end,
    ensures
        increasing(runs.insert(p, r)),
        extent(runs.insert(p, r)) == if p == runs.len() {
            r.end + 1
        } else {
            extent(runs)
        },
        forall|j: int|
            0 <= j < extent(runs.insert(p, r)) ==> #[trigger] expand(runs.insert(p, r))[j]
                == if first_of(runs, p) <= j <= r.end {
                r.value
            } else {
                expand(runs)[j]
            },
        forall|e: int| #[trigger]
            has_end(runs.insert(p, r), e) <==> has_end(runs, e) || e == r.end,
{
    let after = runs.insert(p, r);
    assert forall|k: int| 0 <= k < after.len() implies #[trigger] after[k] == if k < p {
        runs[k]
    } else if k == p {
        r
    } else {
        runs[k - 1]
    } by {}
    assert(increasing(after)) by {
        assert forall|a: int, b: int| 0 <= a < b < after.len() implies after[a].end
            < after[b].end by {
            if a < p - 1 {
                assert(runs[a].end < runs[p - 1].end);
            }
            if b > p + 1 {
                assert(runs[p].end < runs[b - 1].end);
            }
            if a < p && b > p {
                assert(runs[a].end < runs[b - 1].end);
            }
            if a > p {
                assert(runs[a - 1].end < runs[b - 1].end);
            }
            if b < p {
                assert(runs[a].end < runs[b].end);
            }
        }
    }
    assert forall|j: int| 0 <= j < extent(after) implies #[trigger] expand(after)[j]
        == if first_of(runs, p) <= j <= r.end {
        r.value
    } else {
        expand(runs)[j]
    } by {
        lemma_expand_at(after, j);
        let k = owner(after, j);
        if k < p {
            assert(holds(runs, k, j));
            lemma_owner_unique(runs, k, j);
            if k < p - 1 {
                assert(runs[k].end < runs[p - 1].end);
            }
        } else if k > p {
            assert(holds(runs, k - 1, j));
            lemma_owner_unique(runs, k - 1, j);
        }
    }
    assert forall|e: int| #[trigger] has_end(after, e) <==> has_end(runs, e) || e == r.end by {
        if has_end(after, e) && e != r.end {
            let k = choose|k: int| 0 <= k < after.len() && (#[trigger] after[k]).end == e;
            let k0 = if k < p { k } else { k - 1 };
            assert(runs[k0].end == e);
        }
        if has_end(runs, e) {
            let k0 = choose|k: int| 0 <= k < runs.len() && (#[trigger] runs[k]).end == e;
            let k = if k0 < p { k0 } else { k0 + 1 };
            assert(after[k].end == e);
        }
        if e == r.end {
            assert(after[p].end == e);
        }
    }
}

/// Replacing run `p` by a run with another end or value: the new run holds
/// the positions from the old start to the new end, and where the end moved
/// back, the run after it takes the positions given up.
pub proof fn lemma_update<T>(runs: Seq<InternalRun<T>>, p: int, r: InternalRun<T>)
    requires
        increasing(runs),
        0 <= p < runs.len(),
        first_of(runs, p) <= r.end,
        p < runs.len() - 1 ==> r.end < runs[p + 1].end,
    ensures
        increasing(runs.update(p, r)),
        extent(runs.update(p, r)) == if p == runs.len() - 1 {
            r.end + 1
        } else {
            extent(runs)
        },
        forall|j: int|
            0 <= j < extent(runs.update(p, r)) ==> #[trigger] expand(runs.update(p, r))[j]
                == if first_of(runs, p) <= j <= r.end {
                r.value
            } else if r.end < j <= runs[p].end {
                runs[p + 1].value
            } else {
                expand(runs)[j]
            },
        forall|e: int| #[trigger]
            has_end(runs.update(p, r), e) <==> (has_end(runs, e) && e != runs[p].end) || e
                == r.end,
{
    let after = runs.update(p, r);
    assert(increasing(after)) by {
        assert forall|a: int, b: int| 0 <= a < b < after.len() implies after[a].end
            < after[b].end by {
            if a < p - 1 {
                assert(runs[a].end < runs[p - 1].end);
            }
            if b > p + 1 {
                assert(runs[p + 1].end < runs[b].end);
            }
            if a != p && b != p {
                assert(runs[a].end < runs[b].end);
            }
        }
    }
    assert forall|j: int| 0 <= j < extent(after) implies #[trigger] expand(after)[j]
        == if first_of(runs, p) <= j <= r.end {
        r.value
    } else if r.end < j <= runs[p].end {
        runs[p + 1].value
    } else {
        expand(runs)[j]
    } by {
        lemma_expand_at(after, j);
        let k = owner(after, j);
        if k < p {
            assert(holds(runs, k, j));
            lemma_owner_unique(runs, k, j);
            if k < p - 1 {
                assert(runs[k].end < runs[p - 1].end);
            }
        } else if k == p + 1 {
            if j > runs[p].end {
                assert(holds(runs, k, j));
                lemma_owner_unique(runs, k, j);
            }
        } else if k > p + 1 {
            assert(holds(runs, k, j));
            lemma_owner_unique(runs, k, j);
            assert(runs[p].end < runs[k - 1].end);
            assert(runs[p + 1].end <= runs[k - 1].end);
        }
    }
    assert forall|e: int| #[trigger]
        has_end(after, e) <==> (has_end(runs, e) && e != runs[p].end) || e == r.end by {
        if has_end(after, e) && e != r.end {
            let k = choose|k: int| 0 <= k < after.len() && (#[trigger] after[k]).end == e;
            assert(runs[k].end == e);
            if k < p {
                assert(runs[k].end < runs[p].end);
            } else {
                assert(runs[p].end < runs[k].end);
            }
        }
        if has_end(runs, e) && e != runs[p].end {
            let k = choose|k: int| 0 <= k < runs.len() && (#[trigger] runs[k]).end == e;
            assert(after[k].end == e);
        }
        if e == r.end {
            assert(after[p].end == e);
        }
    }
}

/// `after` is `runs` with the end of every run from `p` on moved by `by`.
pub open spec fn shifted<T>(
    runs: Seq<InternalRun<T>>,
    after: Seq<InternalRun<T>>,
    p: int,
    by: int,
) -> bool {
    &&& after.len() == runs.len()
    &&& forall|q: int|
        0 <= q < runs.len() ==> (#[trigger] after[q]).value == runs[q].value && after[q].end
            == runs[q].end + if q >= p {
            by
        } else {
            0
        }
}

/// Moving the ends from run `p` on up by one makes room for one more element
/// in run `p`; every later element moves up by one.
pub proof fn lemma_shift_up<T>(runs: Seq<InternalRun<T>>, after: Seq<InternalRun<T>>, p: int)
    requires
        increasing(runs),
        0 <= p < runs.len(),
        shifted(runs, after, p, 1),
    ensures
        increasing(after),
        extent(after) == extent(runs) + 1,
        forall|j: int|
            0 <= j < extent(after) ==> #[trigger] expand(after)[j] == if j <= runs[p].end {
                expand(runs)[j]
            } else {
                expand(runs)[j - 1]
            },
        forall|e: int| #[trigger]
            has_end(after, e) <==> (has_end(runs, e) && e < first_of(runs, p)) || (has_end(
                runs,
                e - 1,
            ) && e - 1 >= runs[p].end),
{
    assert(increasing(after)) by {
        assert forall|a: int, b: int| 0 <= a < b < after.len() implies after[a].end
            < after[b].end by {
            assert(runs[a].end < runs[b].end);
        }
    }
    assert forall|j: int| 0 <= j < extent(after) implies #[trigger] expand(after)[j] == if j
        <= runs[p].end {
        expand(runs)[j]
    } else {
        expand(runs)[j - 1]
    } by {
        lemma_expand_at(after, j);
        let k = owner(after, j);
        if k < p {
            assert(holds(runs, k, j));
            lemma_owner_unique(runs, k, j);
            assert(runs[k].end < runs[p].end);
        } else if k == p {
            if j <= runs[p].end {
                assert(holds(runs, p, j));
                lemma_owner_unique(runs, p, j);
            } else {
                assert(holds(runs, p, j - 1));
                lemma_owner_unique(runs, p, j - 1);
            }
        } else {
            assert(holds(runs, k, j - 1));
            lemma_owner_unique(runs, k, j - 1);
            assert(runs[p].end <= runs[k - 1].end) by {
                if p < k - 1 {
                    assert(runs[p].end < runs[k - 1].end);
                }
            }
        }
    }
    assert forall|e: int| #[trigger]
        has_end(after, e) <==> (has_end(runs, e) && e < first_of(runs, p)) || (has_end(
            runs,
            e - 1,
        ) && e - 1 >= runs[p].end) by {
        if has_end(after, e) {
            let k = choose|k: int| 0 <= k < after.len() && (#[trigger] after[k]).end == e;
            if k < p {
                assert(runs[k].end == e);
                if k < p - 1 {
                    assert(runs[k].end < runs[p - 1].end);
                }
            } else {
                assert(runs[k].end == e - 1);
                if k > p {
                    assert(runs[p].end < runs[k].end);
                }
            }
        }
        if has_end(runs, e) && e < first_of(runs, p) {
            let k = choose|k: int| 0 <= k < runs.len() && (#[trigger] runs[k]).end == e;
            if k >= p {
                if p > 0 {
                    assert(runs[p - 1].end < runs[k].end);
                }
            }
            assert(after[k].end == e);
        }
        if has_end(runs, e - 1) && e - 1 >= runs[p].end {
            let k = choose|k: int| 0 <= k < runs.len() && (#[trigger] runs[k]).end == e - 1;
            if k < p {
                assert(runs[k].end < runs[p].end);
            }
            assert(after[k].end == e);
        }
    }
}

/// Moving the ends from run `p` on down by one, where run `p` has at least
/// two elements, takes one element out of run `p`; every later element moves
/// down by one.
pub proof fn lemma_shift_down<T>(runs: Seq<InternalRun<T>>, after: Seq<InternalRun<T>>, p: int)
    requires
        increasing(runs),
        0 <= p < runs.len(),
        first_of(runs, p) < runs[p].end,
        shifted(runs, after, p, -1),
    ensures
        increasing(after),
        extent(after) == extent(runs) - 1,
        forall|j: int|
            0 <= j < extent(after) ==> #[trigger] expand(after)[j] == if j < runs[p].end {
                expand(runs)[j]
            } else {
                expand(runs)[j + 1]
            },
        forall|e: int| #[trigger]
            has_end(after, e) <==> (has_end(runs, e) && e < first_of(runs, p)) || (has_end(
                runs,
                e + 1,
            ) && e + 1 >= runs[p].end),
{
    assert(increasing(after)) by {
        assert forall|a: int, b: int| 0 <= a < b < after.len() implies after[a].end
            < after[b].end by {
            assert(runs[a].end < runs[b].end);
            if a < p && b >= p {
                if a < p - 1 {
                    assert(runs[a].end < runs[p - 1].end);
                }
                if p < b {
                    assert(runs[p].end < runs[b].end);
                }
            }
        }
    }
    assert forall|j: int| 0 <= j < extent(after) implies #[trigger] expand(after)[j] == if j
        < runs[p].end {
        expand(runs)[j]
    } else {
        expand(runs)[j + 1]
    } by {
        lemma_expand_at(after, j);
        let k = owner(after, j);
        if k < p {
            assert(holds(runs, k, j));
            lemma_owner_unique(runs, k, j);
            assert(runs[k].end < runs[p].end);
            if k < p - 1 {
                assert(runs[k].end < runs[p - 1].end);
            }
        } else if k == p {
            assert(holds(runs, p, j));
            lemma_owner_unique(runs, p, j);
        } else {
            assert(holds(runs, k, j + 1));
            lemma_owner_unique(runs, k, j + 1);
            assert(runs[p].end <= runs[k - 1].end) by {
                if p < k - 1 {
                    assert(runs[p].end < runs[k - 1].end);
                }
            }
        }
    }
    assert forall|e: int| #[trigger]
        has_end(after, e) <==> (has_end(runs, e) && e < first_of(runs, p)) || (has_end(
            runs,
            e + 1,
        ) && e + 1 >= runs[p].end) by {
        if has_end(after, e) {
            let k = choose|k: int| 0 <= k < after.len() && (#[trigger] after[k]).end == e;
            if k < p {
                assert(runs[k].end == e);
                if k < p - 1 {
                    assert(runs[k].end < runs[p - 1].end);
                }
            } else {
                assert(runs[k].end == e + 1);
                if k > p {
                    assert(runs[p].end < runs[k].end);
                }
            }
        }
        if has_end(runs, e) && e < first_of(runs, p) {
            let k = choose|k: int| 0 <= k < runs.len() && (#[trigger] runs[k]).end == e;
            if k >= p {
                if p > 0 {
                    assert(runs[p - 1].end < runs[k].end);
                }
            }
            assert(after[k].end == e);
        }
        if has_end(runs, e + 1) && e + 1 >= runs[p].end {
            let k = choose|k: int| 0 <= k < runs.len() && (#[trigger] runs[k]).end == e + 1;
            if k < p {
                assert(runs[k].end < runs[p].end);
            }
            assert(after[k].end == e);
        }
    }
}


} // verus!
