//! The greatest and the least of the elements that a cursor has still to
//! give, found by looking at each run once.

use crate::iter::Iter;
use crate::model::at;
use core::cmp::Ordering;
use vstd::laws_cmp::{
    obeys_cmp, obeys_cmp_ord, obeys_cmp_partial_ord, obeys_partial_cmp_spec_properties,
};
use vstd::laws_eq::obeys_eq_spec_properties;
use vstd::prelude::*;
use vstd::std_specs::cmp::{OrdSpec, PartialEqSpec, PartialOrdSpec};

verus! {

/// `a` is not greater than `b`.
pub open spec fn at_most<T: Ord>(a: T, b: T) -> bool {
    a.cmp_spec(&b) != Ordering::Greater
}

/// `m` is the greatest of `s`, and of those equal to it the last: it stands
/// at a place of `s`, no element is greater, and every later one is less.
pub open spec fn is_last_greatest<T: Ord>(s: Seq<T>, m: T) -> bool {
    exists|i: int|
        {
            &&& 0 <= i < s.len() && #[trigger] s[i] == m
            &&& forall|j: int| 0 <= j < s.len() ==> at_most(#[trigger] s[j], m)
            &&& forall|j: int| i < j < s.len() ==> (#[trigger] s[j]).cmp_spec(&m) == Ordering::Less
        }
}

/// `m` is the least of `s`, and of those equal to it the first: it stands at
/// a place of `s`, no element is less, and every earlier one is greater.
pub open spec fn is_first_least<T: Ord>(s: Seq<T>, m: T) -> bool {
    exists|i: int|
        {
            &&& 0 <= i < s.len() && #[trigger] s[i] == m
            &&& forall|j: int| 0 <= j < s.len() ==> at_most(m, #[trigger] s[j])
            &&& forall|j: int| 0 <= j < i ==> m.cmp_spec(&#[trigger] s[j]) == Ordering::Less
        }
}

/// In a total order, "not greater" is reflexive and transitive, of two
/// values one is not greater than the other, and what is less than a value
/// is less than all that the value is not greater than.
pub proof fn lemma_at_most<T: Ord>(a: T, b: T, c: T)
    requires
        obeys_cmp::<T>(),
    ensures
        at_most(a, a),
        a.cmp_spec(&b) != Ordering::Less ==> at_most(b, a),
        at_most(a, b) && at_most(b, c) ==> at_most(a, c),
        a.cmp_spec(&b) == Ordering::Less && at_most(b, c) ==> a.cmp_spec(&c) == Ordering::Less,
{
    reveal(obeys_cmp_ord);
    reveal(obeys_cmp_partial_ord);
    reveal(obeys_partial_cmp_spec_properties);
    reveal(obeys_eq_spec_properties);
    assert(a.partial_cmp_spec(&a) == Some(a.cmp_spec(&a)));
    assert(a.partial_cmp_spec(&b) == Some(a.cmp_spec(&b)));
    assert(b.partial_cmp_spec(&a) == Some(b.cmp_spec(&a)));
    assert(b.partial_cmp_spec(&c) == Some(b.cmp_spec(&c)));
    assert(c.partial_cmp_spec(&b) == Some(c.cmp_spec(&b)));
    assert(a.partial_cmp_spec(&c) == Some(a.cmp_spec(&c)));
    assert(c.partial_cmp_spec(&a) == Some(c.cmp_spec(&a)));
    if at_most(a, b) && at_most(b, c) && !at_most(a, c) {
        // then c is less than a
        assert(c.cmp_spec(&a) == Ordering::Less);
        if a.cmp_spec(&b) == Ordering::Less {
            assert(c.cmp_spec(&b) == Ordering::Less);
            assert(b.cmp_spec(&c) == Ordering::Greater);
        } else {
            assert(a.eq_spec(&b));
            if b.cmp_spec(&c) == Ordering::Less {
                assert(b.cmp_spec(&a) == Ordering::Less);
                assert(b.eq_spec(&a));
            } else {
                assert(b.eq_spec(&c));
                assert(a.eq_spec(&c));
            }
        }
    }
    if a.cmp_spec(&b) == Ordering::Less && at_most(b, c) && a.cmp_spec(&c) == Ordering::Equal {
        assert(a.eq_spec(&c));
        assert(c.eq_spec(&a));
        if b.cmp_spec(&c) == Ordering::Less {
            assert(a.cmp_spec(&c) == Ordering::Less);
        } else {
            assert(b.eq_spec(&c));
            assert(b.eq_spec(&a));
            assert(a.eq_spec(&b));
        }
    }
}

impl<'a, T: Ord> Iter<'a, T> {
    /// Gives the greatest of the elements still to come, or `None` if none
    /// is left. Of several that are equally great it gives the last.
    ///
    /// Each run from the cursor's place on is looked at once.
    pub fn max(self) -> (best: Option<&'a T>)
        requires
            self.wf(),
            obeys_cmp::<T>(),
        ensures
            (match best {
                Some(m) => is_last_greatest(self.remaining(), *m),
                None => self.remaining().len() == 0,
            }),
    {
        proof {
            self.lemma_remaining();
        }
        assert(T::obeys_cmp_spec()) by {
            reveal(obeys_cmp_ord);
        }
        if self.rle.is_empty() || self.index == self.rle.len() {
            return None;
        }
        let count: usize = self.rle.runs_len();
        let mut k: usize = self.run_index;
        let mut best: &'a T = &self.rle.runs[k].value;
        let ghost mut b: usize = k;
        proof {
            lemma_at_most(*best, *best, *best);
            assert(*best == at(self.rle.runs@, b).value);
        }
        k += 1;
        while k < count
            invariant
                obeys_cmp::<T>(),
                T::obeys_cmp_spec(),
                count == self.rle.runs@.len(),
                self.run() <= b < k <= count,
                *best == at(self.rle.runs@, b).value,
                forall|q: usize|
                    self.run() <= q < k ==> at_most(
                        (#[trigger] at(self.rle.runs@, q)).value,
                        *best,
                    ),
                forall|q: usize|
                    b < q < k ==> (#[trigger] at(self.rle.runs@, q)).value.cmp_spec(best)
                        == Ordering::Less,
            decreases count - k,
        {
            let value: &'a T = &self.rle.runs[k].value;
            let ghost before = *best;
            proof {
                lemma_at_most(*value, *best, *best);
                lemma_at_most(*best, *best, *best);
                assert(*value == at(self.rle.runs@, k).value);
            }
            match value.cmp(best) {
                Ordering::Less => {},
                _ => {
                    best = value;
                    proof {
                        b = k;
                    }
                },
            }
            proof {
                assert(at_most(before, *best));
                assert(at_most(*value, *best));
                assert forall|q: usize| self.run() <= q < k + 1 implies at_most(
                    (#[trigger] at(self.rle.runs@, q)).value,
                    *best,
                ) by {
                    if q < k {
                        lemma_at_most(at(self.rle.runs@, q).value, before, *best);
                    }
                }
            }
            k += 1;
        }
        proof {
            let rest = self.remaining();
            let i = self.last_in(b);
            assert(rest[i] == *best);
            assert forall|j: int| 0 <= j < rest.len() implies at_most(
                #[trigger] rest[j],
                *best,
            ) by {
                let q = self.run_of_remaining(j);
                assert(at_most(at(self.rle.runs@, q).value, *best));
            }
            assert forall|j: int| i < j < rest.len() implies (#[trigger] rest[j]).cmp_spec(best)
                == Ordering::Less by {
                let q = self.run_of_remaining(j);
                if q < b {
                    assert(self.last_in(q) < self.first_in(b));
                }
                assert(at(self.rle.runs@, q).value.cmp_spec(best) == Ordering::Less);
            }
        }
        Some(best)
    }

    /// Gives the least of the elements still to come, or `None` if none is
    /// left. Of several that are equally small it gives the first.
    ///
    /// Each run from the cursor's place on is looked at once.
    pub fn min(self) -> (best: Option<&'a T>)
        requires
            self.wf(),
            obeys_cmp::<T>(),
        ensures
            (match best {
                Some(m) => is_first_least(self.remaining(), *m),
                None => self.remaining().len() == 0,
            }),
    {
        proof {
            self.lemma_remaining();
        }
        assert(T::obeys_cmp_spec()) by {
            reveal(obeys_cmp_ord);
        }
        if self.rle.is_empty() || self.index == self.rle.len() {
            return None;
        }
        let count: usize = self.rle.runs_len();
        let mut k: usize = self.run_index;
        let mut best: &'a T = &self.rle.runs[k].value;
        let ghost mut b: usize = k;
        proof {
            lemma_at_most(*best, *best, *best);
            assert(*best == at(self.rle.runs@, b).value);
        }
        k += 1;
        while k < count
            invariant
                obeys_cmp::<T>(),
                T::obeys_cmp_spec(),
                count == self.rle.runs@.len(),
                self.run() <= b < k <= count,
                *best == at(self.rle.runs@, b).value,
                forall|q: usize|
                    self.run() <= q < k ==> at_most(
                        *best,
                        (#[trigger] at(self.rle.runs@, q)).value,
                    ),
                forall|q: usize|
                    self.run() <= q < b ==> best.cmp_spec(&(#[trigger] at(self.rle.runs@, q)).value)
                        == Ordering::Less,
            decreases count - k,
        {
            let value: &'a T = &self.rle.runs[k].value;
            let ghost before = *best;
            let ghost b0 = b;
            proof {
                lemma_at_most(*value, *best, *best);
                lemma_at_most(*best, *best, *best);
                assert(*value == at(self.rle.runs@, k).value);
            }
            match value.cmp(best) {
                Ordering::Less => {
                    best = value;
                    proof {
                        b = k;
                    }
                },
                _ => {},
            }
            proof {
                assert(at_most(*best, before));
                assert(at_most(*best, *value));
                assert forall|q: usize| self.run() <= q < k + 1 implies at_most(
                    *best,
                    (#[trigger] at(self.rle.runs@, q)).value,
                ) by {
                    if q < k {
                        lemma_at_most(*best, before, at(self.rle.runs@, q).value);
                    }
                }
                assert forall|q: usize| self.run() <= q < b implies best.cmp_spec(
                    &(#[trigger] at(self.rle.runs@, q)).value,
                ) == Ordering::Less by {
                    if b != b0 {
                        lemma_at_most(*best, before, at(self.rle.runs@, q).value);
                    }
                }
            }
            k += 1;
        }
        proof {
            let rest = self.remaining();
            let i = self.first_in(b);
            assert(rest[i] == *best);
            assert forall|j: int| 0 <= j < rest.len() implies at_most(
                *best,
                #[trigger] rest[j],
            ) by {
                let q = self.run_of_remaining(j);
                assert(at_most(*best, at(self.rle.runs@, q).value));
            }
            assert forall|j: int| 0 <= j < i implies best.cmp_spec(&#[trigger] rest[j])
                == Ordering::Less by {
                let q = self.run_of_remaining(j);
                if q > b {
                    assert(self.last_in(b) < self.first_in(q));
                }
                assert(best.cmp_spec(&at(self.rle.runs@, q).value) == Ordering::Less);
            }
        }
        Some(best)
    }
}

} // verus!
