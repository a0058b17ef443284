//! Equality and ordering of lists, element by element.
//!
//! Two lists are equal when they have the same length and equal elements
//! at every position. Lists are ordered lexicographically: by the first
//! position at which their elements differ, a list that ends first coming
//! before its extensions. When the elements at that position cannot be
//! compared, neither can the lists.

use crate::list::LinkedList;
use std::cmp::Ordering;
use vstd::prelude::*;
use vstd::std_specs::cmp::{OrdSpec, PartialEqSpec, PartialEqSpecImpl, PartialOrdSpec, PartialOrdSpecImpl};

verus! {

/// Element-wise equality of two sequences.
pub open spec fn seq_eq<T: PartialEq>(a: Seq<T>, b: Seq<T>) -> bool {
    &&& a.len() == b.len()
    &&& forall|i: int| 0 <= i < a.len() ==> #[trigger] a[i].eq_spec(&b[i])
}

/// Lexicographic comparison of two sequences by the partial order of
/// their elements.
pub open spec fn seq_partial_cmp<T: PartialOrd>(a: Seq<T>, b: Seq<T>) -> Option<Ordering>
    decreases a.len(),
{
    if a.len() == 0 {
        if b.len() == 0 {
            Some(Ordering::Equal)
        } else {
            Some(Ordering::Less)
        }
    } else if b.len() == 0 {
        Some(Ordering::Greater)
    } else {
        match a.first().partial_cmp_spec(&b.first()) {
            Some(Ordering::Equal) => seq_partial_cmp(a.drop_first(), b.drop_first()),
            other => other,
        }
    }
}

/// Lexicographic comparison of two sequences by the total order of their
/// elements.
pub open spec fn seq_cmp<T: Ord>(a: Seq<T>, b: Seq<T>) -> Ordering
    decreases a.len(),
{
    if a.len() == 0 {
        if b.len() == 0 {
            Ordering::Equal
        } else {
            Ordering::Less
        }
    } else if b.len() == 0 {
        Ordering::Greater
    } else {
        match a.first().cmp_spec(&b.first()) {
            Ordering::Equal => seq_cmp(a.drop_first(), b.drop_first()),
            other => other,
        }
    }
}

impl<T: PartialEq> PartialEq for LinkedList<T> {
    /// Whether the two lists have the same length and equal elements at
    /// every position.
    fn eq(&self, other: &Self) -> (r: bool)
        ensures
            r ==> self@.len() == other@.len() && forall|i: int|
                0 <= i < self@.len() ==> #[trigger] call_ensures(
                    T::eq,
                    (&self@[i], &other@[i]),
                    true,
                ),
            !r ==> self@.len() != other@.len() || exists|i: int|
                0 <= i < self@.len() && i < other@.len() && #[trigger] call_ensures(
                    T::eq,
                    (&self@[i], &other@[i]),
                    false,
                ),
    {
        if self.len() != other.len() {
            return false;
        }
        let mut a = self.iter();
        let mut b = other.iter();
        proof {
            a.lemma_bounds();
            b.lemma_bounds();
        }
        while a.len() > 0
            invariant
                a.wf(),
                b.wf(),
                a.list() == self,
                b.list() == other,
                self@.len() == other@.len(),
                a.front_index() == b.front_index(),
                a.remaining().len() == b.remaining().len(),
                a.front_index() + a.remaining().len() == self@.len(),
                T::obeys_eq_spec() ==> forall|i: int|
                    0 <= i < a.front_index() ==> #[trigger] self@[i].eq_spec(&other@[i]),
                forall|i: int|
                    0 <= i < a.front_index() ==> #[trigger] call_ensures(
                        T::eq,
                        (&self@[i], &other@[i]),
                        true,
                    ),
            decreases a.remaining().len(),
        {
            proof {
                a.lemma_bounds();
                b.lemma_bounds();
            }
            let ghost k = a.front_index();
            let x = a.next().unwrap();
            let y = b.next().unwrap();
            proof {
                a.lemma_bounds();
                b.lemma_bounds();
            }
            if !(*x == *y) {
                proof {
                    if T::obeys_eq_spec() {
                        assert(!self@[k].eq_spec(&other@[k]));
                    }
                    assert(call_ensures(T::eq, (&self@[k], &other@[k]), false));
                }
                return false;
            }
        }
        true
    }
}

impl<T: PartialEq> PartialEqSpecImpl for LinkedList<T> {
    /// Lists compare as specified whenever their elements do.
    open spec fn obeys_eq_spec() -> bool {
        T::obeys_eq_spec()
    }

    /// Same length, and equal elements at every position.
    open spec fn eq_spec(&self, other: &Self) -> bool {
        seq_eq(self@, other@)
    }
}

impl<T: Eq> Eq for LinkedList<T> {

}

/// The order of two sequences that agree on their common positions: by
/// length.
pub open spec fn length_order(a: int, b: int) -> Ordering {
    if a < b {
        Ordering::Less
    } else if a == b {
        Ordering::Equal
    } else {
        Ordering::Greater
    }
}

/// The comparison of `a` with `b` is decided at position `k` with result
/// `r`: the elements before `k` were found equal pair by pair, and either
/// a sequence ends at `k`, so that the lengths decide, or the elements at
/// `k` were found to compare as `r`, which is not equality.
pub open spec fn decided_at_partial<T: PartialOrd>(a: Seq<T>, b: Seq<T>, k: int, r: Option<Ordering>) -> bool {
    &&& 0 <= k <= a.len()
    &&& k <= b.len()
    &&& forall|i: int|
        0 <= i < k ==> #[trigger] call_ensures(T::partial_cmp, (&a[i], &b[i]), Some(Ordering::Equal))
    &&& if k == a.len() || k == b.len() {
        r == Some(length_order(a.len() - k, b.len() - k))
    } else {
        &&& r != Some(Ordering::Equal)
        &&& call_ensures(T::partial_cmp, (&a[k], &b[k]), r)
    }
}

/// The same for a total order.
pub open spec fn decided_at<T: Ord>(a: Seq<T>, b: Seq<T>, k: int, r: Ordering) -> bool {
    &&& 0 <= k <= a.len()
    &&& k <= b.len()
    &&& forall|i: int| 0 <= i < k ==> #[trigger] call_ensures(T::cmp, (&a[i], &b[i]), Ordering::Equal)
    &&& if k == a.len() || k == b.len() {
        r == length_order(a.len() - k, b.len() - k)
    } else {
        &&& r != Ordering::Equal
        &&& call_ensures(T::cmp, (&a[k], &b[k]), r)
    }
}

/// Comparing two sequences goes by comparing what is left of both once a
/// common prefix of pairwise equal elements is set aside.
proof fn lemma_partial_cmp_step<T: PartialOrd>(a: Seq<T>, b: Seq<T>)
    requires
        a.len() > 0,
        b.len() > 0,
    ensures
        a.first().partial_cmp_spec(&b.first()) == Some(Ordering::Equal) ==> seq_partial_cmp(a, b)
            == seq_partial_cmp(a.drop_first(), b.drop_first()),
        a.first().partial_cmp_spec(&b.first()) != Some(Ordering::Equal) ==> seq_partial_cmp(a, b)
            == a.first().partial_cmp_spec(&b.first()),
{
}

/// The same for a total order.
proof fn lemma_cmp_step<T: Ord>(a: Seq<T>, b: Seq<T>)
    requires
        a.len() > 0,
        b.len() > 0,
    ensures
        a.first().cmp_spec(&b.first()) == Ordering::Equal ==> seq_cmp(a, b) == seq_cmp(
            a.drop_first(),
            b.drop_first(),
        ),
        a.first().cmp_spec(&b.first()) != Ordering::Equal ==> seq_cmp(a, b) == a.first().cmp_spec(
            &b.first(),
        ),
{
}

impl<T: PartialOrd> PartialOrd for LinkedList<T> {
    /// Compares the two lists lexicographically. The result is that of
    /// the first pair of elements that does not compare equal; when no
    /// pair differs before one list ends, the shorter list is the lesser.
    fn partial_cmp(&self, other: &Self) -> (r: Option<Ordering>)
        ensures
            exists|k: int| #[trigger] decided_at_partial(self@, other@, k, r),
    {
        let mut a = self.iter();
        let mut b = other.iter();
        proof {
            a.lemma_bounds();
            b.lemma_bounds();
        }
        loop
            invariant
                a.wf(),
                b.wf(),
                a.list() == self,
                b.list() == other,
                a.front_index() == b.front_index(),
                a.front_index() + a.remaining().len() == self@.len(),
                b.front_index() + b.remaining().len() == other@.len(),
                T::obeys_partial_cmp_spec() ==> seq_partial_cmp(self@, other@) == seq_partial_cmp(
                    a.remaining(),
                    b.remaining(),
                ),
                forall|i: int|
                    0 <= i < a.front_index() ==> #[trigger] call_ensures(
                        T::partial_cmp,
                        (&self@[i], &other@[i]),
                        Some(Ordering::Equal),
                    ),
            decreases a.remaining().len(),
        {
            proof {
                a.lemma_bounds();
                b.lemma_bounds();
            }
            let ghost k = a.front_index();
            let ghost left = a.remaining();
            let ghost right = b.remaining();
            match a.next() {
                None => {
                    let r = Some(
                        if b.len() > 0 {
                            Ordering::Less
                        } else {
                            Ordering::Equal
                        },
                    );
                    proof {
                        assert(decided_at_partial(self@, other@, k, r));
                    }
                    return r;
                },
                Some(x) => match b.next() {
                    None => {
                        proof {
                            assert(decided_at_partial(self@, other@, k, Some(Ordering::Greater)));
                        }
                        return Some(Ordering::Greater);
                    },
                    Some(y) => {
                        proof {
                            a.lemma_bounds();
                            b.lemma_bounds();
                            lemma_partial_cmp_step(left, right);
                        }
                        let step = x.partial_cmp(y);
                        match step {
                            Some(Ordering::Equal) => {},
                            _ => {
                                proof {
                                    assert(call_ensures(
                                        T::partial_cmp,
                                        (&self@[k], &other@[k]),
                                        step,
                                    ));
                                    assert(decided_at_partial(self@, other@, k, step));
                                }
                                return step;
                            },
                        }
                    },
                },
            }
        }
    }
}

impl<T: PartialOrd> PartialOrdSpecImpl for LinkedList<T> {
    /// Lists compare as specified whenever their elements do.
    open spec fn obeys_partial_cmp_spec() -> bool {
        T::obeys_partial_cmp_spec()
    }

    /// The lexicographic comparison of the two views.
    open spec fn partial_cmp_spec(&self, other: &Self) -> Option<Ordering> {
        seq_partial_cmp(self@, other@)
    }
}

impl<T: Ord> LinkedList<T> {
    /// Compares the two lists lexicographically by the total order of
    /// their elements.
    pub fn cmp(&self, other: &Self) -> (r: Ordering)
        ensures
            T::obeys_cmp_spec() ==> r == seq_cmp(self@, other@),
            exists|k: int| #[trigger] decided_at(self@, other@, k, r),
    {
        let mut a = self.iter();
        let mut b = other.iter();
        proof {
            a.lemma_bounds();
            b.lemma_bounds();
        }
        loop
            invariant
                a.wf(),
                b.wf(),
                a.list() == self,
                b.list() == other,
                a.front_index() == b.front_index(),
                a.front_index() + a.remaining().len() == self@.len(),
                b.front_index() + b.remaining().len() == other@.len(),
                T::obeys_cmp_spec() ==> seq_cmp(self@, other@) == seq_cmp(
                    a.remaining(),
                    b.remaining(),
                ),
                forall|i: int|
                    0 <= i < a.front_index() ==> #[trigger] call_ensures(
                        T::cmp,
                        (&self@[i], &other@[i]),
                        Ordering::Equal,
                    ),
            decreases a.remaining().len(),
        {
            proof {
                a.lemma_bounds();
                b.lemma_bounds();
            }
            let ghost k = a.front_index();
            let ghost left = a.remaining();
            let ghost right = b.remaining();
            match a.next() {
                None => {
                    let r = if b.len() > 0 {
                        Ordering::Less
                    } else {
                        Ordering::Equal
                    };
                    proof {
                        assert(decided_at(self@, other@, k, r));
                    }
                    return r;
                },
                Some(x) => match b.next() {
                    None => {
                        proof {
                            assert(decided_at(self@, other@, k, Ordering::Greater));
                        }
                        return Ordering::Greater;
                    },
                    Some(y) => {
                        proof {
                            a.lemma_bounds();
                            b.lemma_bounds();
                            lemma_cmp_step(left, right);
                        }
                        let step = x.cmp(y);
                        match step {
                            Ordering::Equal => {},
                            _ => {
                                proof {
                                    assert(call_ensures(T::cmp, (&self@[k], &other@[k]), step));
                                    assert(decided_at(self@, other@, k, step));
                                }
                                return step;
                            },
                        }
                    },
                },
            }
        }
    }
}

} // verus!
