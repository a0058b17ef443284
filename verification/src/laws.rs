//! Laws that relate the operations of the library to one another, stated
//! over the views their contracts speak of.

use crate::compare::{seq_eq, seq_partial_cmp};
use crate::list::LinkedList;
use crate::model::{end_run, in_span, lemma_select_all, pops, pushes, sifted, EndOp};
use std::cmp::Ordering;
use vstd::prelude::*;
use vstd::std_specs::cmp::{PartialEqSpec, PartialOrdIs, PartialOrdSpec};

verus! {

/// After any sequence of pushes and pops at either end, the length is the
/// length at the start plus the number of pushes minus the number of pops
/// that found an element.
pub proof fn law_end_ops_length<T>(s: Seq<T>, ops: Seq<EndOp<T>>)
    ensures
        end_run(s, ops).len() == s.len() + pushes(ops) - pops(s, ops),
    decreases ops.len(),
{
    if ops.len() > 0 {
        law_end_ops_length(s, ops.drop_last());
    }
}

/// Splitting a list at any position of it and appending what was split
/// off to what stayed gives the list back.
pub proof fn law_split_off_append<T>(s: Seq<T>, at: int)
    requires
        0 <= at <= s.len(),
    ensures
        s.subrange(0, at) + s.subrange(at, s.len() as int) == s,
{
    assert(s.subrange(0, at) + s.subrange(at, s.len() as int) =~= s);
}

/// A pass whose predicate accepts every element and changes none takes
/// out all the elements it examines, in their order, and leaves none of
/// them in the list.
pub proof fn law_drain_accepts_all<T, F: FnMut(&mut T) -> bool>(
    pred: F,
    examined: Seq<T>,
    after: Seq<T>,
    verdicts: Seq<bool>,
    taken: Seq<T>,
    left: Seq<T>,
)
    requires
        forall|x: &mut T, b: bool| #[trigger] call_ensures(pred, (x,), b) ==> b && *final(x) == *x,
        sifted(after, verdicts, taken, left),
        after.len() == examined.len(),
        forall|j: int| #[trigger]
            in_span(j, 0, after.len() as int) ==> exists|x: &mut T|
                *x == examined[j] && *final(x) == after[j] && #[trigger] call_ensures(
                    pred,
                    (x,),
                    verdicts[j],
                ),
    ensures
        taken == examined,
        left == Seq::<T>::empty(),
{
    assert forall|j: int| 0 <= j < after.len() implies #[trigger] verdicts[j] by {
        assert(in_span(j, 0, after.len() as int));
    }
    assert forall|j: int| 0 <= j < after.len() implies #[trigger] after[j] == examined[j] by {
        assert(in_span(j, 0, after.len() as int));
    }
    lemma_select_all(after, verdicts, true);
    assert(after =~= examined);
}

/// A pass whose predicate rejects every element and changes none takes
/// nothing out and leaves the elements it examines as they were.
pub proof fn law_drain_rejects_all<T, F: FnMut(&mut T) -> bool>(
    pred: F,
    examined: Seq<T>,
    after: Seq<T>,
    verdicts: Seq<bool>,
    taken: Seq<T>,
    left: Seq<T>,
)
    requires
        forall|x: &mut T, b: bool| #[trigger] call_ensures(pred, (x,), b) ==> !b && *final(x) == *x,
        sifted(after, verdicts, taken, left),
        after.len() == examined.len(),
        forall|j: int| #[trigger]
            in_span(j, 0, after.len() as int) ==> exists|x: &mut T|
                *x == examined[j] && *final(x) == after[j] && #[trigger] call_ensures(
                    pred,
                    (x,),
                    verdicts[j],
                ),
    ensures
        taken == Seq::<T>::empty(),
        left == examined,
{
    assert forall|j: int| 0 <= j < after.len() implies !#[trigger] verdicts[j] by {
        assert(in_span(j, 0, after.len() as int));
    }
    assert forall|j: int| 0 <= j < after.len() implies #[trigger] after[j] == examined[j] by {
        assert(in_span(j, 0, after.len() as int));
    }
    lemma_select_all(after, verdicts, false);
    assert(after =~= examined);
}

/// Where two sequences agree up to position `k` and their elements at `k`
/// do not compare equal, the sequences compare as those elements do. In
/// particular, where those elements cannot be compared, neither can the
/// sequences: none of `<`, `<=`, `>`, `>=` holds between them.
pub proof fn law_first_difference_decides<T: PartialOrd>(a: Seq<T>, b: Seq<T>, k: int)
    requires
        0 <= k < a.len(),
        k < b.len(),
        forall|i: int| 0 <= i < k ==> #[trigger] a[i].partial_cmp_spec(&b[i]) == Some(Ordering::Equal),
        a[k].partial_cmp_spec(&b[k]) != Some(Ordering::Equal),
    ensures
        seq_partial_cmp(a, b) == a[k].partial_cmp_spec(&b[k]),
    decreases k,
{
    if k > 0 {
        let a1 = a.drop_first();
        let b1 = b.drop_first();
        assert forall|i: int| 0 <= i < k - 1 implies #[trigger] a1[i].partial_cmp_spec(&b1[i]) == Some(
            Ordering::Equal,
        ) by {
            assert(a1[i] == a[i + 1]);
            assert(b1[i] == b[i + 1]);
            assert(a[i + 1].partial_cmp_spec(&b[i + 1]) == Some(Ordering::Equal));
        }
        law_first_difference_decides(a1, b1, k - 1);
        assert(a[0].partial_cmp_spec(&b[0]) == Some(Ordering::Equal));
    }
}

/// Two lists that agree up to a position at which their elements cannot
/// be compared cannot be compared either: none of `<`, `<=`, `>`, `>=`
/// holds between them.
pub proof fn law_incomparable_lists<T: PartialOrd>(a: LinkedList<T>, b: LinkedList<T>, k: int)
    requires
        0 <= k < a@.len(),
        k < b@.len(),
        forall|i: int|
            0 <= i < k ==> #[trigger] a@[i].partial_cmp_spec(&b@[i]) == Some(Ordering::Equal),
        a@[k].partial_cmp_spec(&b@[k]) is None,
    ensures
        a.partial_cmp_spec(&b) is None,
        !a.is_lt(&b),
        !a.is_le(&b),
        !a.is_gt(&b),
        !a.is_ge(&b),
{
    law_first_difference_decides(a@, b@, k);
}

/// Two lists that hold the same elements in the same order are equal,
/// however each was built, provided every element equals itself.
pub proof fn law_same_elements_equal<T: PartialEq>(a: LinkedList<T>, b: LinkedList<T>)
    requires
        a@ == b@,
        forall|i: int| 0 <= i < a@.len() ==> #[trigger] a@[i].eq_spec(&a@[i]),
    ensures
        a.eq_spec(&b),
        seq_eq(a@, b@),
{
}

/// Taking the elements of a list out into a vector and building a list
/// from that vector gives a list with the same elements in the same
/// order.
pub proof fn law_round_trip<T>(list: LinkedList<T>, items: Vec<T>, rebuilt: LinkedList<T>)
    requires
        items@ == list@,
        rebuilt@ == items@,
    ensures
        rebuilt@ == list@,
{
}

} // verus!
