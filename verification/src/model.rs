//! Mathematical model of the positions a cursor can take.
//!
//! A list of `len` elements has `len + 1` cursor positions: one on each
//! element, written `Some(i)`, and the ghost position between the last and
//! the first element, written `None`.

use vstd::prelude::*;

verus! {

/// Whether index `j` lies in the half-open span from `lo` up to `hi`.
pub open spec fn in_span(j: int, lo: int, hi: int) -> bool {
    lo <= j < hi
}

/// Whether `p` is a position of a list of `len` elements.
pub open spec fn position_valid(p: Option<int>, len: int) -> bool {
    match p {
        Some(i) => 0 <= i < len,
        None => true,
    }
}

/// The position one step forward from `p`: the last element is followed by
/// the ghost position, and the ghost position by the first element.
pub open spec fn position_after(p: Option<int>, len: int) -> Option<int> {
    match p {
        Some(i) => if i + 1 < len {
            Some(i + 1)
        } else {
            None
        },
        None => if len > 0 {
            Some(0)
        } else {
            None
        },
    }
}

/// The position one step backward from `p`: the first element is preceded
/// by the ghost position, and the ghost position by the last element.
pub open spec fn position_before(p: Option<int>, len: int) -> Option<int> {
    match p {
        Some(i) => if i > 0 {
            Some(i - 1)
        } else {
            None
        },
        None => if len > 0 {
            Some(len - 1)
        } else {
            None
        },
    }
}

/// The element of `s` at position `p`, or nothing at the ghost position.
pub open spec fn element_at<T>(s: Seq<T>, p: Option<int>) -> Option<T> {
    match p {
        Some(i) => if 0 <= i < s.len() {
            Some(s[i])
        } else {
            None
        },
        None => None,
    }
}

/// The elements of `s` whose mark in `mask` is `want`, in order.
pub open spec fn select<T>(s: Seq<T>, mask: Seq<bool>, want: bool) -> Seq<T>
    decreases s.len(),
{
    if s.len() == 0 || mask.len() != s.len() {
        Seq::empty()
    } else if mask.last() == want {
        select(s.drop_last(), mask.drop_last(), want).push(s.last())
    } else {
        select(s.drop_last(), mask.drop_last(), want)
    }
}

/// `taken` and `left` are what a pass with the given verdicts makes of the
/// elements `s`: the accepted ones and the rejected ones, each in order.
pub open spec fn sifted<T>(s: Seq<T>, verdicts: Seq<bool>, taken: Seq<T>, left: Seq<T>) -> bool {
    &&& verdicts.len() == s.len()
    &&& taken == select(s, verdicts, true)
    &&& left == select(s, verdicts, false)
}

/// Selecting from a sequence extended by one element.
pub proof fn lemma_select_push<T>(s: Seq<T>, mask: Seq<bool>, x: T, mark: bool, want: bool)
    requires
        mask.len() == s.len(),
    ensures
        select(s.push(x), mask.push(mark), want) == if mark == want {
            select(s, mask, want).push(x)
        } else {
            select(s, mask, want)
        },
{
    assert(s.push(x).drop_last() =~= s);
    assert(mask.push(mark).drop_last() =~= mask);
}

/// Selecting from a sequence extended by elements that all carry the same
/// mark: they are all selected, or none of them is.
pub proof fn lemma_select_extend<T>(s: Seq<T>, mask: Seq<bool>, more: Seq<T>, mark: bool, want: bool)
    requires
        mask.len() == s.len(),
    ensures
        select(s + more, mask + Seq::new(more.len(), |i: int| mark), want) == if mark == want {
            select(s, mask, want) + more
        } else {
            select(s, mask, want)
        },
    decreases more.len(),
{
    let marks = Seq::new(more.len(), |i: int| mark);
    if more.len() == 0 {
        assert(s + more =~= s);
        assert(mask + marks =~= mask);
        assert(select(s, mask, want) + more =~= select(s, mask, want));
    } else {
        let fewer = more.drop_last();
        let fewer_marks = Seq::new(fewer.len(), |i: int| mark);
        lemma_select_extend(s, mask, fewer, mark, want);
        lemma_select_push(s + fewer, mask + fewer_marks, more.last(), mark, want);
        assert((s + fewer).push(more.last()) =~= s + more);
        assert((mask + fewer_marks).push(mark) =~= mask + marks);
        assert((select(s, mask, want) + fewer).push(more.last()) =~= select(s, mask, want) + more);
    }
}

/// Where every mark is `want`, everything is selected.
pub proof fn lemma_select_all<T>(s: Seq<T>, mask: Seq<bool>, want: bool)
    requires
        mask.len() == s.len(),
        forall|i: int| 0 <= i < mask.len() ==> mask[i] == want,
    ensures
        select(s, mask, want) == s,
        select(s, mask, !want) == Seq::<T>::empty(),
    decreases s.len(),
{
    if s.len() > 0 {
        lemma_select_all(s.drop_last(), mask.drop_last(), want);
        assert(s.drop_last().push(s.last()) =~= s);
    }
}

/// An operation on one end of a list.
pub enum EndOp<T> {
    PushFront(T),
    PushBack(T),
    PopFront,
    PopBack,
}

/// What an end operation makes of the sequence `s`.
pub open spec fn end_step<T>(s: Seq<T>, op: EndOp<T>) -> Seq<T> {
    match op {
        EndOp::PushFront(v) => seq![v] + s,
        EndOp::PushBack(v) => s.push(v),
        EndOp::PopFront => if s.len() > 0 {
            s.drop_first()
        } else {
            s
        },
        EndOp::PopBack => if s.len() > 0 {
            s.drop_last()
        } else {
            s
        },
    }
}

/// What the end operations `ops`, applied in order, make of `s`.
pub open spec fn end_run<T>(s: Seq<T>, ops: Seq<EndOp<T>>) -> Seq<T>
    decreases ops.len(),
{
    if ops.len() == 0 {
        s
    } else {
        end_step(end_run(s, ops.drop_last()), ops.last())
    }
}

/// How many of the operations `ops` are pushes.
pub open spec fn pushes<T>(ops: Seq<EndOp<T>>) -> int
    decreases ops.len(),
{
    if ops.len() == 0 {
        0
    } else {
        pushes(ops.drop_last()) + match ops.last() {
            EndOp::PushFront(_) => 1int,
            EndOp::PushBack(_) => 1int,
            _ => 0int,
        }
    }
}

/// How many of the operations `ops`, applied in order to `s`, are pops
/// that find an element to remove.
pub open spec fn pops<T>(s: Seq<T>, ops: Seq<EndOp<T>>) -> int
    decreases ops.len(),
{
    if ops.len() == 0 {
        0
    } else {
        pops(s, ops.drop_last()) + match ops.last() {
            EndOp::PopFront => if end_run(s, ops.drop_last()).len() > 0 {
                1int
            } else {
                0int
            },
            EndOp::PopBack => if end_run(s, ops.drop_last()).len() > 0 {
                1int
            } else {
                0int
            },
            _ => 0int,
        }
    }
}

} // verus!
