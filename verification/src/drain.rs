//! Filtered extraction: one pass over a list that takes out the elements
//! a predicate accepts and leaves the others in place.

use crate::arena::Link;
use crate::list::LinkedList;
use crate::model::{in_span, lemma_select_extend, lemma_select_push, select, sifted};
use vstd::prelude::*;

verus! {

broadcast use vstd::function::group_function_axioms;

/// Whether `pred` may be called on an element worth `value`.
pub open spec fn callable_on<T, F: FnMut(&mut T) -> bool>(pred: F, value: T) -> bool {
    forall|x: &mut T| *x == value ==> #[trigger] call_requires(pred, (x,))
}

/// A pass over a list that removes and hands out the elements for which
/// `pred` answers `true`.
///
/// The elements before [`DrainFilter::kept`] have been examined and stay in
/// the list; the others are still to be examined. The predicate receives
/// each element by exclusive reference and may change it.
pub struct DrainFilter<'a, T, F: FnMut(&mut T) -> bool> {
    current: Link,
    index: usize,
    pred: F,
    list: &'a mut LinkedList<T>,
}

impl<'a, T, F: FnMut(&mut T) -> bool> DrainFilter<'a, T, F> {
    /// The exclusive borrow of the list being filtered. Its current value
    /// is the list as the pass has left it so far.
    pub closed spec fn list(&self) -> &'a mut LinkedList<T> {
        self.list
    }

    /// The predicate.
    pub closed spec fn pred(&self) -> F {
        self.pred
    }

    /// How many elements at the front of the list have been examined and
    /// kept.
    pub closed spec fn kept(&self) -> int {
        self.index as int
    }

    /// The pass stands inside its list, and the predicate may be called on
    /// each element still to be examined.
    pub closed spec fn wf(&self) -> bool {
        &&& self.index <= self.list@.len()
        &&& self.current == self.list.slot_at(self.index as int)
        &&& forall|j: int|
            self.index <= j < self.list@.len() ==> #[trigger] callable_on(self.pred, self.list@[j])
    }

    /// A well-formed pass has kept no more elements than the list holds.
    pub proof fn lemma_kept(&self)
        requires
            self.wf(),
        ensures
            0 <= self.kept() <= self.list()@.len(),
    {
    }

    /// Once the pass is no longer used, the borrowed list is what the pass
    /// made of it.
    pub proof fn lemma_released(self)
        requires
            has_resolved(self),
        ensures
            *final(self.list()) == *self.list(),
    {
    }

    /// Bounds on the number of elements still to be handed out: none is
    /// promised, and at most those not yet examined.
    pub fn size_hint(&self) -> (r: (usize, Option<usize>))
        requires
            self.wf(),
        ensures
            r.0 == 0,
            r.1 == Some((self.list()@.len() - self.kept()) as usize),
    {
        (0, Some(self.list.len() - self.index))
    }

    /// Examines elements, front to back, from the first one not yet
    /// examined, until the predicate accepts one; removes that element
    /// from the list and returns it. Returns `None` when the predicate has
    /// rejected every element up to the end of the list.
    pub fn next(&mut self) -> (r: Option<T>)
        requires
            old(self).wf(),
        ensures
            final(self).wf(),
            *final(final(self).list()) == *final(old(self).list()),
            final(self).pred() == old(self).pred(),
            old(self).kept() <= final(self).kept() <= old(self).list()@.len(),
            forall|j: int|
                0 <= j < old(self).kept() ==> final(self).list()@[j] == old(self).list()@[j],
            forall|j: int| #[trigger]
                in_span(j, old(self).kept(), final(self).kept()) ==> exists|x: &mut T|
                    *x == old(self).list()@[j] && *final(x) == final(self).list()@[j]
                        && #[trigger] call_ensures(old(self).pred(), (x,), false),
            match r {
                Some(v) => {
                    &&& final(self).kept() < old(self).list()@.len()
                    &&& final(self).list()@.len() == old(self).list()@.len() - 1
                    &&& exists|x: &mut T|
                        *x == old(self).list()@[final(self).kept()] && *final(x) == v
                            && #[trigger] call_ensures(old(self).pred(), (x,), true)
                    &&& forall|j: int|
                        final(self).kept() <= j < final(self).list()@.len() ==> final(
                            self).list()@[j] == old(self).list()@[j + 1]
                },
                None => {
                    &&& final(self).kept() == old(self).list()@.len()
                    &&& final(self).list()@.len() == old(self).list()@.len()
                },
            },
    {
        let ghost before = self.list@;
        let ghost start = self.index as int;
        proof {
            self.list.lemma_slots_len();
        }
        loop
            invariant
                self.wf(),
                *final(self.list()) == *final(old(self).list()),
                self.pred() == old(self).pred(),
                start == old(self).kept(),
                before == old(self).list()@,
                start <= self.index <= before.len(),
                self.list()@.len() == before.len(),
                forall|j: int| 0 <= j < start ==> self.list()@[j] == before[j],
                forall|j: int| #[trigger]
                    in_span(j, start, self.index as int) ==> exists|x: &mut T|
                        *x == before[j] && *final(x) == self.list()@[j] && #[trigger] call_ensures(
                            old(self).pred(),
                            (x,),
                            false,
                        ),
                forall|j: int| self.index <= j < before.len() ==> self.list()@[j] == before[j],
            decreases before.len() - self.index,
        {
            let ghost sofar = self.list@;
            proof {
                self.list.lemma_slots_len();
            }
            match self.current {
                None => {
                    return None;
                },
                Some(s) => {
                    let next = self.list.next_slot(Ghost(self.index as int), s);
                    assert(callable_on(self.pred, self.list@[self.index as int]));
                    let hit = match self.list.value_at_mut(Ghost(self.index as int), s) {
                        Some(v) => (self.pred)(v),
                        None => false,
                    };
                    proof {
                        self.list.lemma_slots_len();
                    }
                    if hit {
                        let v = self.list.unlink(Ghost(self.index as int), s);
                        self.current = next;
                        proof {
                            self.list.lemma_slots_len();
                        }
                        return Some(v);
                    } else {
                        self.current = next;
                        self.index = self.index + 1;
                        proof {
                            assert forall|j: int| #[trigger]
                                in_span(j, start, self.index as int) implies exists|x: &mut T|
                                *x == before[j] && *final(x) == self.list()@[j]
                                    && #[trigger] call_ensures(old(self).pred(), (x,), false) by {
                                if j < self.index - 1 {
                                    assert(in_span(j, start, self.index - 1));
                                }
                            }
                        }
                    }
                },
            }
        }
    }
}

impl<'a, T, F: FnMut(&mut T) -> bool> DrainFilter<'a, T, F> {
    /// Runs the pass to the end of the list and returns the elements it
    /// removed, in order. Every element not yet examined is examined
    /// exactly once: those the predicate accepts leave the list, the
    /// others stay, in order, as the predicate left them.
    pub fn collect(self) -> (items: Vec<T>)
        requires
            self.wf(),
        ensures
            exists|verdicts: Seq<bool>, after: Seq<T>|
                {
                    &&& #[trigger] sifted(
                        after,
                        verdicts,
                        items@,
                        final(self.list())@.subrange(
                            self.kept(),
                            final(self.list())@.len() as int,
                        ),
                    )
                    &&& after.len() == self.list()@.len() - self.kept()
                    &&& self.kept() <= final(self.list())@.len()
                    &&& final(self.list())@.subrange(0, self.kept()) == self.list()@.subrange(
                        0,
                        self.kept(),
                    )
                    &&& forall|j: int| #[trigger]
                        in_span(j, 0, after.len() as int) ==> exists|x: &mut T|
                            *x == self.list()@[self.kept() + j] && *final(x) == after[j]
                                && #[trigger] call_ensures(self.pred(), (x,), verdicts[j])
                },
    {
        let mut pass = self;
        let mut items: Vec<T> = Vec::new();
        let ghost orig = pass.list@;
        let ghost base = pass.index as int;
        let ghost mut verdicts: Seq<bool> = Seq::empty();
        let ghost mut after: Seq<T> = Seq::empty();
        proof {
            assert(pass.list@ =~= orig.subrange(0, base) + select(after, verdicts, false)
                + orig.subrange(base + after.len(), orig.len() as int));
        }
        loop
            invariant
                pass.wf(),
                *final(pass.list()) == *final(self.list()),
                pass.pred() == self.pred(),
                orig == self.list()@,
                base == self.kept(),
                0 <= base <= orig.len(),
                verdicts.len() == after.len(),
                after.len() <= orig.len() - base,
                items@ == select(after, verdicts, true),
                pass.kept() == base + select(after, verdicts, false).len(),
                pass.list()@ == orig.subrange(0, base) + select(after, verdicts, false)
                    + orig.subrange(base + after.len(), orig.len() as int),
                forall|j: int| #[trigger]
                    in_span(j, 0, after.len() as int) ==> exists|x: &mut T|
                        *x == orig[base + j] && *final(x) == after[j] && #[trigger] call_ensures(
                            self.pred(),
                            (x,),
                            verdicts[j],
                        ),
            decreases orig.len() - base - after.len(),
        {
            let ghost before = pass.list@;
            let ghost k0 = pass.kept();
            let ghost seen = after;
            let ghost marks = verdicts;
            let ghost stayed = select(after, verdicts, false);
            let next = pass.next();
            let ghost now = pass.list@;
            let ghost k1 = pass.kept();
            let ghost rejected = now.subrange(k0, k1);
            let ghost falses = Seq::new(rejected.len(), |i: int| false);
            proof {
                lemma_select_extend(seen, marks, rejected, false, true);
                lemma_select_extend(seen, marks, rejected, false, false);
                assert forall|j: int| #[trigger]
                    in_span(j, 0, (seen.len() + rejected.len()) as int) implies exists|x: &mut T|
                    *x == orig[base + j] && *final(x) == (seen + rejected)[j]
                        && #[trigger] call_ensures(self.pred(), (x,), (marks + falses)[j]) by {
                    assert(rejected.len() == k1 - k0);
                    if j < seen.len() {
                        assert(in_span(j, 0, seen.len() as int));
                        assert((seen + rejected)[j] == seen[j]);
                        assert((marks + falses)[j] == marks[j]);
                    } else {
                        let jj = k0 + (j - seen.len());
                        assert(in_span(jj, k0, k1));
                        assert(before[jj] == orig[base + j]);
                        assert(now[jj] == rejected[j - seen.len()]);
                        assert((seen + rejected)[j] == rejected[j - seen.len()]);
                        assert((marks + falses)[j] == false);
                    }
                }
            }
            match next {
                Some(v) => {
                    items.push(v);
                    proof {
                        lemma_select_push(seen + rejected, marks + falses, v, true, true);
                        lemma_select_push(seen + rejected, marks + falses, v, true, false);
                        after = (seen + rejected).push(v);
                        verdicts = (marks + falses).push(true);
                        assert(now =~= orig.subrange(0, base) + (stayed + rejected) + orig.subrange(
                            base + after.len(),
                            orig.len() as int,
                        )) by {
                            assert forall|j: int| 0 <= j < now.len() implies now[j] == (orig.subrange(
                                0,
                                base,
                            ) + (stayed + rejected) + orig.subrange(
                                base + after.len(),
                                orig.len() as int,
                            ))[j] by {
                                if j < k0 {
                                    assert(now[j] == before[j]);
                                } else if j < k1 {
                                    assert(now[j] == rejected[j - k0]);
                                } else {
                                    assert(now[j] == before[j + 1]);
                                }
                            }
                        }
                        assert forall|j: int| #[trigger]
                            in_span(j, 0, after.len() as int) implies exists|x: &mut T|
                            *x == orig[base + j] && *final(x) == after[j] && #[trigger] call_ensures(
                                self.pred(),
                                (x,),
                                verdicts[j],
                            ) by {
                            if j < seen.len() + rejected.len() {
                                assert(in_span(j, 0, (seen.len() + rejected.len()) as int));
                                assert(after[j] == (seen + rejected)[j]);
                                assert(verdicts[j] == (marks + falses)[j]);
                            } else {
                                assert(before[k1] == orig[base + j]);
                            }
                        }
                    }
                },
                None => {
                    proof {
                        after = seen + rejected;
                        verdicts = marks + falses;
                        assert(now =~= orig.subrange(0, base) + (stayed + rejected)) by {
                            assert forall|j: int| 0 <= j < now.len() implies now[j] == (orig.subrange(
                                0,
                                base,
                            ) + (stayed + rejected))[j] by {
                                if j < k0 {
                                    assert(now[j] == before[j]);
                                } else {
                                    assert(now[j] == rejected[j - k0]);
                                }
                            }
                        }
                        assert(now.subrange(base, now.len() as int) =~= stayed + rejected);
                        assert(now.subrange(0, base) =~= orig.subrange(0, base));
                        assert(sifted(
                            after,
                            verdicts,
                            items@,
                            now.subrange(base, now.len() as int),
                        ));
                    }
                    return items;
                },
            }
        }
    }

    /// Runs the pass to the end of the list and discards the elements it
    /// removes. This is how a pass is completed when its remaining results
    /// are not wanted.
    pub fn finish(self)
        requires
            self.wf(),
        ensures
            exists|verdicts: Seq<bool>, after: Seq<T>, taken: Seq<T>|
                {
                    &&& #[trigger] sifted(
                        after,
                        verdicts,
                        taken,
                        final(self.list())@.subrange(
                            self.kept(),
                            final(self.list())@.len() as int,
                        ),
                    )
                    &&& after.len() == self.list()@.len() - self.kept()
                    &&& self.kept() <= final(self.list())@.len()
                    &&& final(self.list())@.subrange(0, self.kept()) == self.list()@.subrange(
                        0,
                        self.kept(),
                    )
                    &&& forall|j: int| #[trigger]
                        in_span(j, 0, after.len() as int) ==> exists|x: &mut T|
                            *x == self.list()@[self.kept() + j] && *final(x) == after[j]
                                && #[trigger] call_ensures(self.pred(), (x,), verdicts[j])
                },
    {
        let _ = self.collect();
    }
}

impl<T> LinkedList<T> {
    /// Starts a pass that removes the elements `filter` accepts. Nothing
    /// is examined until the pass is advanced.
    pub fn drain_filter<F: FnMut(&mut T) -> bool>(&mut self, filter: F) -> (d: DrainFilter<'_, T, F>)
        requires
            forall|j: int| 0 <= j < old(self)@.len() ==> #[trigger] callable_on(filter, old(self)@[j]),
        ensures
            d.wf(),
            *d.list() == *old(self),
            *final(d.list()) == *final(self),
            d.pred() == filter,
            d.kept() == 0,
    {
        let current = self.first_slot();
        DrainFilter { current, index: 0, pred: filter, list: self }
    }
}

} // verus!
