//! Container core: the list itself and its end operations.

use crate::arena::{Chain, Link};
use vstd::prelude::*;
use vstd::std_specs::cmp::PartialEqSpec;

verus! {

/// A doubly-linked list of `T`.
///
/// Its view is the sequence of its elements, front to back.
pub struct LinkedList<T> {
    chain: Chain<T>,
}

impl<T> View for LinkedList<T> {
    type V = Seq<T>;

    /// The elements, front to back.
    closed spec fn view(&self) -> Seq<T> {
        self.chain.view()
    }
}

impl<T> LinkedList<T> {
    /// Every list is a well-formed chain at all times.
    #[verifier::type_invariant]
    spec fn inv(&self) -> bool {
        self.chain.wf()
    }

    /// The arena slots of the elements, front to back.
    pub(crate) closed spec fn slots(&self) -> Seq<usize> {
        self.chain.slots()
    }

    /// The slot of the element at position `k`, or nothing outside the list.
    pub(crate) open spec fn slot_at(&self, k: int) -> Link {
        if 0 <= k < self.slots().len() {
            Some(self.slots()[k])
        } else {
            None
        }
    }

    /// There is one slot for each element.
    pub(crate) proof fn lemma_slots_len(&self)
        ensures
            self.slots().len() == self@.len(),
    {
    }

    /// An empty list.
    pub fn new() -> (list: LinkedList<T>)
        ensures
            list@ == Seq::<T>::empty(),
    {
        LinkedList { chain: Chain::new() }
    }

    /// The number of elements.
    pub fn len(&self) -> (n: usize)
        ensures
            n == self@.len(),
    {
        proof {
            use_type_invariant(self);
        }
        self.chain.count()
    }

    /// Whether the list holds no element.
    pub fn is_empty(&self) -> (b: bool)
        ensures
            b == (self@.len() == 0),
    {
        self.len() == 0
    }

    /// The slot of the first element.
    pub(crate) fn first_slot(&self) -> (r: Link)
        ensures
            r == self.slot_at(0),
    {
        proof {
            use_type_invariant(self);
        }
        self.chain.first()
    }

    /// The slot of the last element.
    pub(crate) fn last_slot(&self) -> (r: Link)
        ensures
            r == self.slot_at(self@.len() - 1),
    {
        proof {
            use_type_invariant(self);
        }
        self.chain.last()
    }

    /// The slot after `slot`, which holds the element at position `k`.
    pub(crate) fn next_slot(&self, Ghost(k): Ghost<int>, slot: usize) -> (r: Link)
        requires
            self.slot_at(k) == Some(slot),
        ensures
            r == self.slot_at(k + 1),
            self@.len() <= usize::MAX,
    {
        proof {
            use_type_invariant(self);
        }
        self.chain.next_of(Ghost(k), slot)
    }

    /// The slot before `slot`, which holds the element at position `k`.
    pub(crate) fn prev_slot(&self, Ghost(k): Ghost<int>, slot: usize) -> (r: Link)
        requires
            self.slot_at(k) == Some(slot),
        ensures
            r == self.slot_at(k - 1),
    {
        proof {
            use_type_invariant(self);
        }
        self.chain.prev_of(Ghost(k), slot)
    }

    /// The element in `slot`, which is the one at position `k`.
    pub(crate) fn value_at(&self, Ghost(k): Ghost<int>, slot: usize) -> (r: &T)
        requires
            self.slot_at(k) == Some(slot),
        ensures
            0 <= k < self@.len(),
            *r == self@[k],
    {
        proof {
            use_type_invariant(self);
        }
        self.chain.value(Ghost(k), slot)
    }

    /// Exclusive access to the element in `slot`, which is the one at
    /// position `k`.
    pub(crate) fn value_at_mut(&mut self, Ghost(k): Ghost<int>, slot: usize) -> (r: Option<&mut T>)
        requires
            old(self).slot_at(k) == Some(slot),
        ensures
            0 <= k < old(self)@.len(),
            r is Some,
            *r.unwrap() == old(self)@[k],
            final(self).slots() == old(self).slots(),
            final(self)@ == old(self)@.update(k, *final(r.unwrap())),
    {
        proof {
            use_type_invariant(&*self);
        }
        self.chain.value_mut(Ghost(k), slot)
    }

    /// Inserts `value` at position `k`, between the elements in slots
    /// `prev` and `next`, and returns the slot it went to.
    pub(crate) fn link(&mut self, Ghost(k): Ghost<int>, prev: Link, next: Link, value: T) -> (slot:
        usize)
        requires
            0 <= k <= old(self)@.len(),
            prev == old(self).slot_at(k - 1),
            next == old(self).slot_at(k),
        ensures
            final(self).slots() == old(self).slots().insert(k, slot),
            final(self)@ == old(self)@.insert(k, value),
            final(self)@.len() <= usize::MAX,
    {
        proof {
            use_type_invariant(&*self);
        }
        let mut chain = Chain::new();
        std::mem::swap(&mut chain, &mut self.chain);
        let slot = chain.link(Ghost(k), prev, next, value);
        self.chain = chain;
        slot
    }

    /// Removes the element in `slot`, which is the one at position `k`.
    pub(crate) fn unlink(&mut self, Ghost(k): Ghost<int>, slot: usize) -> (value: T)
        requires
            old(self).slot_at(k) == Some(slot),
        ensures
            0 <= k < old(self)@.len(),
            final(self).slots() == old(self).slots().remove(k),
            final(self)@ == old(self)@.remove(k),
            value == old(self)@[k],
    {
        proof {
            use_type_invariant(&*self);
        }
        let mut chain = Chain::new();
        std::mem::swap(&mut chain, &mut self.chain);
        let value = chain.unlink(Ghost(k), slot);
        self.chain = chain;
        value
    }

    /// Discards every element.
    pub fn clear(&mut self)
        ensures
            final(self)@ == Seq::<T>::empty(),
    {
        *self = LinkedList::new();
    }

    /// The first element, if there is one.
    pub fn front(&self) -> (r: Option<&T>)
        ensures
            match r {
                Some(v) => self@.len() > 0 && *v == self@.first(),
                None => self@.len() == 0,
            },
    {
        match self.first_slot() {
            Some(h) => Some(self.value_at(Ghost(0), h)),
            None => None,
        }
    }

    /// The last element, if there is one.
    pub fn back(&self) -> (r: Option<&T>)
        ensures
            match r {
                Some(v) => self@.len() > 0 && *v == self@.last(),
                None => self@.len() == 0,
            },
    {
        proof {
            self.lemma_slots_len();
        }
        match self.last_slot() {
            Some(t) => Some(self.value_at(Ghost(self@.len() - 1), t)),
            None => None,
        }
    }

    /// Exclusive access to the first element, if there is one. Writing
    /// through it changes that element and nothing else.
    pub fn front_mut(&mut self) -> (r: Option<&mut T>)
        ensures
            match r {
                Some(v) => old(self)@.len() > 0 && *v == old(self)@.first() && final(self)@ == old(
                    self,
                )@.update(0, *final(v)),
                None => old(self)@.len() == 0 && final(self)@ == old(self)@,
            },
    {
        match self.first_slot() {
            Some(h) => self.value_at_mut(Ghost(0), h),
            None => None,
        }
    }

    /// Exclusive access to the last element, if there is one. Writing
    /// through it changes that element and nothing else.
    pub fn back_mut(&mut self) -> (r: Option<&mut T>)
        ensures
            match r {
                Some(v) => old(self)@.len() > 0 && *v == old(self)@.last() && final(self)@ == old(
                    self,
                )@.update(old(self)@.len() - 1, *final(v)),
                None => old(self)@.len() == 0 && final(self)@ == old(self)@,
            },
    {
        proof {
            self.lemma_slots_len();
        }
        match self.last_slot() {
            Some(t) => self.value_at_mut(Ghost(self@.len() - 1), t),
            None => None,
        }
    }

    /// Adds `elt` before the first element.
    pub fn push_front(&mut self, elt: T)
        ensures
            final(self)@ == seq![elt] + old(self)@,
    {
        let head = self.first_slot();
        self.link(Ghost(0), None, head, elt);
        assert(old(self)@.insert(0, elt) =~= seq![elt] + old(self)@);
    }

    /// Adds `elt` after the last element.
    pub fn push_back(&mut self, elt: T)
        ensures
            final(self)@ == old(self)@.push(elt),
    {
        proof {
            self.lemma_slots_len();
        }
        let tail = self.last_slot();
        self.link(Ghost(self@.len() as int), tail, None, elt);
        assert(old(self)@.insert(old(self)@.len() as int, elt) =~= old(self)@.push(elt));
    }

    /// Removes the first element and returns it; `None` on an empty list.
    pub fn pop_front(&mut self) -> (r: Option<T>)
        ensures
            old(self)@.len() == 0 ==> r is None && final(self)@ == old(self)@,
            old(self)@.len() > 0 ==> r == Some(old(self)@.first()) && final(self)@ == old(
                self,
            )@.drop_first(),
    {
        proof {
            self.lemma_slots_len();
        }
        match self.first_slot() {
            Some(h) => {
                let v = self.unlink(Ghost(0), h);
                assert(old(self)@.remove(0) =~= old(self)@.drop_first());
                Some(v)
            },
            None => None,
        }
    }

    /// Removes the last element and returns it; `None` on an empty list.
    pub fn pop_back(&mut self) -> (r: Option<T>)
        ensures
            old(self)@.len() == 0 ==> r is None && final(self)@ == old(self)@,
            old(self)@.len() > 0 ==> r == Some(old(self)@.last()) && final(self)@ == old(
                self,
            )@.drop_last(),
    {
        proof {
            self.lemma_slots_len();
        }
        match self.last_slot() {
            Some(t) => {
                let v = self.unlink(Ghost(self@.len() - 1), t);
                assert(old(self)@.remove(old(self)@.len() - 1) =~= old(self)@.drop_last());
                Some(v)
            },
            None => None,
        }
    }

    /// Moves every element of `other`, in order, to the back of this list
    /// and leaves `other` empty. Only the shorter of the two lists has its
    /// nodes moved.
    pub fn append(&mut self, other: &mut LinkedList<T>)
        ensures
            final(self)@ == old(self)@ + old(other)@,
            final(other)@ == Seq::<T>::empty(),
    {
        let ghost mine = self@;
        let ghost theirs = other@;
        if other.len() <= self.len() {
            while other.len() > 0
                invariant
                    other@.len() <= theirs.len(),
                    other@ == theirs.subrange(theirs.len() - other@.len(), theirs.len() as int),
                    self@ == mine + theirs.subrange(0, theirs.len() - other@.len()),
                decreases other@.len(),
            {
                let ghost rest = other@;
                let ghost sofar = self@;
                let v = other.pop_front().unwrap();
                self.push_back(v);
                proof {
                    assert(other@ =~= theirs.subrange(
                        theirs.len() - other@.len(),
                        theirs.len() as int,
                    ));
                    assert(sofar.push(v) =~= mine + theirs.subrange(
                        0,
                        theirs.len() - other@.len(),
                    ));
                }
            }
            proof {
                assert(theirs.subrange(0, theirs.len() as int) =~= theirs);
            }
        } else {
            while self.len() > 0
                invariant
                    self@.len() <= mine.len(),
                    self@ == mine.subrange(0, self@.len() as int),
                    other@ == mine.subrange(self@.len() as int, mine.len() as int) + theirs,
                decreases self@.len(),
            {
                let ghost rest = self@;
                let ghost sofar = other@;
                let v = self.pop_back().unwrap();
                other.push_front(v);
                proof {
                    assert(self@ =~= mine.subrange(0, self@.len() as int));
                    assert(seq![v] + sofar =~= mine.subrange(
                        self@.len() as int,
                        mine.len() as int,
                    ) + theirs);
                }
            }
            proof {
                assert(mine.subrange(0, mine.len() as int) =~= mine);
            }
            std::mem::swap(self, other);
        }
        other.clear();
    }

    /// The slot of the element at position `at`, reached from the nearer
    /// end of the list.
    pub(crate) fn seek(&self, at: usize) -> (slot: usize)
        requires
            at < self@.len(),
        ensures
            self.slot_at(at as int) == Some(slot),
    {
        proof {
            self.lemma_slots_len();
        }
        let len = self.len();
        if at <= len - 1 - at {
            let mut slot = self.first_slot().unwrap();
            let mut k: usize = 0;
            while k < at
                invariant
                    k <= at < self@.len(),
                    self.slot_at(k as int) == Some(slot),
                decreases at - k,
            {
                proof {
                    self.lemma_slots_len();
                }
                slot = self.next_slot(Ghost(k as int), slot).unwrap();
                k = k + 1;
            }
            slot
        } else {
            let mut slot = self.last_slot().unwrap();
            let mut k: usize = len - 1;
            while k > at
                invariant
                    at <= k < self@.len(),
                    self.slot_at(k as int) == Some(slot),
                decreases k - at,
            {
                proof {
                    self.lemma_slots_len();
                }
                slot = self.prev_slot(Ghost(k as int), slot).unwrap();
                k = k - 1;
            }
            slot
        }
    }

    /// Removes the element at position `at` and returns it.
    pub fn remove(&mut self, at: usize) -> (r: T)
        requires
            at < old(self)@.len(),
        ensures
            r == old(self)@[at as int],
            final(self)@ == old(self)@.remove(at as int),
    {
        let slot = self.seek(at);
        self.unlink(Ghost(at as int), slot)
    }

    /// Splits the list at position `at`: the elements from `at` on leave
    /// the list and are returned, in order; those before `at` stay. Only
    /// the shorter of the two parts has its nodes moved.
    pub fn split_off(&mut self, at: usize) -> (r: LinkedList<T>)
        requires
            at <= old(self)@.len(),
        ensures
            final(self)@ == old(self)@.subrange(0, at as int),
            r@ == old(self)@.subrange(at as int, old(self)@.len() as int),
    {
        let ghost whole = self@;
        let len = self.len();
        let mut part = LinkedList::new();
        if at <= len - at {
            while part.len() < at
                invariant
                    at <= whole.len(),
                    part@.len() <= at,
                    part@ == whole.subrange(0, part@.len() as int),
                    self@ == whole.subrange(part@.len() as int, whole.len() as int),
                decreases at - part@.len(),
            {
                let ghost sofar = part@;
                let v = self.pop_front().unwrap();
                part.push_back(v);
                proof {
                    assert(part@ =~= whole.subrange(0, part@.len() as int));
                    assert(self@ =~= whole.subrange(part@.len() as int, whole.len() as int));
                }
            }
            std::mem::swap(self, &mut part);
        } else {
            while self.len() > at
                invariant
                    at <= self@.len() <= whole.len(),
                    self@ == whole.subrange(0, self@.len() as int),
                    part@ == whole.subrange(self@.len() as int, whole.len() as int),
                decreases self@.len(),
            {
                let ghost sofar = part@;
                let v = self.pop_back().unwrap();
                part.push_front(v);
                proof {
                    assert(self@ =~= whole.subrange(0, self@.len() as int));
                    assert(part@ =~= whole.subrange(self@.len() as int, whole.len() as int));
                }
            }
        }
        part
    }

    /// Whether some element equals `x`.
    pub fn contains(&self, x: &T) -> (found: bool) where T: PartialEq
        ensures
            self@.len() == 0 ==> !found,
            T::obeys_eq_spec() ==> found == exists|i: int|
                0 <= i < self@.len() && #[trigger] self@[i].eq_spec(x),
            found ==> exists|i: int|
                0 <= i < self@.len() && #[trigger] call_ensures(T::eq, (&self@[i], x), true),
            !found ==> forall|i: int|
                0 <= i < self@.len() ==> #[trigger] call_ensures(T::eq, (&self@[i], x), false),
    {
        proof {
            self.lemma_slots_len();
        }
        let mut cur = self.first_slot();
        let mut k: usize = 0;
        loop
            invariant
                k <= self@.len(),
                cur == self.slot_at(k as int),
                T::obeys_eq_spec() ==> forall|i: int| 0 <= i < k ==> !#[trigger] self@[i].eq_spec(x),
                forall|i: int| 0 <= i < k ==> #[trigger] call_ensures(T::eq, (&self@[i], x), false),
            decreases self@.len() - k,
        {
            proof {
                self.lemma_slots_len();
            }
            match cur {
                None => {
                    return false;
                },
                Some(s) => {
                    if *self.value_at(Ghost(k as int), s) == *x {
                        return true;
                    }
                    cur = self.next_slot(Ghost(k as int), s);
                    k = k + 1;
                },
            }
        }
    }
}

} // verus!
