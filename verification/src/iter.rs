//! Double-ended traversal of a list: by shared reference, by exclusive
//! reference, and by value.

use crate::arena::Link;
use crate::list::LinkedList;
use vstd::prelude::*;

verus! {

/// A traversal that yields shared references, from either end.
pub struct Iter<'a, T> {
    head: Link,
    tail: Link,
    left: usize,
    front: Ghost<int>,
    list: &'a LinkedList<T>,
}

/// A traversal that yields exclusive references, from either end, each
/// element at most once.
pub struct IterMut<'a, T> {
    head: Link,
    tail: Link,
    left: usize,
    front: Ghost<int>,
    list: &'a mut LinkedList<T>,
}

/// A traversal that owns the list and takes its elements out, from either
/// end.
pub struct IntoIter<T> {
    list: LinkedList<T>,
}

impl<'a, T> Iter<'a, T> {
    /// The list being traversed.
    pub closed spec fn list(&self) -> &'a LinkedList<T> {
        self.list
    }

    /// The index in the list of the next element from the front.
    pub closed spec fn front_index(&self) -> int {
        self.front@
    }

    /// The number of elements not yet yielded.
    pub closed spec fn remaining_len(&self) -> int {
        self.left as int
    }

    /// The elements not yet yielded, front to back.
    pub open spec fn remaining(&self) -> Seq<T> {
        self.list()@.subrange(self.front_index(), self.front_index() + self.remaining_len())
    }

    /// The traversal covers a stretch of its list and stands on both ends
    /// of it.
    pub closed spec fn wf(&self) -> bool {
        &&& 0 <= self.front@
        &&& self.front@ + self.left <= self.list@.len()
        &&& self.left > 0 ==> self.head == self.list.slot_at(self.front@) && self.tail
            == self.list.slot_at(self.front@ + self.left - 1)
    }

    /// A well-formed traversal covers a stretch inside its list.
    pub proof fn lemma_bounds(&self)
        requires
            self.wf(),
        ensures
            0 <= self.front_index(),
            0 <= self.remaining_len(),
            self.front_index() + self.remaining_len() <= self.list()@.len(),
            self.remaining().len() == self.remaining_len(),
    {
    }

    /// The next element from the front; `None` once the two ends have met.
    pub fn next(&mut self) -> (r: Option<&'a T>)
        requires
            old(self).wf(),
        ensures
            final(self).wf(),
            final(self).list() == old(self).list(),
            match r {
                Some(v) => {
                    &&& old(self).remaining().len() > 0
                    &&& *v == old(self).remaining().first()
                    &&& final(self).remaining() == old(self).remaining().drop_first()
                    &&& final(self).front_index() == old(self).front_index() + 1
                },
                None => {
                    &&& old(self).remaining().len() == 0
                    &&& final(self).remaining() == old(self).remaining()
                    &&& final(self).front_index() == old(self).front_index()
                },
            },
    {
        proof {
            self.list.lemma_slots_len();
        }
        if self.left == 0 {
            return None;
        }
        match self.head {
            Some(s) => {
                let v = self.list.value_at(Ghost(self.front@), s);
                self.head = self.list.next_slot(Ghost(self.front@), s);
                self.left = self.left - 1;
                proof {
                    self.front@ = self.front@ + 1;
                    assert(self.remaining() =~= old(self).remaining().drop_first());
                }
                Some(v)
            },
            None => None,
        }
    }

    /// The next element from the back; `None` once the two ends have met.
    pub fn next_back(&mut self) -> (r: Option<&'a T>)
        requires
            old(self).wf(),
        ensures
            final(self).wf(),
            final(self).list() == old(self).list(),
            final(self).front_index() == old(self).front_index(),
            match r {
                Some(v) => {
                    &&& old(self).remaining().len() > 0
                    &&& *v == old(self).remaining().last()
                    &&& final(self).remaining() == old(self).remaining().drop_last()
                },
                None => {
                    &&& old(self).remaining().len() == 0
                    &&& final(self).remaining() == old(self).remaining()
                },
            },
    {
        proof {
            self.list.lemma_slots_len();
        }
        if self.left == 0 {
            return None;
        }
        match self.tail {
            Some(s) => {
                let v = self.list.value_at(Ghost(self.front@ + self.left - 1), s);
                self.tail = self.list.prev_slot(Ghost(self.front@ + self.left - 1), s);
                self.left = self.left - 1;
                proof {
                    assert(self.remaining() =~= old(self).remaining().drop_last());
                }
                Some(v)
            },
            None => None,
        }
    }

    /// The number of elements not yet yielded.
    pub fn len(&self) -> (n: usize)
        requires
            self.wf(),
        ensures
            n == self.remaining().len(),
    {
        self.left
    }

    /// Exact bounds on the number of elements not yet yielded.
    pub fn size_hint(&self) -> (r: (usize, Option<usize>))
        requires
            self.wf(),
        ensures
            r.0 == self.remaining().len(),
            r.1 == Some(r.0),
    {
        (self.left, Some(self.left))
    }

    /// The last of the elements not yet yielded.
    pub fn last(self) -> (r: Option<&'a T>)
        requires
            self.wf(),
        ensures
            match r {
                Some(v) => self.remaining().len() > 0 && *v == self.remaining().last(),
                None => self.remaining().len() == 0,
            },
    {
        let mut it = self;
        it.next_back()
    }
}

impl<T> Clone for Iter<'_, T> {
    /// A second traversal of the same elements, independent of this one.
    fn clone(&self) -> (r: Self)
        ensures
            r == *self,
    {
        *self
    }
}

impl<T> Copy for Iter<'_, T> {

}

impl<T> LinkedList<T> {
    /// A traversal of the whole list by shared reference.
    pub fn iter(&self) -> (it: Iter<'_, T>)
        ensures
            it.wf(),
            it.list() == self,
            it.front_index() == 0,
            it.remaining() == self@,
    {
        proof {
            self.lemma_slots_len();
        }
        let it = Iter {
            head: self.first_slot(),
            tail: self.last_slot(),
            left: self.len(),
            front: Ghost(0),
            list: self,
        };
        assert(it.remaining() =~= self@);
        it
    }
}

impl<'a, T> IterMut<'a, T> {
    /// The exclusive borrow of the list being traversed. Its current value
    /// is the list with what has been written through the yielded
    /// references so far.
    pub closed spec fn list(&self) -> &'a mut LinkedList<T> {
        self.list
    }

    /// The index in the list of the next element from the front.
    pub closed spec fn front_index(&self) -> int {
        self.front@
    }

    /// The number of elements not yet yielded.
    pub closed spec fn remaining_len(&self) -> int {
        self.left as int
    }

    /// The elements not yet yielded, front to back.
    pub open spec fn remaining(&self) -> Seq<T> {
        self.list()@.subrange(self.front_index(), self.front_index() + self.remaining_len())
    }

    /// The traversal covers a stretch of its list and stands on both ends
    /// of it.
    pub closed spec fn wf(&self) -> bool {
        &&& 0 <= self.front@
        &&& self.front@ + self.left <= self.list@.len()
        &&& self.left > 0 ==> self.head == self.list.slot_at(self.front@) && self.tail
            == self.list.slot_at(self.front@ + self.left - 1)
    }

    /// A well-formed traversal covers a stretch inside its list.
    pub proof fn lemma_bounds(&self)
        requires
            self.wf(),
        ensures
            0 <= self.front_index(),
            0 <= self.remaining_len(),
            self.front_index() + self.remaining_len() <= self.list()@.len(),
            self.remaining().len() == self.remaining_len(),
    {
    }

    /// Once the traversal is no longer used, the borrowed list is what was
    /// written through the yielded references.
    pub proof fn lemma_released(self)
        requires
            has_resolved(self),
        ensures
            *final(self.list()) == *self.list(),
    {
    }

    /// The next element from the front; `None` once the two ends have
    /// met. Writing through the reference changes that element only.
    pub fn next(&mut self) -> (r: Option<&mut T>)
        requires
            old(self).wf(),
        ensures
            final(self).wf(),
            *final(final(self).list()) == *final(old(self).list()),
            match r {
                Some(v) => {
                    &&& old(self).remaining().len() > 0
                    &&& *v == old(self).remaining().first()
                    &&& final(self).remaining() == old(self).remaining().drop_first()
                    &&& final(self).front_index() == old(self).front_index() + 1
                    &&& final(self).list()@ == old(self).list()@.update(
                        old(self).front_index(),
                        *final(v),
                    )
                },
                None => {
                    &&& old(self).remaining().len() == 0
                    &&& final(self).remaining() == old(self).remaining()
                    &&& final(self).front_index() == old(self).front_index()
                    &&& final(self).list()@ == old(self).list()@
                },
            },
    {
        proof {
            self.list.lemma_slots_len();
        }
        if self.left == 0 {
            return None;
        }
        match self.head {
            Some(s) => {
                let ghost at = self.front@;
                let ghost span = self.left as int;
                let ghost before = self.list@;
                self.head = self.list.next_slot(Ghost(at), s);
                self.left = self.left - 1;
                proof {
                    self.front@ = at + 1;
                    assert forall|w: T|
                        (#[trigger] before.update(at, w)).subrange(at + 1, at + span)
                            == before.subrange(at, at + span).drop_first() by {
                        assert(before.update(at, w).subrange(at + 1, at + span) =~= before.subrange(
                            at,
                            at + span,
                        ).drop_first());
                    }
                }
                self.list.value_at_mut(Ghost(at), s)
            },
            None => None,
        }
    }

    /// The next element from the back; `None` once the two ends have met.
    /// Writing through the reference changes that element only.
    pub fn next_back(&mut self) -> (r: Option<&mut T>)
        requires
            old(self).wf(),
        ensures
            final(self).wf(),
            *final(final(self).list()) == *final(old(self).list()),
            final(self).front_index() == old(self).front_index(),
            match r {
                Some(v) => {
                    &&& old(self).remaining().len() > 0
                    &&& *v == old(self).remaining().last()
                    &&& final(self).remaining() == old(self).remaining().drop_last()
                    &&& final(self).list()@ == old(self).list()@.update(
                        old(self).front_index() + old(self).remaining().len() - 1,
                        *final(v),
                    )
                },
                None => {
                    &&& old(self).remaining().len() == 0
                    &&& final(self).remaining() == old(self).remaining()
                    &&& final(self).list()@ == old(self).list()@
                },
            },
    {
        proof {
            self.list.lemma_slots_len();
        }
        if self.left == 0 {
            return None;
        }
        match self.tail {
            Some(s) => {
                let ghost at = self.front@;
                let ghost span = self.left as int;
                let ghost before = self.list@;
                self.tail = self.list.prev_slot(Ghost(at + span - 1), s);
                self.left = self.left - 1;
                proof {
                    assert forall|w: T|
                        (#[trigger] before.update(at + span - 1, w)).subrange(at, at + span - 1)
                            == before.subrange(at, at + span).drop_last() by {
                        assert(before.update(at + span - 1, w).subrange(at, at + span - 1)
                            =~= before.subrange(at, at + span).drop_last());
                    }
                }
                self.list.value_at_mut(Ghost(at + span - 1), s)
            },
            None => None,
        }
    }

    /// The number of elements not yet yielded.
    pub fn len(&self) -> (n: usize)
        requires
            self.wf(),
        ensures
            n == self.remaining().len(),
    {
        self.left
    }

    /// Exact bounds on the number of elements not yet yielded.
    pub fn size_hint(&self) -> (r: (usize, Option<usize>))
        requires
            self.wf(),
        ensures
            r.0 == self.remaining().len(),
            r.1 == Some(r.0),
    {
        (self.left, Some(self.left))
    }
}

impl<'a, T> IterMut<'a, T> {
    /// The last of the elements not yet yielded, borrowed for as long as
    /// the list is.
    pub fn last(self) -> (r: Option<&'a mut T>)
        requires
            self.wf(),
        ensures
            match r {
                Some(v) => {
                    &&& self.remaining().len() > 0
                    &&& *v == self.remaining().last()
                    &&& final(self.list())@ == self.list()@.update(
                        self.front_index() + self.remaining().len() - 1,
                        *final(v),
                    )
                },
                None => {
                    &&& self.remaining().len() == 0
                    &&& final(self.list())@ == self.list()@
                },
            },
    {
        proof {
            self.list.lemma_slots_len();
        }
        let ghost at = self.front@ + self.left - 1;
        if self.left == 0 {
            return None;
        }
        match self.tail {
            Some(s) => self.list.value_at_mut(Ghost(at), s),
            None => None,
        }
    }
}

impl<T> LinkedList<T> {
    /// A traversal of the whole list by exclusive reference.
    pub fn iter_mut(&mut self) -> (it: IterMut<'_, T>)
        ensures
            it.wf(),
            *it.list() == *old(self),
            *final(it.list()) == *final(self),
            it.front_index() == 0,
            it.remaining() == old(self)@,
    {
        proof {
            self.lemma_slots_len();
        }
        let head = self.first_slot();
        let tail = self.last_slot();
        let left = self.len();
        let it = IterMut { head, tail, left, front: Ghost(0), list: self };
        assert(it.remaining() =~= old(self)@);
        it
    }

    /// A traversal that takes the elements out of the list.
    pub fn into_iter(self) -> (it: IntoIter<T>)
        ensures
            it.remaining() == self@,
    {
        IntoIter { list: self }
    }
}

impl<T> IntoIter<T> {
    /// The elements not yet yielded, front to back.
    pub closed spec fn remaining(&self) -> Seq<T> {
        self.list@
    }

    /// The next element from the front; `None` once all have been yielded.
    pub fn next(&mut self) -> (r: Option<T>)
        ensures
            old(self).remaining().len() == 0 ==> r is None && final(self).remaining() == old(
                self,
            ).remaining(),
            old(self).remaining().len() > 0 ==> r == Some(old(self).remaining().first()) && final(self).remaining()
                == old(self).remaining().drop_first(),
    {
        self.list.pop_front()
    }

    /// The next element from the back; `None` once all have been yielded.
    pub fn next_back(&mut self) -> (r: Option<T>)
        ensures
            old(self).remaining().len() == 0 ==> r is None && final(self).remaining() == old(
                self,
            ).remaining(),
            old(self).remaining().len() > 0 ==> r == Some(old(self).remaining().last()) && final(self).remaining()
                == old(self).remaining().drop_last(),
    {
        self.list.pop_back()
    }

    /// The number of elements not yet yielded.
    pub fn len(&self) -> (n: usize)
        ensures
            n == self.remaining().len(),
    {
        self.list.len()
    }

    /// Exact bounds on the number of elements not yet yielded.
    pub fn size_hint(&self) -> (r: (usize, Option<usize>))
        ensures
            r.0 == self.remaining().len(),
            r.1 == Some(r.0),
    {
        let n = self.list.len();
        (n, Some(n))
    }

    /// The last of the elements not yet yielded.
    pub fn last(self) -> (r: Option<T>)
        ensures
            self.remaining().len() == 0 ==> r is None,
            self.remaining().len() > 0 ==> r == Some(self.remaining().last()),
    {
        let mut it = self;
        it.next_back()
    }
}

} // verus!
