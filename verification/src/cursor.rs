//! Cursors: movable positions in a list.
//!
//! A cursor stands either on an element or on the ghost position between
//! the last and the first element. [`Cursor`] only reads; [`CursorMut`]
//! also inserts, removes, splices and splits at its position.

use crate::arena::Link;
use crate::list::LinkedList;
use crate::model::{element_at, position_after, position_before, position_valid};
use vstd::prelude::*;

verus! {

/// A read-only cursor over a list.
pub struct Cursor<'a, T> {
    index: usize,
    current: Link,
    list: &'a LinkedList<T>,
}

/// A cursor that can change the list it moves over.
pub struct CursorMut<'a, T> {
    index: usize,
    current: Link,
    list: &'a mut LinkedList<T>,
}

impl<'a, T> Cursor<'a, T> {
    /// The list the cursor moves over.
    pub closed spec fn list(&self) -> &'a LinkedList<T> {
        self.list
    }

    /// Where the cursor stands: on the element with this index, or on the
    /// ghost position.
    pub closed spec fn position(&self) -> Option<int> {
        match self.current {
            Some(_) => Some(self.index as int),
            None => None,
        }
    }

    /// The cursor stands on a position of its list.
    pub closed spec fn wf(&self) -> bool {
        match self.current {
            Some(s) => self.list.slot_at(self.index as int) == Some(s),
            None => true,
        }
    }

    /// A well-formed cursor stands on a valid position.
    pub proof fn lemma_position(&self)
        requires
            self.wf(),
        ensures
            position_valid(self.position(), self.list()@.len() as int),
    {
        self.list.lemma_slots_len();
    }

    /// The index of the element under the cursor; `None` on the ghost
    /// position.
    pub fn index(&self) -> (r: Option<usize>)
        requires
            self.wf(),
        ensures
            match self.position() {
                Some(i) => r == Some(i as usize),
                None => r is None,
            },
    {
        match self.current {
            Some(_) => Some(self.index),
            None => None,
        }
    }

    /// Moves one step forward, through the ghost position after the last
    /// element.
    pub fn move_next(&mut self)
        requires
            old(self).wf(),
        ensures
            final(self).wf(),
            final(self).list() == old(self).list(),
            final(self).position() == position_after(
                old(self).position(),
                old(self).list()@.len() as int,
            ),
    {
        proof {
            self.list.lemma_slots_len();
        }
        match self.current {
            Some(s) => {
                self.current = self.list.next_slot(Ghost(self.index as int), s);
                if self.current.is_some() {
                    self.index = self.index + 1;
                }
            },
            None => {
                self.current = self.list.first_slot();
                self.index = 0;
            },
        }
    }

    /// Moves one step backward, through the ghost position before the
    /// first element.
    pub fn move_prev(&mut self)
        requires
            old(self).wf(),
        ensures
            final(self).wf(),
            final(self).list() == old(self).list(),
            final(self).position() == position_before(
                old(self).position(),
                old(self).list()@.len() as int,
            ),
    {
        proof {
            self.list.lemma_slots_len();
        }
        match self.current {
            Some(s) => {
                self.current = self.list.prev_slot(Ghost(self.index as int), s);
                if self.current.is_some() {
                    self.index = self.index - 1;
                }
            },
            None => {
                self.current = self.list.last_slot();
                let len = self.list.len();
                if len > 0 {
                    self.index = len - 1;
                }
            },
        }
    }

    /// The element under the cursor; `None` on the ghost position.
    pub fn current(&self) -> (r: Option<&'a T>)
        requires
            self.wf(),
        ensures
            match element_at(self.list()@, self.position()) {
                Some(v) => r is Some && *r.unwrap() == v,
                None => r is None,
            },
    {
        proof {
            self.list.lemma_slots_len();
        }
        match self.current {
            Some(s) => Some(self.list.value_at(Ghost(self.index as int), s)),
            None => None,
        }
    }

    /// The element one step forward, without moving.
    pub fn peek_next(&self) -> (r: Option<&'a T>)
        requires
            self.wf(),
        ensures
            match element_at(
                self.list()@,
                position_after(self.position(), self.list()@.len() as int),
            ) {
                Some(v) => r is Some && *r.unwrap() == v,
                None => r is None,
            },
    {
        proof {
            self.list.lemma_slots_len();
        }
        match self.current {
            Some(s) => match self.list.next_slot(Ghost(self.index as int), s) {
                Some(n) => Some(self.list.value_at(Ghost(self.index + 1), n)),
                None => None,
            },
            None => self.list.front(),
        }
    }

    /// The element one step backward, without moving.
    pub fn peek_prev(&self) -> (r: Option<&'a T>)
        requires
            self.wf(),
        ensures
            match element_at(
                self.list()@,
                position_before(self.position(), self.list()@.len() as int),
            ) {
                Some(v) => r is Some && *r.unwrap() == v,
                None => r is None,
            },
    {
        proof {
            self.list.lemma_slots_len();
        }
        match self.current {
            Some(s) => match self.list.prev_slot(Ghost(self.index as int), s) {
                Some(p) => Some(self.list.value_at(Ghost(self.index - 1), p)),
                None => None,
            },
            None => self.list.back(),
        }
    }

    /// The first element of the list.
    pub fn front(&self) -> (r: Option<&'a T>)
        ensures
            match r {
                Some(v) => self.list()@.len() > 0 && *v == self.list()@.first(),
                None => self.list()@.len() == 0,
            },
    {
        self.list.front()
    }

    /// The last element of the list.
    pub fn back(&self) -> (r: Option<&'a T>)
        ensures
            match r {
                Some(v) => self.list()@.len() > 0 && *v == self.list()@.last(),
                None => self.list()@.len() == 0,
            },
    {
        self.list.back()
    }
}

impl<T> Clone for Cursor<'_, T> {
    /// A second cursor on the same position of the same list.
    fn clone(&self) -> (r: Self)
        ensures
            r == *self,
    {
        *self
    }
}

impl<T> Copy for Cursor<'_, T> {

}

impl<T> LinkedList<T> {
    /// A cursor on the first element, or on the ghost position of an empty
    /// list.
    pub fn cursor_front(&self) -> (c: Cursor<'_, T>)
        ensures
            c.wf(),
            c.list() == self,
            c.position() == position_after(None, self@.len() as int),
    {
        proof {
            self.lemma_slots_len();
        }
        Cursor { index: 0, current: self.first_slot(), list: self }
    }

    /// A cursor on the last element, or on the ghost position of an empty
    /// list.
    pub fn cursor_back(&self) -> (c: Cursor<'_, T>)
        ensures
            c.wf(),
            c.list() == self,
            c.position() == position_before(None, self@.len() as int),
    {
        proof {
            self.lemma_slots_len();
        }
        let len = self.len();
        Cursor { index: if len > 0 { len - 1 } else { 0 }, current: self.last_slot(), list: self }
    }
}

impl<'a, T> CursorMut<'a, T> {
    /// The exclusive borrow of the list the cursor moves over. Its current
    /// value is the list as the cursor has left it so far.
    pub closed spec fn list(&self) -> &'a mut LinkedList<T> {
        self.list
    }

    /// Where the cursor stands: on the element with this index, or on the
    /// ghost position.
    pub closed spec fn position(&self) -> Option<int> {
        match self.current {
            Some(_) => Some(self.index as int),
            None => None,
        }
    }

    /// The cursor stands on a position of its list.
    pub closed spec fn wf(&self) -> bool {
        match self.current {
            Some(s) => self.list.slot_at(self.index as int) == Some(s),
            None => true,
        }
    }

    /// A well-formed cursor stands on a valid position.
    pub proof fn lemma_position(&self)
        requires
            self.wf(),
        ensures
            position_valid(self.position(), self.list()@.len() as int),
    {
        self.list.lemma_slots_len();
    }

    /// Once the cursor is no longer used, the borrowed list is what the
    /// cursor made of it.
    pub proof fn lemma_released(self)
        requires
            has_resolved(self),
        ensures
            *final(self.list()) == *self.list(),
    {
    }

    /// The index of the element under the cursor; `None` on the ghost
    /// position.
    pub fn index(&self) -> (r: Option<usize>)
        requires
            self.wf(),
        ensures
            match self.position() {
                Some(i) => r == Some(i as usize),
                None => r is None,
            },
    {
        match self.current {
            Some(_) => Some(self.index),
            None => None,
        }
    }

    /// Moves one step forward, through the ghost position after the last
    /// element. The list is not touched.
    pub fn move_next(&mut self)
        requires
            old(self).wf(),
        ensures
            final(self).wf(),
            *final(self).list() == *old(self).list(),
            *final(final(self).list()) == *final(old(self).list()),
            final(self).position() == position_after(
                old(self).position(),
                old(self).list()@.len() as int,
            ),
    {
        proof {
            self.list.lemma_slots_len();
        }
        match self.current {
            Some(s) => {
                self.current = self.list.next_slot(Ghost(self.index as int), s);
                if self.current.is_some() {
                    self.index = self.index + 1;
                }
            },
            None => {
                self.current = self.list.first_slot();
                self.index = 0;
            },
        }
    }

    /// Moves one step backward, through the ghost position before the
    /// first element. The list is not touched.
    pub fn move_prev(&mut self)
        requires
            old(self).wf(),
        ensures
            final(self).wf(),
            *final(self).list() == *old(self).list(),
            *final(final(self).list()) == *final(old(self).list()),
            final(self).position() == position_before(
                old(self).position(),
                old(self).list()@.len() as int,
            ),
    {
        proof {
            self.list.lemma_slots_len();
        }
        match self.current {
            Some(s) => {
                self.current = self.list.prev_slot(Ghost(self.index as int), s);
                if self.current.is_some() {
                    self.index = self.index - 1;
                }
            },
            None => {
                self.current = self.list.last_slot();
                let len = self.list.len();
                if len > 0 {
                    self.index = len - 1;
                }
            },
        }
    }

    /// Exclusive access to the element under the cursor; `None` on the
    /// ghost position. Writing through it changes that element only.
    pub fn current(&mut self) -> (r: Option<&mut T>)
        requires
            old(self).wf(),
        ensures
            final(self).wf(),
            final(self).position() == old(self).position(),
            *final(final(self).list()) == *final(old(self).list()),
            match old(self).position() {
                Some(i) => r is Some && *r.unwrap() == old(self).list()@[i] && final(self).list()@ == old(self).list()@.update(i, *final(r.unwrap())),
                None => r is None && final(self).list()@ == old(self).list()@,
            },
    {
        proof {
            self.list.lemma_slots_len();
        }
        match self.current {
            Some(s) => self.list.value_at_mut(Ghost(self.index as int), s),
            None => None,
        }
    }

    /// Exclusive access to the element one step forward, without moving.
    pub fn peek_next(&mut self) -> (r: Option<&mut T>)
        requires
            old(self).wf(),
        ensures
            final(self).wf(),
            final(self).position() == old(self).position(),
            *final(final(self).list()) == *final(old(self).list()),
            match position_after(old(self).position(), old(self).list()@.len() as int) {
                Some(i) => r is Some && *r.unwrap() == old(self).list()@[i] && final(self).list()@ == old(self).list()@.update(i, *final(r.unwrap())),
                None => r is None && final(self).list()@ == old(self).list()@,
            },
    {
        proof {
            self.list.lemma_slots_len();
        }
        let next = match self.current {
            Some(s) => self.list.next_slot(Ghost(self.index as int), s),
            None => self.list.first_slot(),
        };
        let ghost at = match self.current {
            Some(_) => self.index + 1,
            None => 0,
        };
        match next {
            Some(n) => self.list.value_at_mut(Ghost(at), n),
            None => None,
        }
    }

    /// Exclusive access to the element one step backward, without moving.
    pub fn peek_prev(&mut self) -> (r: Option<&mut T>)
        requires
            old(self).wf(),
        ensures
            final(self).wf(),
            final(self).position() == old(self).position(),
            *final(final(self).list()) == *final(old(self).list()),
            match position_before(old(self).position(), old(self).list()@.len() as int) {
                Some(i) => r is Some && *r.unwrap() == old(self).list()@[i] && final(self).list()@ == old(self).list()@.update(i, *final(r.unwrap())),
                None => r is None && final(self).list()@ == old(self).list()@,
            },
    {
        proof {
            self.list.lemma_slots_len();
        }
        let prev = match self.current {
            Some(s) => self.list.prev_slot(Ghost(self.index as int), s),
            None => self.list.last_slot(),
        };
        let ghost at = match self.current {
            Some(_) => self.index - 1,
            None => self.list@.len() - 1,
        };
        match prev {
            Some(p) => self.list.value_at_mut(Ghost(at), p),
            None => None,
        }
    }

    /// A read-only cursor on the same position of the same list.
    pub fn as_cursor(&self) -> (c: Cursor<'_, T>)
        requires
            self.wf(),
        ensures
            c.wf(),
            *c.list() == *self.list(),
            c.position() == self.position(),
    {
        Cursor { index: self.index, current: self.current, list: &*self.list }
    }

    /// The first element of the list.
    pub fn front(&self) -> (r: Option<&T>)
        ensures
            match r {
                Some(v) => self.list()@.len() > 0 && *v == self.list()@.first(),
                None => self.list()@.len() == 0,
            },
    {
        self.list.front()
    }

    /// The last element of the list.
    pub fn back(&self) -> (r: Option<&T>)
        ensures
            match r {
                Some(v) => self.list()@.len() > 0 && *v == self.list()@.last(),
                None => self.list()@.len() == 0,
            },
    {
        self.list.back()
    }

    /// Exclusive access to the first element of the list.
    pub fn front_mut(&mut self) -> (r: Option<&mut T>)
        requires
            old(self).wf(),
        ensures
            final(self).wf(),
            final(self).position() == old(self).position(),
            *final(final(self).list()) == *final(old(self).list()),
            match r {
                Some(v) => old(self).list()@.len() > 0 && *v == old(self).list()@.first()
                    && final(self).list()@ == old(self).list()@.update(0, *final(v)),
                None => old(self).list()@.len() == 0 && final(self).list()@ == old(self).list()@,
            },
    {
        proof {
            self.list.lemma_slots_len();
        }
        match self.list.first_slot() {
            Some(h) => self.list.value_at_mut(Ghost(0), h),
            None => None,
        }
    }

    /// Exclusive access to the last element of the list.
    pub fn back_mut(&mut self) -> (r: Option<&mut T>)
        requires
            old(self).wf(),
        ensures
            final(self).wf(),
            final(self).position() == old(self).position(),
            *final(final(self).list()) == *final(old(self).list()),
            match r {
                Some(v) => old(self).list()@.len() > 0 && *v == old(self).list()@.last() && final(self).list()@ == old(self).list()@.update(old(self).list()@.len() - 1, *final(v)),
                None => old(self).list()@.len() == 0 && final(self).list()@ == old(self).list()@,
            },
    {
        proof {
            self.list.lemma_slots_len();
        }
        match self.list.last_slot() {
            Some(t) => self.list.value_at_mut(Ghost(self.list@.len() - 1), t),
            None => None,
        }
    }
}

impl<'a, T> CursorMut<'a, T> {
    /// Inserts `item` right after the cursor's position; on the ghost
    /// position, at the front of the list. The cursor stays where it is.
    pub fn insert_after(&mut self, item: T)
        requires
            old(self).wf(),
        ensures
            final(self).wf(),
            *final(final(self).list()) == *final(old(self).list()),
            final(self).position() == old(self).position(),
            final(self).list()@ == match old(self).position() {
                Some(i) => old(self).list()@.insert(i + 1, item),
                None => seq![item] + old(self).list()@,
            },
    {
        proof {
            self.list.lemma_slots_len();
        }
        match self.current {
            Some(s) => {
                let next = self.list.next_slot(Ghost(self.index as int), s);
                self.list.link(Ghost(self.index + 1), Some(s), next, item);
            },
            None => {
                self.list.push_front(item);
            },
        }
    }

    /// Inserts `item` right before the cursor's position; on the ghost
    /// position, at the back of the list. The cursor stays on its element,
    /// whose index grows by one.
    pub fn insert_before(&mut self, item: T)
        requires
            old(self).wf(),
        ensures
            final(self).wf(),
            *final(final(self).list()) == *final(old(self).list()),
            final(self).position() == match old(self).position() {
                Some(i) => Some(i + 1),
                None => None,
            },
            final(self).list()@ == match old(self).position() {
                Some(i) => old(self).list()@.insert(i, item),
                None => old(self).list()@.push(item),
            },
    {
        proof {
            self.list.lemma_slots_len();
        }
        match self.current {
            Some(s) => {
                let prev = self.list.prev_slot(Ghost(self.index as int), s);
                self.list.link(Ghost(self.index as int), prev, Some(s), item);
                self.index = self.index + 1;
            },
            None => {
                self.list.push_back(item);
            },
        }
    }

    /// Removes the element under the cursor and returns it; the cursor
    /// then stands on the element that followed, or on the ghost position
    /// if none did. On the ghost position nothing is removed.
    pub fn remove_current(&mut self) -> (r: Option<T>)
        requires
            old(self).wf(),
        ensures
            final(self).wf(),
            *final(final(self).list()) == *final(old(self).list()),
            match old(self).position() {
                Some(i) => {
                    &&& r == Some(old(self).list()@[i])
                    &&& final(self).list()@ == old(self).list()@.remove(i)
                    &&& final(self).position() == if i + 1 < old(self).list()@.len() {
                        Some(i)
                    } else {
                        None
                    }
                },
                None => {
                    &&& r is None
                    &&& final(self).list()@ == old(self).list()@
                    &&& final(self).position() is None
                },
            },
    {
        proof {
            self.list.lemma_slots_len();
        }
        match self.current {
            Some(s) => {
                let next = self.list.next_slot(Ghost(self.index as int), s);
                let value = self.list.unlink(Ghost(self.index as int), s);
                self.current = next;
                Some(value)
            },
            None => None,
        }
    }

    /// Removes the element under the cursor and returns it as a list of
    /// its own; the cursor then stands on the element that followed, or on
    /// the ghost position if none did. On the ghost position nothing is
    /// removed.
    pub fn remove_current_as_list(&mut self) -> (r: Option<LinkedList<T>>)
        requires
            old(self).wf(),
        ensures
            final(self).wf(),
            *final(final(self).list()) == *final(old(self).list()),
            match old(self).position() {
                Some(i) => {
                    &&& r is Some
                    &&& r.unwrap()@ == seq![old(self).list()@[i]]
                    &&& final(self).list()@ == old(self).list()@.remove(i)
                    &&& final(self).position() == if i + 1 < old(self).list()@.len() {
                        Some(i)
                    } else {
                        None
                    }
                },
                None => {
                    &&& r is None
                    &&& final(self).list()@ == old(self).list()@
                    &&& final(self).position() is None
                },
            },
    {
        match self.remove_current() {
            Some(value) => {
                let mut single = LinkedList::new();
                single.push_back(value);
                assert(single@ =~= seq![value]);
                Some(single)
            },
            None => None,
        }
    }

    /// Adds `elt` at the front of the list. The cursor stays on its
    /// element, whose index grows by one.
    pub fn push_front(&mut self, elt: T)
        requires
            old(self).wf(),
        ensures
            final(self).wf(),
            *final(final(self).list()) == *final(old(self).list()),
            final(self).position() == match old(self).position() {
                Some(i) => Some(i + 1),
                None => None,
            },
            final(self).list()@ == seq![elt] + old(self).list()@,
    {
        proof {
            self.list.lemma_slots_len();
        }
        let head = self.list.first_slot();
        self.list.link(Ghost(0), None, head, elt);
        if self.current.is_some() {
            self.index = self.index + 1;
        }
        assert(old(self).list()@.insert(0, elt) =~= seq![elt] + old(self).list()@);
    }

    /// Adds `elt` at the back of the list. The cursor stays where it is.
    pub fn push_back(&mut self, elt: T)
        requires
            old(self).wf(),
        ensures
            final(self).wf(),
            *final(final(self).list()) == *final(old(self).list()),
            final(self).position() == old(self).position(),
            final(self).list()@ == old(self).list()@.push(elt),
    {
        proof {
            self.list.lemma_slots_len();
        }
        let tail = self.list.last_slot();
        self.list.link(Ghost(self.list@.len() as int), tail, None, elt);
        assert(old(self).list()@.insert(old(self).list()@.len() as int, elt) =~= old(
            self,
        ).list()@.push(elt));
    }

    /// Removes the first element of the list and returns it. A cursor on
    /// that element moves to the one that followed, or to the ghost
    /// position; a cursor on another element stays on it.
    pub fn pop_front(&mut self) -> (r: Option<T>)
        requires
            old(self).wf(),
        ensures
            final(self).wf(),
            *final(final(self).list()) == *final(old(self).list()),
            old(self).list()@.len() == 0 ==> {
                &&& r is None
                &&& final(self).list()@ == old(self).list()@
                &&& final(self).position() == old(self).position()
            },
            old(self).list()@.len() > 0 ==> {
                &&& r == Some(old(self).list()@.first())
                &&& final(self).list()@ == old(self).list()@.drop_first()
                &&& final(self).position() == match old(self).position() {
                    Some(i) => if i > 0 {
                        Some(i - 1)
                    } else if old(self).list()@.len() > 1 {
                        Some(0)
                    } else {
                        None
                    },
                    None => None,
                }
            },
    {
        proof {
            self.list.lemma_slots_len();
        }
        match self.list.first_slot() {
            Some(h) => {
                if self.current.is_some() {
                    if self.index == 0 {
                        self.current = self.list.next_slot(Ghost(0), h);
                    } else {
                        self.index = self.index - 1;
                    }
                }
                let value = self.list.unlink(Ghost(0), h);
                assert(old(self).list()@.remove(0) =~= old(self).list()@.drop_first());
                Some(value)
            },
            None => None,
        }
    }

    /// Removes the last element of the list and returns it. A cursor on
    /// that element moves to the ghost position; a cursor on another
    /// element stays on it.
    pub fn pop_back(&mut self) -> (r: Option<T>)
        requires
            old(self).wf(),
        ensures
            final(self).wf(),
            *final(final(self).list()) == *final(old(self).list()),
            old(self).list()@.len() == 0 ==> {
                &&& r is None
                &&& final(self).list()@ == old(self).list()@
                &&& final(self).position() == old(self).position()
            },
            old(self).list()@.len() > 0 ==> {
                &&& r == Some(old(self).list()@.last())
                &&& final(self).list()@ == old(self).list()@.drop_last()
                &&& final(self).position() == match old(self).position() {
                    Some(i) => if i + 1 < old(self).list()@.len() {
                        Some(i)
                    } else {
                        None
                    },
                    None => None,
                }
            },
    {
        proof {
            self.list.lemma_slots_len();
        }
        match self.list.last_slot() {
            Some(t) => {
                let len = self.list.len();
                if self.current.is_some() && self.index == len - 1 {
                    self.current = None;
                }
                let value = self.list.unlink(Ghost(len - 1), t);
                assert(old(self).list()@.remove(len - 1) =~= old(self).list()@.drop_last());
                Some(value)
            },
            None => None,
        }
    }
}

impl<'a, T> CursorMut<'a, T> {
    /// Moves every element of `list`, in order, to right after the
    /// cursor's position; on the ghost position, to the front of the list.
    /// The cursor stays where it is.
    pub fn splice_after(&mut self, list: LinkedList<T>)
        requires
            old(self).wf(),
        ensures
            final(self).wf(),
            *final(final(self).list()) == *final(old(self).list()),
            final(self).position() == old(self).position(),
            final(self).list()@ == match old(self).position() {
                Some(i) => old(self).list()@.subrange(0, i + 1) + list@ + old(self).list()@.subrange(
                    i + 1,
                    old(self).list()@.len() as int,
                ),
                None => list@ + old(self).list()@,
            },
    {
        let mut list = list;
        let ghost given = list@;
        let ghost before = self.list@;
        let ghost at = self.position();
        proof {
            self.list.lemma_slots_len();
        }
        if self.list.is_empty() {
            std::mem::swap(&mut *self.list, &mut list);
            self.current = None;
            assert(given + before =~= given);
            return;
        }
        while list.len() > 0
            invariant
                self.wf(),
                self.position() == at,
                position_valid(at, before.len() as int),
                *final(self.list()) == *final(old(self).list()),
                list@.len() <= given.len(),
                list@ == given.subrange(0, list@.len() as int),
                self.list()@ == match at {
                    Some(i) => before.subrange(0, i + 1) + given.subrange(
                        list@.len() as int,
                        given.len() as int,
                    ) + before.subrange(i + 1, before.len() as int),
                    None => given.subrange(list@.len() as int, given.len() as int) + before,
                },
            decreases list@.len(),
        {
            let ghost rest = list@;
            let ghost sofar = self.list@;
            let v = list.pop_back().unwrap();
            self.insert_after(v);
            proof {
                let moved = given.subrange(rest.len() as int, given.len() as int);
                let moved2 = given.subrange(list@.len() as int, given.len() as int);
                assert(moved2 =~= seq![v] + moved);
                assert(list@ =~= given.subrange(0, list@.len() as int));
                match at {
                    Some(i) => {
                        assert(sofar.insert(i + 1, v) =~= before.subrange(0, i + 1) + moved2
                            + before.subrange(i + 1, before.len() as int));
                    },
                    None => {
                        assert(seq![v] + sofar =~= moved2 + before);
                    },
                }
            }
        }
        proof {
            assert(given.subrange(0, given.len() as int) =~= given);
        }
    }

    /// Moves every element of `list`, in order, to right before the
    /// cursor's position; on the ghost position, to the back of the list.
    /// The cursor stays on its element, whose index grows by the number of
    /// elements moved in.
    pub fn splice_before(&mut self, list: LinkedList<T>)
        requires
            old(self).wf(),
        ensures
            final(self).wf(),
            *final(final(self).list()) == *final(old(self).list()),
            final(self).position() == match old(self).position() {
                Some(i) => Some(i + list@.len()),
                None => None,
            },
            final(self).list()@ == match old(self).position() {
                Some(i) => old(self).list()@.subrange(0, i) + list@ + old(self).list()@.subrange(
                    i,
                    old(self).list()@.len() as int,
                ),
                None => old(self).list()@ + list@,
            },
    {
        let mut list = list;
        let ghost given = list@;
        let ghost before = self.list@;
        let ghost at = self.position();
        proof {
            self.list.lemma_slots_len();
        }
        if self.list.is_empty() {
            std::mem::swap(&mut *self.list, &mut list);
            self.current = None;
            assert(before + given =~= given);
            return;
        }
        while list.len() > 0
            invariant
                self.wf(),
                position_valid(at, before.len() as int),
                *final(self.list()) == *final(old(self).list()),
                list@.len() <= given.len(),
                list@ == given.subrange(given.len() - list@.len(), given.len() as int),
                self.position() == match at {
                    Some(i) => Some(i + given.len() - list@.len()),
                    None => None,
                },
                self.list()@ == match at {
                    Some(i) => before.subrange(0, i) + given.subrange(0, given.len() - list@.len())
                        + before.subrange(i, before.len() as int),
                    None => before + given.subrange(0, given.len() - list@.len()),
                },
            decreases list@.len(),
        {
            let ghost rest = list@;
            let ghost sofar = self.list@;
            let v = list.pop_front().unwrap();
            self.insert_before(v);
            proof {
                let moved = given.subrange(0, given.len() - rest.len());
                let moved2 = given.subrange(0, given.len() - list@.len());
                assert(moved2 =~= moved.push(v));
                assert(list@ =~= given.subrange(given.len() - list@.len(), given.len() as int));
                match at {
                    Some(i) => {
                        assert(sofar.insert(i + moved.len(), v) =~= before.subrange(0, i) + moved2
                            + before.subrange(i, before.len() as int));
                    },
                    None => {
                        assert(sofar.push(v) =~= before + moved2);
                    },
                }
            }
        }
        proof {
            assert(given.subrange(0, given.len() as int) =~= given);
        }
    }

    /// Splits the list after the cursor's position: the elements that
    /// follow it leave the list and are returned, in order. On the ghost
    /// position the whole list is returned and nothing stays.
    pub fn split_after(&mut self) -> (r: LinkedList<T>)
        requires
            old(self).wf(),
        ensures
            final(self).wf(),
            *final(final(self).list()) == *final(old(self).list()),
            final(self).position() == old(self).position(),
            match old(self).position() {
                Some(i) => {
                    &&& final(self).list()@ == old(self).list()@.subrange(0, i + 1)
                    &&& r@ == old(self).list()@.subrange(i + 1, old(self).list()@.len() as int)
                },
                None => {
                    &&& final(self).list()@ == Seq::<T>::empty()
                    &&& r@ == old(self).list()@
                },
            },
    {
        let mut out = LinkedList::new();
        let ghost before = self.list@;
        proof {
            self.list.lemma_slots_len();
        }
        if self.current.is_none() {
            std::mem::swap(&mut *self.list, &mut out);
            return out;
        }
        let mut beyond = self.list.len() - self.index - 1;
        while beyond > 0
            invariant
                self.wf(),
                self.position() == old(self).position(),
                self.position() == Some(self.index as int),
                *final(self.list()) == *final(old(self).list()),
                self.list()@.len() == self.index + 1 + beyond,
                self.list()@.len() <= before.len(),
                self.list()@ == before.subrange(0, self.list()@.len() as int),
                out@ == before.subrange(self.list()@.len() as int, before.len() as int),
            decreases beyond,
        {
            proof {
                self.list.lemma_slots_len();
            }
            let last = self.list.last_slot().unwrap();
            let v = self.list.unlink(Ghost(self.list@.len() - 1), last);
            out.push_front(v);
            beyond = beyond - 1;
            proof {
                self.list.lemma_slots_len();
                assert(self.list@ =~= before.subrange(0, self.list@.len() as int));
                assert(out@ =~= before.subrange(self.list@.len() as int, before.len() as int));
            }
        }
        out
    }

    /// Splits the list before the cursor's position: the elements that
    /// precede it leave the list and are returned, in order, and the
    /// cursor's element becomes the first. On the ghost position the whole
    /// list is returned and nothing stays.
    pub fn split_before(&mut self) -> (r: LinkedList<T>)
        requires
            old(self).wf(),
        ensures
            final(self).wf(),
            *final(final(self).list()) == *final(old(self).list()),
            match old(self).position() {
                Some(i) => {
                    &&& final(self).list()@ == old(self).list()@.subrange(
                        i,
                        old(self).list()@.len() as int,
                    )
                    &&& r@ == old(self).list()@.subrange(0, i)
                    &&& final(self).position() == Some(0int)
                },
                None => {
                    &&& final(self).list()@ == Seq::<T>::empty()
                    &&& r@ == old(self).list()@
                    &&& final(self).position() is None
                },
            },
    {
        let mut out = LinkedList::new();
        let ghost before = self.list@;
        let ghost start = self.index;
        proof {
            self.list.lemma_slots_len();
        }
        if self.current.is_none() {
            std::mem::swap(&mut *self.list, &mut out);
            return out;
        }
        while self.index > 0
            invariant
                self.wf(),
                self.position() == Some(self.index as int),
                *final(self.list()) == *final(old(self).list()),
                self.index <= start < before.len(),
                self.list()@ == before.subrange(start - self.index, before.len() as int),
                out@ == before.subrange(0, start - self.index),
            decreases self.index,
        {
            proof {
                self.list.lemma_slots_len();
            }
            let first = self.list.first_slot().unwrap();
            let v = self.list.unlink(Ghost(0), first);
            out.push_back(v);
            self.index = self.index - 1;
            proof {
                self.list.lemma_slots_len();
                assert(self.list@ =~= before.subrange(start - self.index, before.len() as int));
                assert(out@ =~= before.subrange(0, start - self.index));
            }
        }
        out
    }
}

impl<T> LinkedList<T> {
    /// A cursor on the first element, or on the ghost position of an empty
    /// list, through which the list can be changed.
    pub fn cursor_front_mut(&mut self) -> (c: CursorMut<'_, T>)
        ensures
            c.wf(),
            *c.list() == *old(self),
            *final(c.list()) == *final(self),
            c.position() == position_after(None, old(self)@.len() as int),
    {
        proof {
            self.lemma_slots_len();
        }
        let current = self.first_slot();
        CursorMut { index: 0, current, list: self }
    }

    /// A cursor on the last element, or on the ghost position of an empty
    /// list, through which the list can be changed.
    pub fn cursor_back_mut(&mut self) -> (c: CursorMut<'_, T>)
        ensures
            c.wf(),
            *c.list() == *old(self),
            *final(c.list()) == *final(self),
            c.position() == position_before(None, old(self)@.len() as int),
    {
        proof {
            self.lemma_slots_len();
        }
        let len = self.len();
        let current = self.last_slot();
        CursorMut { index: if len > 0 { len - 1 } else { 0 }, current, list: self }
    }
}

} // verus!
