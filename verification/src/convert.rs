//! Construction, duplication and conversion of whole lists.

use crate::iter::{IntoIter, Iter};
use crate::list::LinkedList;
use vstd::prelude::*;
use vstd::std_specs::convert::FromSpecImpl;

verus! {

/// `Vec::from` on an array: the vector holds the array's items, in order.
pub assume_specification<T, const N: usize>[ <Vec<T> as From<[T; N]>>::from ](s: [T; N]) -> (v: Vec<T>)
    ensures
        v@ == s@,
;

impl<T> Default for LinkedList<T> {
    /// An empty list.
    fn default() -> (list: Self)
        ensures
            list@ == Seq::<T>::empty(),
    {
        LinkedList::new()
    }
}

impl<T: Clone> Clone for LinkedList<T> {
    /// A list of its own nodes that holds a clone of each element, in the
    /// same order.
    fn clone(&self) -> (copy: Self)
        ensures
            copy@.len() == self@.len(),
            forall|i: int| 0 <= i < self@.len() ==> cloned::<T>(self@[i], #[trigger] copy@[i]),
    {
        let mut copy = LinkedList::new();
        let mut it = self.iter();
        proof {
            it.lemma_bounds();
        }
        while it.len() > 0
            invariant
                it.wf(),
                it.list() == self,
                it.front_index() + it.remaining().len() == self@.len(),
                copy@.len() == it.front_index(),
                forall|i: int| 0 <= i < copy@.len() ==> cloned::<T>(self@[i], #[trigger] copy@[i]),
            decreases it.remaining().len(),
        {
            proof {
                it.lemma_bounds();
            }
            let x = it.next().unwrap();
            copy.push_back(x.clone());
            proof {
                it.lemma_bounds();
            }
        }
        copy
    }
}

impl<T> LinkedList<T> {
    /// Adds the items of `items`, in order, at the back of the list.
    pub fn extend(&mut self, items: Vec<T>)
        ensures
            final(self)@ == old(self)@ + items@,
    {
        let mut tail = LinkedList::from(items);
        self.append(&mut tail);
    }

    /// Adds a copy of each item of `items`, in order, at the back of the
    /// list.
    pub fn extend_from_slice(&mut self, items: &[T]) where T: Copy
        ensures
            final(self)@ == old(self)@ + items@,
    {
        let mut k: usize = 0;
        while k < items.len()
            invariant
                k <= items@.len(),
                self@ == old(self)@ + items@.subrange(0, k as int),
            decreases items@.len() - k,
        {
            self.push_back(items[k]);
            k = k + 1;
            proof {
                assert(self@ =~= old(self)@ + items@.subrange(0, k as int));
            }
        }
        proof {
            assert(items@.subrange(0, items@.len() as int) =~= items@);
        }
    }
}

impl<T> From<Vec<T>> for LinkedList<T> {
    /// The list of the vector's items, in order.
    fn from(items: Vec<T>) -> (list: Self)
        ensures
            list@ == items@,
    {
        let ghost given = items@;
        let mut items = items;
        let mut list = LinkedList::new();
        while items.len() > 0
            invariant
                items@.len() <= given.len(),
                items@ == given.subrange(0, items@.len() as int),
                list@ == given.subrange(items@.len() as int, given.len() as int),
            decreases items@.len(),
        {
            let x = items.pop().unwrap();
            list.push_front(x);
            proof {
                assert(items@ =~= given.subrange(0, items@.len() as int));
                assert(list@ =~= given.subrange(items@.len() as int, given.len() as int));
            }
        }
        proof {
            assert(given.subrange(0, given.len() as int) =~= given);
        }
        list
    }
}

impl<T> FromSpecImpl<Vec<T>> for LinkedList<T> {
    /// A converted list is pinned down by its view, not by a value that
    /// could be written in a specification.
    open spec fn obeys_from_spec() -> bool {
        false
    }

    /// Left open: see `obeys_from_spec`.
    open spec fn from_spec(items: Vec<T>) -> Self {
        arbitrary()
    }
}

impl<T, const N: usize> From<[T; N]> for LinkedList<T> {
    /// The list of the array's items, in order.
    fn from(items: [T; N]) -> (list: Self)
        ensures
            list@ == items@,
    {
        LinkedList::from(Vec::from(items))
    }
}

impl<T, const N: usize> FromSpecImpl<[T; N]> for LinkedList<T> {
    /// A converted list is pinned down by its view, not by a value that
    /// could be written in a specification.
    open spec fn obeys_from_spec() -> bool {
        false
    }

    /// Left open: see `obeys_from_spec`.
    open spec fn from_spec(items: [T; N]) -> Self {
        arbitrary()
    }
}

impl<T> IntoIter<T> {
    /// The elements not yet yielded, front to back, as a vector.
    pub fn collect(self) -> (items: Vec<T>)
        ensures
            items@ == self.remaining(),
    {
        let ghost all = self.remaining();
        let mut it = self;
        let mut items: Vec<T> = Vec::new();
        while it.len() > 0
            invariant
                items@.len() <= all.len(),
                items@ == all.subrange(0, items@.len() as int),
                it.remaining() == all.subrange(items@.len() as int, all.len() as int),
            decreases it.remaining().len(),
        {
            let x = it.next().unwrap();
            items.push(x);
            proof {
                assert(items@ =~= all.subrange(0, items@.len() as int));
                assert(it.remaining() =~= all.subrange(items@.len() as int, all.len() as int));
            }
        }
        proof {
            assert(all.subrange(0, all.len() as int) =~= all);
        }
        items
    }
}

impl<'a, T> Iter<'a, T> {
    /// References to the elements not yet yielded, front to back, as a
    /// vector.
    pub fn collect(self) -> (items: Vec<&'a T>)
        requires
            self.wf(),
        ensures
            items@.len() == self.remaining().len(),
            forall|i: int| 0 <= i < items@.len() ==> *#[trigger] items@[i] == self.remaining()[i],
    {
        let ghost all = self.remaining();
        let mut it = self;
        let mut items: Vec<&'a T> = Vec::new();
        proof {
            it.lemma_bounds();
        }
        while it.len() > 0
            invariant
                it.wf(),
                items@.len() <= all.len(),
                it.remaining() == all.subrange(items@.len() as int, all.len() as int),
                forall|i: int| 0 <= i < items@.len() ==> *#[trigger] items@[i] == all[i],
            decreases it.remaining().len(),
        {
            proof {
                it.lemma_bounds();
            }
            let x = it.next().unwrap();
            items.push(x);
            proof {
                assert(it.remaining() =~= all.subrange(items@.len() as int, all.len() as int));
            }
        }
        items
    }
}

} // verus!
