//! Node and link model.
//!
//! Nodes live in an arena and refer to their neighbours by slot number. A
//! slot is either occupied by exactly one live node of the chain or vacant
//! and recorded in the free stack, so a detached node can never be reached
//! again through a stale link.

use vstd::prelude::*;

verus! {

/// A navigational link: the slot of a neighbouring node, or nothing.
pub(crate) type Link = Option<usize>;

/// One storage unit: a payload and its two links.
///
/// A vacant slot keeps no payload; its links are meaningless.
pub(crate) struct Node<T> {
    pub(crate) value: Option<T>,
    pub(crate) next: Link,
    pub(crate) prev: Link,
}

/// The chain of live nodes inside its arena.
pub(crate) struct Chain<T> {
    pub(crate) nodes: Vec<Node<T>>,
    pub(crate) free: Vec<usize>,
    pub(crate) head: Link,
    pub(crate) tail: Link,
    pub(crate) len: usize,
    pub(crate) order: Ghost<Seq<usize>>,
}

/// Whether `link` names slot `s`.
pub(crate) open spec fn names(link: Link, s: int) -> bool {
    link is Some && link.unwrap() == s
}

/// Points the forward link of the node in slot `s` at `to`.
pub(crate) fn set_next<T>(nodes: &mut Vec<Node<T>>, s: usize, to: Link)
    requires
        s < old(nodes)@.len(),
    ensures
        final(nodes)@.len() == old(nodes)@.len(),
        final(nodes)@[s as int].value == old(nodes)@[s as int].value,
        final(nodes)@[s as int].prev == old(nodes)@[s as int].prev,
        final(nodes)@[s as int].next == to,
        forall|i: int| 0 <= i < old(nodes)@.len() && i != s ==> final(nodes)@[i] == old(nodes)@[i],
    no_unwind
{
    nodes[s].next = to;
}

/// Points the backward link of the node in slot `s` at `to`.
pub(crate) fn set_prev<T>(nodes: &mut Vec<Node<T>>, s: usize, to: Link)
    requires
        s < old(nodes)@.len(),
    ensures
        final(nodes)@.len() == old(nodes)@.len(),
        final(nodes)@[s as int].value == old(nodes)@[s as int].value,
        final(nodes)@[s as int].next == old(nodes)@[s as int].next,
        final(nodes)@[s as int].prev == to,
        forall|i: int| 0 <= i < old(nodes)@.len() && i != s ==> final(nodes)@[i] == old(nodes)@[i],
    no_unwind
{
    nodes[s].prev = to;
}

/// Empties the node in slot `s` and hands out its payload.
pub(crate) fn take_value<T>(nodes: &mut Vec<Node<T>>, s: usize) -> (value: Option<T>)
    requires
        s < old(nodes)@.len(),
    ensures
        value == old(nodes)@[s as int].value,
        final(nodes)@.len() == old(nodes)@.len(),
        final(nodes)@[s as int].value is None,
        final(nodes)@[s as int].next == old(nodes)@[s as int].next,
        final(nodes)@[s as int].prev == old(nodes)@[s as int].prev,
        forall|i: int| 0 <= i < old(nodes)@.len() && i != s ==> final(nodes)@[i] == old(nodes)@[i],
{
    nodes[s].value.take()
}

impl<T> Chain<T> {
    /// The slots of the live nodes, front to back.
    pub(crate) open spec fn slots(&self) -> Seq<usize> {
        self.order@
    }

    /// The payloads of the live nodes, front to back.
    pub(crate) open spec fn view(&self) -> Seq<T> {
        Seq::new(self.order@.len(), |i: int| self.nodes@[self.order@[i] as int].value.unwrap())
    }

    /// The slot at position `k`, or nothing past the back.
    pub(crate) open spec fn slot_at(&self, k: int) -> Link {
        if 0 <= k < self.order@.len() {
            Some(self.order@[k])
        } else {
            None
        }
    }

    /// Every live slot is inside the arena, occupied, and listed once.
    #[verifier::opaque]
    pub(crate) open spec fn slots_live(&self) -> bool {
        &&& forall|i: int|
            0 <= i < self.order@.len() ==> (#[trigger] self.order@[i]) < self.nodes@.len()
                && self.nodes@[self.order@[i] as int].value is Some
        &&& forall|i: int, j: int|
            0 <= i < j < self.order@.len() ==> #[trigger] self.order@[i] != #[trigger] self.order@[j]
    }

    /// Link symmetry: each node's links name its neighbours in the order.
    #[verifier::opaque]
    pub(crate) open spec fn links_agree(&self) -> bool {
        forall|i: int|
            0 <= i < self.order@.len() ==> {
                &&& (#[trigger] self.nodes@[self.order@[i] as int]).next == self.slot_at(i + 1)
                &&& self.nodes@[self.order@[i] as int].prev == self.slot_at(i - 1)
            }
    }

    /// Every recorded free slot is inside the arena, vacant, and listed once.
    #[verifier::opaque]
    pub(crate) open spec fn free_vacant(&self) -> bool {
        &&& forall|i: int|
            0 <= i < self.free@.len() ==> (#[trigger] self.free@[i]) < self.nodes@.len()
                && self.nodes@[self.free@[i] as int].value is None
        &&& forall|i: int, j: int|
            0 <= i < j < self.free@.len() ==> #[trigger] self.free@[i] != #[trigger] self.free@[j]
    }

    /// The structural invariant of the chain.
    pub(crate) open spec fn wf(&self) -> bool {
        &&& self.len == self.order@.len()
        &&& self.len + self.free@.len() == self.nodes@.len()
        &&& self.head == self.slot_at(0)
        &&& self.tail == self.slot_at(self.len - 1)
        &&& self.slots_live()
        &&& self.links_agree()
        &&& self.free_vacant()
    }

    /// An empty chain with an empty arena.
    pub(crate) fn new() -> (c: Self)
        ensures
            c.wf(),
            c.slots() == Seq::<usize>::empty(),
            c.view() == Seq::<T>::empty(),
    {
        let c = Chain {
            nodes: Vec::new(),
            free: Vec::new(),
            head: None,
            tail: None,
            len: 0,
            order: Ghost(Seq::empty()),
        };
        proof {
            reveal(Chain::slots_live);
            reveal(Chain::links_agree);
            reveal(Chain::free_vacant);
            assert(c.view() =~= Seq::<T>::empty());
        }
        c
    }

    /// A live slot lies inside the arena and holds a payload.
    pub(crate) proof fn lemma_live(&self, k: int)
        requires
            self.wf(),
            0 <= k < self.slots().len(),
        ensures
            self.slots()[k] < self.nodes@.len(),
            self.nodes@[self.slots()[k] as int].value is Some,
            self.nodes@[self.slots()[k] as int].value.unwrap() == self.view()[k],
            self.nodes@[self.slots()[k] as int].next == self.slot_at(k + 1),
            self.nodes@[self.slots()[k] as int].prev == self.slot_at(k - 1),
    {
        reveal(Chain::slots_live);
        reveal(Chain::links_agree);
    }

    /// Two positions hold the same slot only if they are the same position.
    pub(crate) proof fn lemma_distinct(&self, i: int, j: int)
        requires
            self.wf(),
            0 <= i < self.slots().len(),
            0 <= j < self.slots().len(),
        ensures
            self.slots()[i] == self.slots()[j] ==> i == j,
    {
        reveal(Chain::slots_live);
    }

    /// The arena `after` is `self` with `slot` taken into use for a node
    /// with the given payload and links, and the two neighbours pointed at it.
    pub(crate) open spec fn linked_into(&self, after: &Self, slot: usize, prev: Link, next: Link, value: T) -> bool {
        &&& after.nodes@.len() >= self.nodes@.len()
        &&& slot < after.nodes@.len()
        &&& after.nodes@[slot as int].value == Some(value)
        &&& after.nodes@[slot as int].next == next
        &&& after.nodes@[slot as int].prev == prev
        &&& forall|s: int|
            0 <= s < self.nodes@.len() && s != slot ==> {
                &&& (#[trigger] after.nodes@[s]).value == self.nodes@[s].value
                &&& after.nodes@[s].next == if names(prev, s) {
                    Some(slot)
                } else {
                    self.nodes@[s].next
                }
                &&& after.nodes@[s].prev == if names(next, s) {
                    Some(slot)
                } else {
                    self.nodes@[s].prev
                }
            }
        &&& after.head == if prev is None {
            Some(slot)
        } else {
            self.head
        }
        &&& after.tail == if next is None {
            Some(slot)
        } else {
            self.tail
        }
        &&& after.len == self.len + 1
        &&& {
            ||| {
                &&& after.free@ == self.free@
                &&& slot == self.nodes@.len()
                &&& after.nodes@.len() == self.nodes@.len() + 1
            }
            ||| {
                &&& self.free@.len() > 0
                &&& after.free@ == self.free@.drop_last()
                &&& slot == self.free@.last()
                &&& after.nodes@.len() == self.nodes@.len()
            }
        }
    }

    /// How positions map across an insertion at `k`.
    proof fn lemma_insert_positions(a: Seq<usize>, k: int, slot: usize)
        requires
            0 <= k <= a.len(),
        ensures
            a.insert(k, slot).len() == a.len() + 1,
            a.insert(k, slot)[k] == slot,
            forall|i: int| 0 <= i < k ==> #[trigger] a.insert(k, slot)[i] == a[i],
            forall|i: int| k < i <= a.len() ==> #[trigger] a.insert(k, slot)[i] == a[i - 1],
    {
    }

    /// The slot taken into use by `linked_into` was not live before.
    proof fn lemma_link_fresh(&self, after: &Self, slot: usize, prev: Link, next: Link, value: T)
        requires
            self.wf(),
            self.linked_into(after, slot, prev, next, value),
        ensures
            forall|i: int| 0 <= i < self.order@.len() ==> #[trigger] self.order@[i] != slot,
    {
        reveal(Chain::slots_live);
        reveal(Chain::free_vacant);
        assert forall|i: int| 0 <= i < self.order@.len() implies #[trigger] self.order@[i]
            != slot by {
            if self.order@[i] == slot {
                if slot == self.nodes@.len() {
                } else {
                    assert(self.free@[self.free@.len() - 1] == slot);
                }
            }
        }
    }

    /// Linking a node in keeps the live and the free slots accounted for
    /// and inserts its payload into the view.
    proof fn lemma_link_live(&self, after: &Self, k: int, slot: usize, prev: Link, next: Link, value: T)
        requires
            self.wf(),
            0 <= k <= self.slots().len(),
            self.linked_into(after, slot, prev, next, value),
            after.slots() == self.slots().insert(k, slot),
        ensures
            after.slots_live(),
            after.free_vacant(),
            after.view() == self.view().insert(k, value),
    {
        self.lemma_link_fresh(after, slot, prev, next, value);
        Self::lemma_insert_positions(self.order@, k, slot);
        reveal(Chain::slots_live);
        reveal(Chain::free_vacant);
        let a = self.order@;
        let b = after.order@;
        assert forall|i: int| 0 <= i < b.len() implies (#[trigger] b[i]) < after.nodes@.len()
            && after.nodes@[b[i] as int].value is Some by {
            if i < k {
                assert(b[i] == a[i]);
            } else if i > k {
                assert(b[i] == a[i - 1]);
            }
        }
        assert forall|i: int, j: int| 0 <= i < j < b.len() implies #[trigger] b[i]
            != #[trigger] b[j] by {
            let oi = if i < k { i } else { i - 1 };
            let oj = if j < k { j } else { j - 1 };
            if i != k && j != k {
                assert(b[i] == a[oi]);
                assert(b[j] == a[oj]);
            } else if i == k {
                assert(b[j] == a[oj]);
            } else {
                assert(b[i] == a[oi]);
            }
        }
        assert forall|i: int| 0 <= i < after.free@.len() implies (#[trigger] after.free@[i])
            < after.nodes@.len() && after.nodes@[after.free@[i] as int].value is None by {
            assert(after.free@[i] == self.free@[i]);
        }
        assert forall|i: int, j: int| 0 <= i < j < after.free@.len() implies #[trigger] after.free@[i]
            != #[trigger] after.free@[j] by {
            assert(after.free@[i] == self.free@[i]);
            assert(after.free@[j] == self.free@[j]);
        }
        assert(after.view() =~= self.view().insert(k, value)) by {
            assert forall|i: int| 0 <= i < b.len() implies after.view()[i] == self.view().insert(
                k,
                value,
            )[i] by {
                if i < k {
                    assert(b[i] == a[i]);
                } else if i > k {
                    assert(b[i] == a[i - 1]);
                }
            }
        }
    }

    /// Linking a node in keeps every node's links in agreement with the
    /// order, and the two ends with its first and last node.
    proof fn lemma_link_links(&self, after: &Self, k: int, slot: usize, prev: Link, next: Link, value: T)
        requires
            self.wf(),
            0 <= k <= self.slots().len(),
            prev == self.slot_at(k - 1),
            next == self.slot_at(k),
            self.linked_into(after, slot, prev, next, value),
            after.slots() == self.slots().insert(k, slot),
        ensures
            after.links_agree(),
            after.head == after.slot_at(0),
            after.tail == after.slot_at(after.len - 1),
    {
        self.lemma_link_fresh(after, slot, prev, next, value);
        Self::lemma_insert_positions(self.order@, k, slot);
        let a = self.order@;
        let b = after.order@;
        let n = a.len() as int;
        if k > 0 {
            self.lemma_live(k - 1);
        }
        if k < n {
            self.lemma_live(k);
        }
        assert forall|i: int| 0 <= i < b.len() implies {
            &&& (#[trigger] after.nodes@[b[i] as int]).next == after.slot_at(i + 1)
            &&& after.nodes@[b[i] as int].prev == after.slot_at(i - 1)
        } by {
            if i < k {
                self.lemma_live(i);
                self.lemma_distinct(i, k - 1);
                if k < n {
                    self.lemma_distinct(i, k);
                }
                assert(b[i] == a[i]);
                if i + 1 < k {
                    assert(b[i + 1] == a[i + 1]);
                }
                if i > 0 {
                    assert(b[i - 1] == a[i - 1]);
                }
            } else if i > k {
                self.lemma_live(i - 1);
                self.lemma_distinct(i - 1, k);
                if k > 0 {
                    self.lemma_distinct(i - 1, k - 1);
                }
                assert(b[i] == a[i - 1]);
                if i + 1 <= n {
                    assert(b[i + 1] == a[i]);
                }
                if i - 1 > k {
                    assert(b[i - 1] == a[i - 2]);
                }
            } else {
                if k < n {
                    assert(b[k + 1] == a[k]);
                }
                if k > 0 {
                    assert(b[k - 1] == a[k - 1]);
                }
            }
        }
        if k > 0 {
            assert(b[0] == a[0]);
        }
        if k < n {
            assert(b[n] == a[n - 1]);
        }
        assert(after.links_agree()) by {
            reveal(Chain::links_agree);
        }
    }

    /// Taking a vacant or fresh slot into use at position `k` keeps the
    /// chain well formed and inserts the payload at `k`.
    pub(crate) proof fn lemma_link(&self, after: &Self, k: int, slot: usize, prev: Link, next: Link, value: T)
        requires
            self.wf(),
            0 <= k <= self.slots().len(),
            prev == self.slot_at(k - 1),
            next == self.slot_at(k),
            self.linked_into(after, slot, prev, next, value),
            after.slots() == self.slots().insert(k, slot),
        ensures
            after.wf(),
            after.view() == self.view().insert(k, value),
    {
        self.lemma_link_live(after, k, slot, prev, next, value);
        self.lemma_link_links(after, k, slot, prev, next, value);
    }

    /// Stores `node` in a vacant slot, or in a fresh one when none is
    /// vacant, and returns the slot.
    fn place(&mut self, node: Node<T>) -> (slot: usize)
        requires
            old(self).wf(),
        ensures
            final(self).head == old(self).head,
            final(self).tail == old(self).tail,
            final(self).len == old(self).len,
            final(self).order == old(self).order,
            final(self).len < final(self).nodes@.len(),
            slot < final(self).nodes@.len(),
            slot < old(self).nodes@.len() ==> old(self).nodes@[slot as int].value is None,
            final(self).nodes@[slot as int] == node,
            forall|i: int|
                0 <= i < old(self).nodes@.len() && i != slot ==> final(self).nodes@[i] == old(
                    self,
                ).nodes@[i],
            ({
                ||| {
                    &&& final(self).free@ == old(self).free@
                    &&& slot == old(self).nodes@.len()
                    &&& final(self).nodes@.len() == old(self).nodes@.len() + 1
                }
                ||| {
                    &&& old(self).free@.len() > 0
                    &&& final(self).free@ == old(self).free@.drop_last()
                    &&& slot == old(self).free@.last()
                    &&& final(self).nodes@.len() == old(self).nodes@.len()
                }
            }),
    {
        proof {
            reveal(Chain::free_vacant);
        }
        match self.free.pop() {
            Some(s) => {
                assert(s == old(self).free@[old(self).free@.len() - 1]);
                self.nodes[s] = node;
                s
            },
            None => {
                self.nodes.push(node);
                self.nodes.len() - 1
            },
        }
    }

    /// Links a new node holding `value` in at position `k`, between the
    /// nodes in slots `prev` and `next`, and returns its slot.
    pub(crate) fn link(&mut self, Ghost(k): Ghost<int>, prev: Link, next: Link, value: T) -> (slot: usize)
        requires
            old(self).wf(),
            0 <= k <= old(self).slots().len(),
            prev == old(self).slot_at(k - 1),
            next == old(self).slot_at(k),
        ensures
            final(self).wf(),
            final(self).slots() == old(self).slots().insert(k, slot),
            final(self).view() == old(self).view().insert(k, value),
    {
        proof {
            if k > 0 {
                self.lemma_live(k - 1);
            }
            if k < self.order@.len() {
                self.lemma_live(k);
            }
            if 0 < k < self.order@.len() {
                self.lemma_distinct(k - 1, k);
            }
        }
        let slot = self.place(Node { value: Some(value), next, prev });
        let ghost placed = self.nodes@;
        match prev {
            Some(p) => {
                set_next(&mut self.nodes, p, Some(slot));
            },
            None => {
                self.head = Some(slot);
            },
        }
        match next {
            Some(n) => {
                set_prev(&mut self.nodes, n, Some(slot));
            },
            None => {
                self.tail = Some(slot);
            },
        }
        assert(self.len < self.nodes.len());
        self.len = self.len + 1;
        proof {
            self.order@ = self.order@.insert(k, slot);
            assert forall|s: int| 0 <= s < old(self).nodes@.len() && s != slot implies {
                &&& (#[trigger] self.nodes@[s]).value == old(self).nodes@[s].value
                &&& self.nodes@[s].next == if names(prev, s) {
                    Some(slot)
                } else {
                    old(self).nodes@[s].next
                }
                &&& self.nodes@[s].prev == if names(next, s) {
                    Some(slot)
                } else {
                    old(self).nodes@[s].prev
                }
            } by {
                assert(placed[s] == old(self).nodes@[s]);
            }
            assert(old(self).linked_into(&*self, slot, prev, next, value));
            old(self).lemma_link(&*self, k, slot, prev, next, value);
        }
        slot
    }

    /// The arena `after` is `self` with the node in `slot` emptied, its
    /// neighbours joined to each other, and the slot recorded as free.
    pub(crate) open spec fn unlinked_from(&self, after: &Self, slot: usize) -> bool {
        let prev = self.nodes@[slot as int].prev;
        let next = self.nodes@[slot as int].next;
        &&& after.nodes@.len() == self.nodes@.len()
        &&& slot < self.nodes@.len()
        &&& after.nodes@[slot as int].value is None
        &&& forall|s: int|
            0 <= s < self.nodes@.len() && s != slot ==> {
                &&& (#[trigger] after.nodes@[s]).value == self.nodes@[s].value
                &&& after.nodes@[s].next == if names(prev, s) {
                    next
                } else {
                    self.nodes@[s].next
                }
                &&& after.nodes@[s].prev == if names(next, s) {
                    prev
                } else {
                    self.nodes@[s].prev
                }
            }
        &&& after.head == if prev is None {
            next
        } else {
            self.head
        }
        &&& after.tail == if next is None {
            prev
        } else {
            self.tail
        }
        &&& after.len + 1 == self.len
        &&& after.free@ == self.free@.push(slot)
    }

    /// How positions map across a removal at `k`.
    proof fn lemma_remove_positions(a: Seq<usize>, k: int)
        requires
            0 <= k < a.len(),
        ensures
            a.remove(k).len() == a.len() - 1,
            forall|i: int| 0 <= i < k ==> #[trigger] a.remove(k)[i] == a[i],
            forall|i: int| k <= i < a.len() - 1 ==> #[trigger] a.remove(k)[i] == a[i + 1],
    {
    }

    /// Detaching a node keeps the live and the free slots accounted for
    /// and removes its payload from the view.
    proof fn lemma_unlink_live(&self, after: &Self, k: int, slot: usize)
        requires
            self.wf(),
            0 <= k < self.slots().len(),
            self.slots()[k] == slot,
            self.unlinked_from(after, slot),
            after.slots() == self.slots().remove(k),
        ensures
            after.slots_live(),
            after.free_vacant(),
            after.view() == self.view().remove(k),
    {
        Self::lemma_remove_positions(self.order@, k);
        reveal(Chain::slots_live);
        reveal(Chain::free_vacant);
        let a = self.order@;
        let b = after.order@;
        assert forall|i: int| 0 <= i < b.len() implies (#[trigger] b[i]) < after.nodes@.len()
            && after.nodes@[b[i] as int].value is Some by {
            if i < k {
                assert(b[i] == a[i]);
            } else {
                assert(b[i] == a[i + 1]);
            }
        }
        assert forall|i: int, j: int| 0 <= i < j < b.len() implies #[trigger] b[i]
            != #[trigger] b[j] by {
            let oi = if i < k { i } else { i + 1 };
            let oj = if j < k { j } else { j + 1 };
            assert(b[i] == a[oi]);
            assert(b[j] == a[oj]);
        }
        let f = self.free@;
        let g = after.free@;
        assert forall|i: int| 0 <= i < g.len() implies (#[trigger] g[i]) < after.nodes@.len()
            && after.nodes@[g[i] as int].value is None by {
            if i < f.len() {
                assert(g[i] == f[i]);
            }
        }
        assert forall|i: int, j: int| 0 <= i < j < g.len() implies #[trigger] g[i]
            != #[trigger] g[j] by {
            assert(g[i] == f[i]);
            if j < f.len() {
                assert(g[j] == f[j]);
            }
        }
        assert(after.view() =~= self.view().remove(k)) by {
            assert forall|i: int| 0 <= i < b.len() implies after.view()[i] == self.view().remove(
                k,
            )[i] by {
                if i < k {
                    assert(b[i] == a[i]);
                } else {
                    assert(b[i] == a[i + 1]);
                }
            }
        }
    }

    /// Detaching a node keeps every other node's links in agreement with
    /// the order, and the two ends with its first and last node.
    proof fn lemma_unlink_links(&self, after: &Self, k: int, slot: usize)
        requires
            self.wf(),
            0 <= k < self.slots().len(),
            self.slots()[k] == slot,
            self.unlinked_from(after, slot),
            after.slots() == self.slots().remove(k),
        ensures
            after.links_agree(),
            after.head == after.slot_at(0),
            after.tail == after.slot_at(after.len - 1),
    {
        Self::lemma_remove_positions(self.order@, k);
        let a = self.order@;
        let b = after.order@;
        let n = a.len() as int;
        self.lemma_live(k);
        if k > 0 {
            self.lemma_live(k - 1);
        }
        if k + 1 < n {
            self.lemma_live(k + 1);
        }
        assert forall|i: int| 0 <= i < b.len() implies {
            &&& (#[trigger] after.nodes@[b[i] as int]).next == after.slot_at(i + 1)
            &&& after.nodes@[b[i] as int].prev == after.slot_at(i - 1)
        } by {
            let o = if i < k { i } else { i + 1 };
            assert(b[i] == a[o]);
            self.lemma_live(o);
            self.lemma_distinct(o, k);
            if k > 0 {
                self.lemma_distinct(o, k - 1);
            }
            if k + 1 < n {
                self.lemma_distinct(o, k + 1);
            }
            if i + 1 < b.len() {
                assert(b[i + 1] == a[if i + 1 < k { i + 1 } else { i + 2 }]);
            }
            if i > 0 {
                assert(b[i - 1] == a[if i - 1 < k { i - 1 } else { i }]);
            }
        }
        if n > 1 {
            assert(b[0] == a[if k == 0 { 1int } else { 0int }]);
            assert(b[n - 2] == a[if k == n - 1 { n - 2 } else { n - 1 }]);
        }
        assert(after.links_agree()) by {
            reveal(Chain::links_agree);
        }
    }

    /// Detaches the node in `slot`, which stands at position `k`, and
    /// returns its payload. No other node is touched beyond the two links
    /// that pointed at it.
    pub(crate) fn unlink(&mut self, Ghost(k): Ghost<int>, slot: usize) -> (value: T)
        requires
            old(self).wf(),
            0 <= k < old(self).slots().len(),
            old(self).slots()[k] == slot,
        ensures
            final(self).wf(),
            final(self).slots() == old(self).slots().remove(k),
            final(self).view() == old(self).view().remove(k),
            value == old(self).view()[k],
    {
        proof {
            self.lemma_live(k);
            if k > 0 {
                self.lemma_live(k - 1);
                self.lemma_distinct(k - 1, k);
            }
            if k + 1 < self.order@.len() {
                self.lemma_live(k + 1);
                self.lemma_distinct(k + 1, k);
            }
            if 0 < k && k + 1 < self.order@.len() {
                self.lemma_distinct(k - 1, k + 1);
            }
        }
        let prev = self.nodes[slot].prev;
        let next = self.nodes[slot].next;
        let value = take_value(&mut self.nodes, slot);
        let ghost taken = self.nodes@;
        match prev {
            Some(p) => {
                set_next(&mut self.nodes, p, next);
            },
            None => {
                self.head = next;
            },
        }
        match next {
            Some(n) => {
                set_prev(&mut self.nodes, n, prev);
            },
            None => {
                self.tail = prev;
            },
        }
        self.len = self.len - 1;
        self.free.push(slot);
        proof {
            self.order@ = self.order@.remove(k);
            assert forall|s: int| 0 <= s < old(self).nodes@.len() && s != slot implies {
                &&& (#[trigger] self.nodes@[s]).value == old(self).nodes@[s].value
                &&& self.nodes@[s].next == if names(prev, s) {
                    next
                } else {
                    old(self).nodes@[s].next
                }
                &&& self.nodes@[s].prev == if names(next, s) {
                    prev
                } else {
                    old(self).nodes@[s].prev
                }
            } by {
                assert(taken[s] == old(self).nodes@[s]);
            }
            assert(old(self).unlinked_from(&*self, slot));
            old(self).lemma_unlink_live(&*self, k, slot);
            old(self).lemma_unlink_links(&*self, k, slot);
        }
        value.unwrap()
    }

    /// The arena `after` is `self` but for the payload in `slot`.
    pub(crate) open spec fn revalued(&self, after: &Self, slot: usize) -> bool {
        &&& after.nodes@.len() == self.nodes@.len()
        &&& slot < self.nodes@.len()
        &&& after.nodes@[slot as int].value is Some
        &&& after.nodes@[slot as int].next == self.nodes@[slot as int].next
        &&& after.nodes@[slot as int].prev == self.nodes@[slot as int].prev
        &&& forall|s: int|
            0 <= s < self.nodes@.len() && s != slot ==> #[trigger] after.nodes@[s] == self.nodes@[s]
        &&& after.head == self.head
        &&& after.tail == self.tail
        &&& after.len == self.len
        &&& after.free@ == self.free@
        &&& after.order@ == self.order@
    }

    /// Replacing the payload of a live node keeps the chain well formed
    /// and changes the view at that node's position only.
    pub(crate) proof fn lemma_revalue(&self, after: &Self, k: int, slot: usize)
        requires
            self.wf(),
            0 <= k < self.slots().len(),
            self.slots()[k] == slot,
            self.revalued(after, slot),
        ensures
            after.wf(),
            after.slots() == self.slots(),
            after.view() == self.view().update(k, after.nodes@[slot as int].value.unwrap()),
    {
        let a = self.order@;
        assert(after.slots_live() && after.free_vacant()) by {
            reveal(Chain::slots_live);
            reveal(Chain::free_vacant);
        }
        assert forall|i: int| 0 <= i < a.len() implies {
            &&& (#[trigger] after.nodes@[a[i] as int]).next == after.slot_at(i + 1)
            &&& after.nodes@[a[i] as int].prev == after.slot_at(i - 1)
        } by {
            self.lemma_live(i);
        }
        assert(after.links_agree()) by {
            reveal(Chain::links_agree);
        }
        assert(after.view() =~= self.view().update(k, after.nodes@[slot as int].value.unwrap())) by {
            assert forall|i: int| 0 <= i < a.len() implies after.view()[i] == self.view().update(
                k,
                after.nodes@[slot as int].value.unwrap(),
            )[i] by {
                self.lemma_live(i);
                self.lemma_distinct(i, k);
            }
        }
    }

    /// The slot of the first node, if any.
    pub(crate) fn first(&self) -> (r: Link)
        requires
            self.wf(),
        ensures
            r == self.slot_at(0),
    {
        self.head
    }

    /// The slot of the last node, if any.
    pub(crate) fn last(&self) -> (r: Link)
        requires
            self.wf(),
        ensures
            r == self.slot_at(self.slots().len() - 1),
    {
        self.tail
    }

    /// The number of live nodes.
    pub(crate) fn count(&self) -> (r: usize)
        requires
            self.wf(),
        ensures
            r == self.slots().len(),
            r == self.view().len(),
    {
        self.len
    }

    /// The slot that follows `slot`, which stands at position `k`.
    pub(crate) fn next_of(&self, Ghost(k): Ghost<int>, slot: usize) -> (r: Link)
        requires
            self.wf(),
            0 <= k < self.slots().len(),
            self.slots()[k] == slot,
        ensures
            r == self.slot_at(k + 1),
    {
        proof {
            self.lemma_live(k);
        }
        self.nodes[slot].next
    }

    /// The slot that precedes `slot`, which stands at position `k`.
    pub(crate) fn prev_of(&self, Ghost(k): Ghost<int>, slot: usize) -> (r: Link)
        requires
            self.wf(),
            0 <= k < self.slots().len(),
            self.slots()[k] == slot,
        ensures
            r == self.slot_at(k - 1),
    {
        proof {
            self.lemma_live(k);
        }
        self.nodes[slot].prev
    }

    /// The payload of the node in `slot`, which stands at position `k`.
    pub(crate) fn value(&self, Ghost(k): Ghost<int>, slot: usize) -> (r: &T)
        requires
            self.wf(),
            0 <= k < self.slots().len(),
            self.slots()[k] == slot,
        ensures
            *r == self.view()[k],
    {
        proof {
            self.lemma_live(k);
        }
        self.nodes[slot].value.as_ref().unwrap()
    }

    /// Exclusive access to the payload of the node in `slot`, which stands
    /// at position `k`. Whatever is written through it replaces that payload
    /// and nothing else. The result is always `Some`.
    pub(crate) fn value_mut(&mut self, Ghost(k): Ghost<int>, slot: usize) -> (r: Option<&mut T>)
        requires
            old(self).wf(),
            0 <= k < old(self).slots().len(),
            old(self).slots()[k] == slot,
        ensures
            r is Some,
            *r.unwrap() == old(self).view()[k],
            final(self).wf(),
            final(self).slots() == old(self).slots(),
            final(self).view() == old(self).view().update(k, *final(r.unwrap())),
        no_unwind
    {
        proof {
            self.lemma_live(k);
            let pre = *self;
            assert forall|after: Chain<T>|
                #![trigger after.wf()]
                #![trigger after.view()]
                #![trigger after.slots()]
                pre.revalued(&after, slot) implies after.wf() && after.view() == pre.view().update(
                k,
                after.nodes@[slot as int].value.unwrap(),
            ) by {
                pre.lemma_revalue(&after, k, slot);
            }
        }
        match &mut self.nodes[slot].value {
            Some(v) => Some(v),
            None => None,
        }
    }
}

} // verus!
