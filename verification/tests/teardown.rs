use linked_list::LinkedList;
use std::cell::Cell;
use std::rc::Rc;

struct Elem {
    drops: Rc<Cell<i32>>,
}

impl Drop for Elem {
    fn drop(&mut self) {
        self.drops.set(self.drops.get() + 1);
    }
}

fn ring_of_four(drops: &Rc<Cell<i32>>) -> LinkedList<Elem> {
    let mut ring = LinkedList::new();
    ring.push_back(Elem { drops: drops.clone() });
    ring.push_front(Elem { drops: drops.clone() });
    ring.push_back(Elem { drops: drops.clone() });
    ring.push_front(Elem { drops: drops.clone() });
    ring
}

#[test]
fn test_drop() {
    let drops = Rc::new(Cell::new(0));
    let ring = ring_of_four(&drops);
    drop(ring);

    assert_eq!(drops.get(), 4);
}

#[test]
fn test_drop_with_pop() {
    let drops = Rc::new(Cell::new(0));
    let mut ring = ring_of_four(&drops);

    drop(ring.pop_back());
    drop(ring.pop_front());
    assert_eq!(drops.get(), 2);

    drop(ring);
    assert_eq!(drops.get(), 4);
}

#[test]
fn test_drop_clear() {
    let drops = Rc::new(Cell::new(0));
    let mut ring = ring_of_four(&drops);
    ring.clear();
    assert_eq!(drops.get(), 4);

    drop(ring);
    assert_eq!(drops.get(), 4);
}
