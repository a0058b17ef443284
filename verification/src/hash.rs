//! Content hash of a list.
//!
//! A list feeds a hasher its length and then its elements, front to back,
//! so what the hasher sees depends on the elements and their order alone.

use crate::list::LinkedList;
use std::hash::{Hash, Hasher};
use vstd::prelude::*;

verus! {

/// `Hasher::write_usize`: feeds `len` to the hasher. What the hasher makes
/// of it is its own business; nothing is claimed.
#[verifier::external_body]
fn write_length<H: Hasher>(state: &mut H, len: usize) {
    state.write_usize(len);
}

/// `Hash::hash`: has `item` feed itself to the hasher. What it feeds is the
/// element type's business; nothing is claimed.
#[verifier::external_body]
fn write_item<T: Hash, H: Hasher>(item: &T, state: &mut H) {
    item.hash(state);
}

impl<T: Hash> Hash for LinkedList<T> {
    /// Feeds the hasher the length of the list, then each element in
    /// order.
    fn hash<H: Hasher>(&self, state: &mut H) {
        write_length(state, self.len());
        let mut it = self.iter();
        while it.len() > 0
            invariant
                it.wf(),
            decreases it.remaining().len(),
        {
            proof {
                it.lemma_bounds();
            }
            let item = it.next().unwrap();
            write_item(item, state);
        }
    }
}

} // verus!
