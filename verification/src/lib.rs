//! A doubly-linked sequence container with cursors, double-ended iterators
//! and in-place filtered extraction, verified against a `Seq` model.

mod arena;
pub mod compare;
pub mod convert;
pub mod cursor;
pub mod drain;
pub mod hash;
pub mod iter;
pub mod laws;
pub mod list;
pub mod model;
pub mod render;

pub use cursor::{Cursor, CursorMut};
pub use drain::DrainFilter;
pub use iter::{IntoIter, Iter, IterMut};
pub use list::LinkedList;
