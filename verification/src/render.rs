//! Textual rendering of a list: its elements, each as its own type renders
//! it, separated by commas and enclosed in square brackets.

use crate::list::LinkedList;
use std::fmt::Debug;
use vstd::prelude::*;

verus! {

/// `String::push_str`: appends the slice to the end of the string.
pub assume_specification[ String::push_str ](s: &mut String, t: &str)
    ensures
        final(s)@ == old(s)@ + t@,
;

/// Formats `item` as its type's `Debug` implementation renders it. The
/// text is the element type's business; nothing is claimed of it.
#[verifier::external_body]
fn debug_text<T: Debug>(item: &T) -> (text: String) {
    format!("{:?}", item)
}

/// The texts `parts`, each but the first preceded by a comma and a space.
pub open spec fn joined(parts: Seq<Seq<char>>) -> Seq<char>
    decreases parts.len(),
{
    if parts.len() == 0 {
        Seq::empty()
    } else if parts.len() == 1 {
        parts[0]
    } else {
        joined(parts.drop_last()) + seq![',', ' '] + parts.last()
    }
}

/// The rendering of a sequence whose elements render as `parts`.
pub open spec fn bracketed(parts: Seq<Seq<char>>) -> Seq<char> {
    seq!['['] + joined(parts) + seq![']']
}

/// The views of the strings of `parts`.
pub open spec fn texts(parts: Seq<String>) -> Seq<Seq<char>> {
    parts.map_values(|p: String| p@)
}

/// Renders a sequence from the renderings of its elements.
pub fn render(parts: &Vec<String>) -> (text: String)
    ensures
        text@ == bracketed(texts(parts@)),
{
    let mut text = String::new();
    text.push_str("[");
    proof {
        reveal_strlit("[");
        reveal_strlit(", ");
        reveal_strlit("]");
        assert(text@ =~= seq!['['] + joined(texts(parts@.subrange(0, 0))));
    }
    let mut k: usize = 0;
    while k < parts.len()
        invariant
            k <= parts@.len(),
            text@ == seq!['['] + joined(texts(parts@.subrange(0, k as int))),
            ", "@ == seq![',', ' '],
        decreases parts@.len() - k,
    {
        let ghost done = texts(parts@.subrange(0, k as int));
        let ghost more = texts(parts@.subrange(0, k + 1));
        proof {
            assert(more.drop_last() =~= done);
            assert(more.last() == parts@[k as int]@);
        }
        if k > 0 {
            text.push_str(", ");
        }
        text.push_str(parts[k].as_str());
        proof {
            if k == 0 {
                assert(joined(done) =~= Seq::<char>::empty());
                assert(text@ =~= seq!['['] + joined(more));
            } else {
                assert(text@ =~= seq!['['] + joined(more));
            }
        }
        k = k + 1;
    }
    text.push_str("]");
    proof {
        assert(parts@.subrange(0, parts@.len() as int) =~= parts@);
    }
    text
}

impl<T: Debug> LinkedList<T> {
    /// The list rendered as text: the renderings of its elements, in
    /// order, separated by commas and enclosed in square brackets.
    pub fn debug_string(&self) -> (text: String)
        ensures
            exists|parts: Seq<Seq<char>>| parts.len() == self@.len() && text@ == #[trigger] bracketed(parts),
    {
        let mut parts: Vec<String> = Vec::new();
        let mut it = self.iter();
        proof {
            it.lemma_bounds();
        }
        while it.len() > 0
            invariant
                it.wf(),
                it.list() == self,
                it.front_index() + it.remaining().len() == self@.len(),
                parts@.len() == it.front_index(),
            decreases it.remaining().len(),
        {
            proof {
                it.lemma_bounds();
            }
            let item = it.next().unwrap();
            parts.push(debug_text(item));
            proof {
                it.lemma_bounds();
            }
        }
        let text = render(&parts);
        proof {
            assert(texts(parts@).len() == self@.len());
        }
        text
    }
}

} // verus!
