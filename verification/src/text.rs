//! Comparing pieces of text.

use vstd::prelude::*;
use vstd::std_specs::iter::IteratorSpec;

verus! {

broadcast use vstd::string::group_string_axioms;

/// Tells whether `text` begins with `prefix`.
pub fn starts_with(text: &str, prefix: &str) -> (begins: bool)
    ensures
        begins == prefix@.is_prefix_of(text@),
{
    let mut rest = text.chars();
    let mut wanted = prefix.chars();
    let ghost mut done: int = 0;
    loop
        invariant
            0 <= done <= prefix@.len(),
            done <= text@.len(),
            rest.obeys_prophetic_iter_laws(),
            wanted.obeys_prophetic_iter_laws(),
            wanted.decrease() is Some,
            rest.remaining() == text@.skip(done),
            wanted.remaining() == prefix@.skip(done),
            text@.take(done) == prefix@.take(done),
        decreases wanted.decrease().unwrap(),
    {
        match wanted.next() {
            None => {
                assert(prefix@.take(done) == prefix@);
                return true;
            },
            Some(expected) => match rest.next() {
                None => return false,
                Some(found) => {
                    if found != expected {
                        assert(text@[done] != prefix@[done]);
                        return false;
                    }
                    proof {
                        done = done + 1;
                        assert(text@.take(done) =~= prefix@.take(done));
                    }
                },
            },
        }
    }
}

} // verus!
