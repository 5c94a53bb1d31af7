//! Texts that a table can hold: those without an escape character.

use vstd::prelude::*;
use vstd::std_specs::iter::IteratorSpec;
use vstd::string::group_string_axioms;

verus! {

/// The text holds no escape character (U+001B).
pub open spec fn is_plain(text: Seq<char>) -> bool {
    forall|i: int| 0 <= i < text.len() ==> #[trigger] text[i] != '\u{1b}'
}

/// Whether `text` holds no escape character.
pub fn plain(text: &str) -> (plain: bool)
    ensures
        plain == is_plain(text@),
{
    broadcast use group_string_axioms;

    let mut chars = text.chars();
    let ghost mut seen: int = 0;
    assert(text@.skip(0) =~= text@);
    loop
        invariant
            0 <= seen <= text@.len(),
            chars.obeys_prophetic_iter_laws(),
            chars.remaining() == text@.skip(seen),
            forall|k: int| 0 <= k < seen ==> #[trigger] text@[k] != '\u{1b}',
        decreases text@.len() - seen,
    {
        let ghost before = chars.remaining();
        match chars.next() {
            Some(c) => {
                assert(before.len() > 0);
                assert(c == text@[seen]);
                if c == '\u{1b}' {
                    return false;
                }
                proof {
                    assert(text@.skip(seen).drop_first() =~= text@.skip(seen + 1));
                    seen = seen + 1;
                }
            },
            None => {
                assert(before.len() == 0);
                return true;
            },
        }
    }
}

} // verus!
