//! Interned terms: the unit of frequency counting.

use vstd::prelude::*;
use internment::ArcIntern;
use std::hash::Hash;
use vstd::std_specs::iter::IteratorSpec;
use vstd::string::group_string_axioms;

verus! {

#[verifier::external_type_specification]
#[verifier::external_body]
#[verifier::reject_recursive_types(T)]
pub struct ExArcIntern<T: ?Sized + Eq + Hash + Send + Sync + 'static>(ArcIntern<T>);

/// An interned token string. Equal strings share one handle.
pub type Term = ArcIntern<String>;

/// The string that an interned handle stands for.
pub uninterp spec fn term_text(term: ArcIntern<String>) -> Seq<char>;

/// `ArcIntern::from_ref`: the canonical handle for `text`, created on first
/// use. Trusted: the handle stands for exactly the text it was made from.
#[verifier::external_body]
pub(crate) fn intern(text: &str) -> (term: Term)
    ensures
        term_text(term) == text@,
{
    ArcIntern::from_ref(text)
}

/// `ArcIntern::as_ref`: the interned string behind a handle. Trusted: it is
/// the text that the handle stands for.
#[verifier::external_body]
pub(crate) fn term_str(term: &Term) -> (text: &String)
    ensures
        text@ == term_text(*term),
{
    term.as_ref()
}

/// `ArcIntern::clone`: a second handle to the same interned string. Trusted:
/// the copy stands for the same text.
#[verifier::external_body]
pub(crate) fn term_clone(term: &Term) -> (copy: Term)
    ensures
        term_text(copy) == term_text(*term),
{
    term.clone()
}

/// `ArcIntern::eq`: handle identity. Trusted: since every string has exactly
/// one live handle, two handles are identical exactly when their texts are
/// equal.
#[verifier::external_body]
pub(crate) fn same_term(a: &Term, b: &Term) -> (same: bool)
    ensures
        same == (term_text(*a) == term_text(*b)),
{
    a == b
}

/// Strict lexical order on texts, character by character, a proper prefix
/// first.
pub open spec fn text_before(a: Seq<char>, b: Seq<char>) -> bool
    decreases a.len(),
{
    if b.len() == 0 {
        false
    } else if a.len() == 0 {
        true
    } else if a[0] != b[0] {
        (a[0] as int) < (b[0] as int)
    } else {
        text_before(a.drop_first(), b.drop_first())
    }
}

/// Of two different texts one stands before the other.
pub proof fn lemma_text_before_total(a: Seq<char>, b: Seq<char>)
    ensures
        a == b || text_before(a, b) || text_before(b, a),
    decreases a.len(),
{
    if a.len() == 0 || b.len() == 0 {
        assert(a.len() == 0 && b.len() == 0 ==> a =~= b);
    } else if a[0] == b[0] {
        lemma_text_before_total(a.drop_first(), b.drop_first());
        if a.drop_first() == b.drop_first() {
            assert(a =~= seq![a[0]] + a.drop_first());
            assert(b =~= seq![b[0]] + b.drop_first());
        }
    }
}

/// No text stands before itself, and no two stand before each other.
pub proof fn lemma_text_before_asymmetric(a: Seq<char>, b: Seq<char>)
    ensures
        !(text_before(a, b) && text_before(b, a)),
    decreases a.len(),
{
    if a.len() > 0 && b.len() > 0 && a[0] == b[0] {
        lemma_text_before_asymmetric(a.drop_first(), b.drop_first());
    }
}

/// The lexical order is transitive.
pub proof fn lemma_text_before_transitive(a: Seq<char>, b: Seq<char>, c: Seq<char>)
    requires
        text_before(a, b),
        text_before(b, c),
    ensures
        text_before(a, c),
    decreases a.len(),
{
    if a.len() > 0 && b.len() > 0 && c.len() > 0 && a[0] == b[0] && b[0] == c[0] {
        lemma_text_before_transitive(a.drop_first(), b.drop_first(), c.drop_first());
    }
}

/// Leaving out a common beginning does not change the order of two texts.
pub proof fn lemma_text_before_skip(a: Seq<char>, b: Seq<char>, common: int)
    requires
        0 <= common <= a.len(),
        common <= b.len(),
        forall|k: int| 0 <= k < common ==> a[k] == b[k],
    ensures
        text_before(a, b) == text_before(a.skip(common), b.skip(common)),
    decreases common,
{
    if common > 0 {
        lemma_text_before_skip(a.drop_first(), b.drop_first(), common - 1);
        assert(a.drop_first().skip(common - 1) =~= a.skip(common));
        assert(b.drop_first().skip(common - 1) =~= b.skip(common));
        assert(a[0] == b[0]);
    } else {
        assert(a.skip(0) =~= a);
        assert(b.skip(0) =~= b);
    }
}

/// Whether `a` stands before `b` in lexical order.
pub fn text_less(a: &str, b: &str) -> (less: bool)
    ensures
        less == text_before(a@, b@),
{
    broadcast use group_string_axioms;

    let mut left = a.chars();
    let mut right = b.chars();
    let ghost mut seen: int = 0;
    assert(a@.skip(0) =~= a@);
    assert(b@.skip(0) =~= b@);
    loop
        invariant
            0 <= seen <= a@.len(),
            seen <= b@.len(),
            left.obeys_prophetic_iter_laws(),
            right.obeys_prophetic_iter_laws(),
            left.remaining() == a@.skip(seen),
            right.remaining() == b@.skip(seen),
            forall|k: int| 0 <= k < seen ==> a@[k] == b@[k],
        decreases a@.len() - seen,
    {
        proof {
            lemma_text_before_skip(a@, b@, seen);
        }
        let x = left.next();
        let y = right.next();
        match (x, y) {
            (Some(x), Some(y)) => {
                assert(x == a@.skip(seen)[0] && y == b@.skip(seen)[0]);
                if x != y {
                    assert(a@.skip(seen).len() > 0 && b@.skip(seen).len() > 0);
                    assert(text_before(a@.skip(seen), b@.skip(seen)) == ((x as int) < (y as int)));
                    return x < y;
                }
                proof {
                    assert(a@.skip(seen).drop_first() =~= a@.skip(seen + 1));
                    assert(b@.skip(seen).drop_first() =~= b@.skip(seen + 1));
                    seen = seen + 1;
                }
            },
            (None, Some(_)) => {
                assert(a@.skip(seen).len() == 0 && b@.skip(seen).len() > 0);
                return true;
            },
            (_, None) => {
                assert(b@.skip(seen).len() == 0);
                return false;
            },
        }
    }
}

} // verus!
