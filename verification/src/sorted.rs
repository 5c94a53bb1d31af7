//! Strictly sorted sequences are determined by what they hold.

use vstd::prelude::*;

verus! {

/// Each element of `s` stands before all later ones.
pub open spec fn strictly_sorted<A>(s: Seq<A>, before: spec_fn(A, A) -> bool) -> bool {
    forall|i: int, j: int| 0 <= i < j < s.len() ==> before(#[trigger] s[i], #[trigger] s[j])
}

/// No two elements stand before each other, and none before itself.
pub open spec fn asymmetric<A>(before: spec_fn(A, A) -> bool) -> bool {
    forall|x: A, y: A| !(#[trigger] before(x, y) && before(y, x))
}

/// Every element of `a` occurs in `b`.
pub open spec fn within<A>(a: Seq<A>, b: Seq<A>) -> bool {
    forall|i: int| 0 <= i < a.len() ==> b.contains(#[trigger] a[i])
}

proof fn lemma_sorted_prefix<A>(a: Seq<A>, b: Seq<A>, before: spec_fn(A, A) -> bool, k: nat)
    requires
        asymmetric(before),
        strictly_sorted(a, before),
        strictly_sorted(b, before),
        within(a, b),
        within(b, a),
        k <= a.len(),
    ensures
        k <= b.len(),
        forall|i: int| 0 <= i < k ==> a[i] == b[i],
    decreases k,
{
    if k > 0 {
        lemma_sorted_prefix(a, b, before, (k - 1) as nat);
        let at = k - 1;
        let x = a[at];
        assert(b.contains(a[at]));
        let j = choose|j: int| 0 <= j < b.len() && b[j] == x;
        if j < at {
            assert(a[j] == b[j]);
            assert(before(a[j], a[at]));
            assert(!(before(x, x) && before(x, x)));
        }
        let y = b[at];
        assert(a.contains(b[at]));
        let i = choose|i: int| 0 <= i < a.len() && a[i] == y;
        if i < at {
            assert(a[i] == b[i]);
            assert(before(b[i], b[at]));
            assert(!(before(y, y) && before(y, y)));
        }
        if j > at && i > at {
            assert(before(b[at], b[j]));
            assert(before(a[at], a[i]));
            assert(!(before(x, y) && before(y, x)));
        }
    }
}

/// Two strictly sorted sequences that hold the same elements are equal.
pub proof fn lemma_sorted_unique<A>(a: Seq<A>, b: Seq<A>, before: spec_fn(A, A) -> bool)
    requires
        asymmetric(before),
        strictly_sorted(a, before),
        strictly_sorted(b, before),
        within(a, b),
        within(b, a),
    ensures
        a == b,
{
    lemma_sorted_prefix(a, b, before, a.len());
    lemma_sorted_prefix(b, a, before, b.len());
    assert(a =~= b);
}

/// A sequence that lists every element of a set once is as long as the set
/// is large.
pub proof fn lemma_listing_len<A>(items: Seq<A>, all: Set<A>)
    requires
        items.no_duplicates(),
        forall|i: int| 0 <= i < items.len() ==> all.contains(#[trigger] items[i]),
        forall|x: A| #[trigger] all.contains(x) ==> items.contains(x),
    ensures
        all.finite(),
        all.len() == items.len(),
{
    items.unique_seq_to_set();
    vstd::seq_lib::seq_to_set_is_finite(items);
    assert(items.to_set() =~= all);
}

} // verus!
