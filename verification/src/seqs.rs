//! Small general facts about sequences that several modules share.

use vstd::prelude::*;

verus! {

/// Membership after a push: the old elements and the new one.
pub proof fn lemma_push_contains<A>(s: Seq<A>, e: A, q: A)
    ensures
        s.push(e).contains(q) <==> s.contains(q) || q == e,
{
    if s.push(e).contains(q) {
        let i = choose|i: int| 0 <= i < s.push(e).len() && s.push(e)[i] == q;
        if i < s.len() {
            assert(s[i] == q);
        }
    }
    if s.contains(q) {
        let i = choose|i: int| 0 <= i < s.len() && s[i] == q;
        assert(s.push(e)[i] == q);
    }
    if q == e {
        assert(s.push(e)[s.len() as int] == q);
    }
}

/// Pushing a fresh element keeps a sequence duplicate-free.
pub proof fn lemma_push_no_duplicates<A>(s: Seq<A>, e: A)
    requires
        s.no_duplicates(),
        !s.contains(e),
    ensures
        s.push(e).no_duplicates(),
{
    assert forall|i: int, j: int|
        0 <= i < s.push(e).len() && 0 <= j < s.push(e).len() && i != j implies s.push(e)[i]
        != s.push(e)[j] by {
        if i < s.len() && j < s.len() {
        } else if i < s.len() && j == s.len() {
            assert(s[i] == s.push(e)[i]);
        } else if j < s.len() && i == s.len() {
            assert(s[j] == s.push(e)[j]);
        }
    }
}

/// The prefix order on sequences is transitive.
pub proof fn lemma_prefix_trans<A>(a: Seq<A>, b: Seq<A>, c: Seq<A>)
    requires
        a.is_prefix_of(b),
        b.is_prefix_of(c),
    ensures
        a.is_prefix_of(c),
{
    assert forall|i: int| 0 <= i < a.len() implies a[i] == c[i] by {
        assert(a[i] == b.subrange(0, a.len() as int)[i]);
        assert(b[i] == c.subrange(0, b.len() as int)[i]);
    }
    assert(a =~= c.subrange(0, a.len() as int));
}

} // verus!
