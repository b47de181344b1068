//! Small sequence helpers used across the crate: a filter written by
//! last-element recursion, so that loops that scan a vector front to back can
//! relate their accumulator to `keep` of the prefix scanned so far.

use vstd::prelude::*;

verus! {

/// The subsequence of `s` whose elements satisfy `p`, in order.
pub open spec fn keep<A>(s: Seq<A>, p: spec_fn(A) -> bool) -> Seq<A>
    decreases s.len(),
{
    if s.len() == 0 {
        Seq::<A>::empty()
    } else {
        let rest = keep(s.drop_last(), p);
        if p(s.last()) {
            rest.push(s.last())
        } else {
            rest
        }
    }
}

/// Extending the scanned prefix by one element extends `keep` of it by that
/// element exactly when the element satisfies the predicate.
pub proof fn lemma_keep_take_step<A>(s: Seq<A>, p: spec_fn(A) -> bool, i: int)
    requires
        0 <= i < s.len(),
    ensures
        keep(s.take(i + 1), p) == if p(s[i]) {
            keep(s.take(i), p).push(s[i])
        } else {
            keep(s.take(i), p)
        },
{
    let t = s.take(i + 1);
    assert(t.len() == i + 1);
    assert(t.last() == s[i]);
    assert(t.drop_last() =~= s.take(i));
}

/// A sequence is `keep` of its own full prefix.
pub proof fn lemma_keep_take_full<A>(s: Seq<A>, p: spec_fn(A) -> bool)
    ensures
        keep(s.take(s.len() as int), p) == keep(s, p),
{
    assert(s.take(s.len() as int) =~= s);
}

/// Membership in `keep`: exactly the elements of `s` that satisfy `p`.
pub proof fn lemma_keep_contains<A>(s: Seq<A>, p: spec_fn(A) -> bool, x: A)
    ensures
        keep(s, p).contains(x) <==> s.contains(x) && p(x),
    decreases s.len(),
{
    if s.len() > 0 {
        lemma_keep_contains(s.drop_last(), p, x);
        let rest = keep(s.drop_last(), p);
        assert(s.contains(x) <==> s.drop_last().contains(x) || s.last() == x) by {
            if s.contains(x) {
                let i = choose|i: int| 0 <= i < s.len() && s[i] == x;
                if i < s.len() - 1 {
                    assert(s.drop_last()[i] == x);
                }
            }
            if s.drop_last().contains(x) {
                let i = choose|i: int| 0 <= i < s.drop_last().len() && s.drop_last()[i] == x;
                assert(s[i] == x);
            }
            assert(s[s.len() - 1] == s.last());
        }
        assert(keep(s, p).contains(x) <==> rest.contains(x) || (p(s.last()) && s.last() == x)) by {
            if p(s.last()) {
                let ks = rest.push(s.last());
                assert(keep(s, p) == ks);
                if ks.contains(x) {
                    let i = choose|i: int| 0 <= i < ks.len() && ks[i] == x;
                    if i < rest.len() {
                        assert(rest[i] == x);
                    } else {
                        assert(ks[i] == s.last());
                    }
                }
                if rest.contains(x) {
                    let i = choose|i: int| 0 <= i < rest.len() && rest[i] == x;
                    assert(ks[i] == x);
                }
                assert(ks[ks.len() - 1] == s.last());
            }
        }
    }
}

/// Every element of `keep(s, p)` is an element of `s` satisfying `p`.
pub proof fn lemma_keep_elements<A>(s: Seq<A>, p: spec_fn(A) -> bool)
    ensures
        forall|j: int|
            0 <= j < keep(s, p).len() ==> s.contains(#[trigger] keep(s, p)[j]) && p(keep(s, p)[j]),
    decreases s.len(),
{
    if s.len() > 0 {
        lemma_keep_elements(s.drop_last(), p);
        assert forall|j: int| 0 <= j < keep(s, p).len() implies s.contains(
            #[trigger] keep(s, p)[j],
        ) && p(keep(s, p)[j]) by {
            let prev = keep(s.drop_last(), p);
            if j < prev.len() {
                assert(keep(s, p)[j] == prev[j]);
                let i = choose|i: int| 0 <= i < s.drop_last().len() && s.drop_last()[i] == prev[j];
                assert(s[i] == prev[j]);
            } else {
                assert(keep(s, p)[j] == s.last());
                assert(s[s.len() - 1] == s.last());
            }
        }
    }
}

/// Two distinct positions of a `keep` result come from two distinct
/// positions of the source, in order: a projection under which the source is
/// duplicate-free stays duplicate-free.
pub proof fn lemma_keep_unique_proj<A, K>(
    s: Seq<A>,
    p: spec_fn(A) -> bool,
    f: spec_fn(A) -> K,
    a: int,
    b: int,
)
    requires
        forall|i: int, j: int| 0 <= i < j < s.len() ==> f(#[trigger] s[i]) != f(#[trigger] s[j]),
        0 <= a < b < keep(s, p).len(),
    ensures
        f(keep(s, p)[a]) != f(keep(s, p)[b]),
    decreases s.len(),
{
    if s.len() > 0 {
        let rest = keep(s.drop_last(), p);
        assert(forall|i: int|
            0 <= i < s.drop_last().len() ==> #[trigger] s.drop_last()[i] == s[i]);
        if p(s.last()) {
            if b < rest.len() {
                lemma_keep_unique_proj(s.drop_last(), p, f, a, b);
            } else {
                lemma_keep_elements(s.drop_last(), p);
                assert(keep(s, p)[b] == s.last());
                assert(keep(s, p)[a] == rest[a]);
                let i = choose|i: int| 0 <= i < s.drop_last().len() && s.drop_last()[i] == rest[a];
                assert(s[i] == rest[a]);
                assert(s[s.len() - 1] == s.last());
                assert(f(s[i]) != f(s[s.len() - 1]));
            }
        } else {
            lemma_keep_unique_proj(s.drop_last(), p, f, a, b);
        }
    }
}

/// Predicates that agree on the elements of `s` keep the same subsequence.
pub proof fn lemma_keep_congruent<A>(s: Seq<A>, p: spec_fn(A) -> bool, q: spec_fn(A) -> bool)
    requires
        forall|i: int| 0 <= i < s.len() ==> (p(#[trigger] s[i]) <==> q(s[i])),
    ensures
        keep(s, p) == keep(s, q),
    decreases s.len(),
{
    if s.len() > 0 {
        assert(forall|i: int|
            0 <= i < s.drop_last().len() ==> #[trigger] s.drop_last()[i] == s[i]);
        lemma_keep_congruent(s.drop_last(), p, q);
        assert(s[s.len() - 1] == s.last());
    }
}

} // verus!
