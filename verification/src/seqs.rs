use vstd::prelude::*;

verus! {

/// Keeping the items of `s.push(x)` that meet `pred` keeps those of `s`, then
/// `x` if it meets `pred`.
pub proof fn lemma_filter_push<A>(s: Seq<A>, x: A, pred: spec_fn(A) -> bool)
    ensures
        s.push(x).filter(pred) == (if pred(x) { s.filter(pred).push(x) } else { s.filter(pred) }),
{
    reveal(Seq::filter);
    assert(s.push(x).drop_last() =~= s);
}

/// An item is kept by a filter exactly when it was there and meets the
/// predicate.
pub proof fn lemma_filter_contains<A>(s: Seq<A>, pred: spec_fn(A) -> bool, x: A)
    ensures
        s.filter(pred).contains(x) <==> (s.contains(x) && pred(x)),
    decreases s.len(),
{
    if s.len() > 0 {
        let t = s.drop_last();
        let y = s.last();
        assert(s =~= t.push(y));
        lemma_filter_contains(t, pred, x);
        lemma_filter_push(t, y, pred);
        if s.contains(x) && pred(x) {
            let i = choose|i: int| 0 <= i < s.len() && s[i] == x;
            if i < s.len() - 1 {
                assert(t[i] == x);
                assert(t.contains(x));
            } else {
                assert(s.filter(pred)[s.filter(pred).len() - 1] == x);
            }
        }
        if s.filter(pred).contains(x) {
            let f = t.filter(pred);
            let j = choose|j: int| 0 <= j < s.filter(pred).len() && s.filter(pred)[j] == x;
            if pred(y) && j == f.len() {
                assert(s[s.len() - 1] == x);
            } else {
                assert(f[j] == x);
                assert(f.contains(x));
                let i = choose|i: int| 0 <= i < t.len() && t[i] == x;
                assert(s[i] == x);
            }
        }
    } else {
        reveal(Seq::filter);
    }
}

/// Filtering twice keeps what meets both predicates.
pub proof fn lemma_filter_twice<A>(
    s: Seq<A>,
    p: spec_fn(A) -> bool,
    q: spec_fn(A) -> bool,
    both: spec_fn(A) -> bool,
)
    requires
        forall|x: A| #[trigger] both(x) == (p(x) && q(x)),
    ensures
        s.filter(p).filter(q) == s.filter(both),
    decreases s.len(),
{
    if s.len() == 0 {
        reveal(Seq::filter);
    } else {
        let t = s.drop_last();
        let y = s.last();
        assert(s =~= t.push(y));
        lemma_filter_twice(t, p, q, both);
        lemma_filter_push(t, y, p);
        lemma_filter_push(t, y, both);
        lemma_filter_push(t.filter(p), y, q);
        assert(both(y) == (p(y) && q(y)));
    }
}

/// Filtering with a predicate that every item meets changes nothing.
pub proof fn lemma_filter_all<A>(s: Seq<A>, pred: spec_fn(A) -> bool)
    requires
        forall|i: int| 0 <= i < s.len() ==> pred(#[trigger] s[i]),
    ensures
        s.filter(pred) == s,
    decreases s.len(),
{
    if s.len() == 0 {
        reveal(Seq::filter);
    } else {
        let t = s.drop_last();
        assert(s =~= t.push(s.last()));
        assert forall|i: int| 0 <= i < t.len() implies pred(#[trigger] t[i]) by {
            assert(s[i] == t[i]);
        }
        lemma_filter_all(t, pred);
        lemma_filter_push(t, s.last(), pred);
    }
}

} // verus!
