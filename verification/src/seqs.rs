use vstd::prelude::*;

verus! {

broadcast use Seq::lemma_filter_push;

/// A sequence of bytes whose elements strictly decrease.
pub open spec fn strictly_desc(v: Seq<u8>) -> bool {
    forall|i: int, j: int| 0 <= i < j < v.len() ==> v[i] > v[j]
}

pub proof fn lemma_split_last<A>(s: Seq<A>)
    requires
        s.len() > 0,
    ensures
        s == s.drop_last().push(s.last()),
{
    assert(s == s.drop_last().push(s.last()));
}

/// Filtering by a predicate and by its complement splits a sequence in two.
pub proof fn lemma_filter_complement<A>(s: Seq<A>, p: spec_fn(A) -> bool, q: spec_fn(A) -> bool)
    requires
        forall|i: int| 0 <= i < s.len() ==> q(#[trigger] s[i]) == !p(s[i]),
    ensures
        s.filter(p).len() + s.filter(q).len() == s.len(),
    decreases s.len(),
{
    if s.len() > 0 {
        let t = s.drop_last();
        assert forall|i: int| 0 <= i < t.len() implies q(#[trigger] t[i]) == !p(t[i]) by {
            assert(t[i] == s[i]);
        }
        lemma_filter_complement(t, p, q);
        lemma_split_last(s);
        assert(q(s[s.len() - 1]) == !p(s[s.len() - 1]));
    }
}

/// Filtering by the union of two disjoint predicates keeps as many elements as the two filters.
pub proof fn lemma_filter_union<A>(
    s: Seq<A>,
    p: spec_fn(A) -> bool,
    q: spec_fn(A) -> bool,
    u: spec_fn(A) -> bool,
)
    requires
        forall|x: A| #[trigger] u(x) == (p(x) || q(x)),
        forall|x: A| !(#[trigger] p(x) && q(x)),
    ensures
        s.filter(u).len() == s.filter(p).len() + s.filter(q).len(),
    decreases s.len(),
{
    if s.len() > 0 {
        lemma_filter_union(s.drop_last(), p, q, u);
        lemma_split_last(s);
        assert(u(s.last()) == (p(s.last()) || q(s.last())));
        assert(!(p(s.last()) && q(s.last())));
    }
}

/// Filtering twice by the same predicate changes nothing.
pub proof fn lemma_filter_idem<A>(s: Seq<A>, p: spec_fn(A) -> bool)
    ensures
        s.filter(p).filter(p) == s.filter(p),
    decreases s.len(),
{
    if s.len() > 0 {
        lemma_filter_idem(s.drop_last(), p);
        lemma_split_last(s);
        let t = s.drop_last().filter(p);
        if p(s.last()) {
            assert(t.push(s.last()).filter(p) == t.filter(p).push(s.last()));
        }
    }
}

/// Filtering by two predicates that never both hold keeps nothing.
pub proof fn lemma_filter_disjoint<A>(s: Seq<A>, p: spec_fn(A) -> bool, q: spec_fn(A) -> bool)
    requires
        forall|x: A| !(#[trigger] p(x) && q(x)),
    ensures
        s.filter(p).filter(q) == Seq::<A>::empty(),
    decreases s.len(),
{
    if s.len() > 0 {
        lemma_filter_disjoint(s.drop_last(), p, q);
        lemma_split_last(s);
        let t = s.drop_last().filter(p);
        if p(s.last()) {
            assert(!q(s.last()));
            assert(t.push(s.last()).filter(q) == t.filter(q));
        }
    }
}

/// A filter that every element passes keeps the whole sequence.
pub proof fn lemma_filter_all<A>(s: Seq<A>, p: spec_fn(A) -> bool)
    requires
        forall|i: int| 0 <= i < s.len() ==> p(#[trigger] s[i]),
    ensures
        s.filter(p) == s,
    decreases s.len(),
{
    if s.len() > 0 {
        let t = s.drop_last();
        assert forall|i: int| 0 <= i < t.len() implies p(#[trigger] t[i]) by {
            assert(t[i] == s[i]);
        }
        lemma_filter_all(t, p);
        lemma_split_last(s);
        assert(p(s[s.len() - 1]));
    }
}

/// An element is in a filtered sequence exactly when it is in the sequence and passes the filter.
pub proof fn lemma_filter_mem<A>(s: Seq<A>, p: spec_fn(A) -> bool, x: A)
    ensures
        s.filter(p).contains(x) <==> (s.contains(x) && p(x)),
{
    if s.filter(p).contains(x) {
        s.lemma_filter_contains_rev(p, x);
        let i = choose|i: int| 0 <= i < s.filter(p).len() && s.filter(p)[i] == x;
        s.lemma_filter_pred(p, i);
    }
    if s.contains(x) && p(x) {
        let i = choose|i: int| 0 <= i < s.len() && s[i] == x;
        s.lemma_filter_contains(p, i);
    }
}

/// A weaker predicate keeps at least as many elements.
pub proof fn lemma_filter_len_mono<A>(s: Seq<A>, p: spec_fn(A) -> bool, q: spec_fn(A) -> bool)
    requires
        forall|x: A| #[trigger] p(x) ==> q(x),
    ensures
        s.filter(p).len() <= s.filter(q).len(),
    decreases s.len(),
{
    if s.len() > 0 {
        lemma_filter_len_mono(s.drop_last(), p, q);
        lemma_split_last(s);
        assert(p(s.last()) ==> q(s.last()));
    }
}

/// Filtering keeps a sequence free of duplicates.
pub proof fn lemma_filter_no_dup<A>(s: Seq<A>, p: spec_fn(A) -> bool)
    requires
        s.no_duplicates(),
    ensures
        s.filter(p).no_duplicates(),
    decreases s.len(),
{
    if s.len() > 0 {
        let t = s.drop_last();
        assert(t.no_duplicates()) by {
            assert forall|i: int, j: int| 0 <= i < t.len() && 0 <= j < t.len() && i != j implies t[i]
                != t[j] by {
                assert(t[i] == s[i] && t[j] == s[j]);
            }
        }
        lemma_filter_no_dup(t, p);
        lemma_split_last(s);
        if p(s.last()) {
            lemma_filter_mem(t, p, s.last());
            assert(!t.contains(s.last())) by {
                if t.contains(s.last()) {
                    let i = choose|i: int| 0 <= i < t.len() && t[i] == s.last();
                    assert(s[i] == s[s.len() - 1]);
                }
            }
            let f = t.filter(p);
            assert forall|i: int, j: int|
                0 <= i < f.push(s.last()).len() && 0 <= j < f.push(s.last()).len() && i
                    != j implies f.push(s.last())[i] != f.push(s.last())[j] by {
                if i < f.len() && j < f.len() {
                } else if i < f.len() {
                    assert(f.contains(f[i]));
                } else if j < f.len() {
                    assert(f.contains(f[j]));
                }
            }
        }
    }
}

/// Filtering keeps a strictly decreasing sequence strictly decreasing.
pub proof fn lemma_filter_desc(s: Seq<u8>, p: spec_fn(u8) -> bool)
    requires
        strictly_desc(s),
    ensures
        strictly_desc(s.filter(p)),
    decreases s.len(),
{
    if s.len() > 0 {
        let t = s.drop_last();
        assert(strictly_desc(t)) by {
            assert forall|i: int, j: int| 0 <= i < j < t.len() implies t[i] > t[j] by {
                assert(t[i] == s[i] && t[j] == s[j]);
            }
        }
        lemma_filter_desc(t, p);
        lemma_split_last(s);
        if p(s.last()) {
            let f = t.filter(p);
            assert forall|i: int| 0 <= i < f.len() implies f[i] > s.last() by {
                assert(f.contains(f[i]));
                lemma_filter_mem(t, p, f[i]);
                let k = choose|k: int| 0 <= k < t.len() && t[k] == f[i];
                assert(s[k] > s[s.len() - 1]);
            }
            let g = f.push(s.last());
            assert forall|i: int, j: int| 0 <= i < j < g.len() implies g[i] > g[j] by {
                if j == g.len() - 1 {
                    assert(f[i] > s.last());
                }
            }
        }
    }
}

/// Filtering by one predicate and then another keeps the elements that pass both.
pub proof fn lemma_filter_filter<A>(
    s: Seq<A>,
    p: spec_fn(A) -> bool,
    q: spec_fn(A) -> bool,
    both: spec_fn(A) -> bool,
)
    requires
        forall|x: A| #[trigger] both(x) == (p(x) && q(x)),
    ensures
        s.filter(p).filter(q) == s.filter(both),
    decreases s.len(),
{
    if s.len() > 0 {
        lemma_filter_filter(s.drop_last(), p, q, both);
        lemma_split_last(s);
        let t = s.drop_last().filter(p);
        assert(both(s.last()) == (p(s.last()) && q(s.last())));
        if p(s.last()) {
            assert(t.push(s.last()).filter(q) == if q(s.last()) {
                t.filter(q).push(s.last())
            } else {
                t.filter(q)
            });
        }
    }
}

/// Two predicates that agree on every element filter a sequence alike.
pub proof fn lemma_filter_congruent<A>(s: Seq<A>, p: spec_fn(A) -> bool, q: spec_fn(A) -> bool)
    requires
        forall|i: int| 0 <= i < s.len() ==> p(#[trigger] s[i]) == q(s[i]),
    ensures
        s.filter(p) == s.filter(q),
    decreases s.len(),
{
    if s.len() > 0 {
        let t = s.drop_last();
        assert forall|i: int| 0 <= i < t.len() implies p(#[trigger] t[i]) == q(t[i]) by {
            assert(t[i] == s[i]);
        }
        lemma_filter_congruent(t, p, q);
        lemma_split_last(s);
        assert(p(s[s.len() - 1]) == q(s[s.len() - 1]));
    }
}

/// An element is in a concatenation exactly when it is in one of the parts.
pub proof fn lemma_contains_add<A>(a: Seq<A>, b: Seq<A>, x: A)
    ensures
        (a + b).contains(x) <==> (a.contains(x) || b.contains(x)),
{
    if (a + b).contains(x) {
        let i = choose|i: int| 0 <= i < (a + b).len() && (a + b)[i] == x;
        if i < a.len() {
            assert(a[i] == x);
        } else {
            assert(b[i - a.len()] == x);
        }
    }
    if a.contains(x) {
        let i = choose|i: int| 0 <= i < a.len() && a[i] == x;
        assert((a + b)[i] == x);
    }
    if b.contains(x) {
        let i = choose|i: int| 0 <= i < b.len() && b[i] == x;
        assert((a + b)[a.len() + i] == x);
    }
}

/// Sequences that hold the same elements, each as often, keep as many through any filter.
pub proof fn lemma_multiset_filter_len<A>(a: Seq<A>, b: Seq<A>, p: spec_fn(A) -> bool)
    requires
        a.to_multiset() == b.to_multiset(),
    ensures
        a.filter(p).len() == b.filter(p).len(),
    decreases a.len(),
{
    broadcast use vstd::multiset::group_multiset_axioms;

    a.to_multiset_ensures();
    b.to_multiset_ensures();
    if a.len() == 0 {
        assert(b =~= Seq::<A>::empty());
        assert(a =~= Seq::<A>::empty());
    } else {
        let x = a.last();
        let a2 = a.drop_last();
        lemma_split_last(a);
        a2.to_multiset_ensures();
        assert(a.to_multiset() == a2.to_multiset().insert(x));
        assert(a.to_multiset().count(x) > 0);
        assert(b.contains(x));
        let i = choose|i: int| 0 <= i < b.len() && b[i] == x;
        let b2 = b.remove(i);
        assert(b2.to_multiset() == b.to_multiset().remove(x));
        assert(b2.to_multiset() =~= a2.to_multiset());
        lemma_multiset_filter_len(a2, b2, p);
        let l = b.subrange(0, i);
        let r = b.subrange(i + 1, b.len() as int);
        assert(b == l + seq![x] + r);
        assert(b2 == l + r);
        Seq::filter_distributes_over_add(l + seq![x], r, p);
        Seq::filter_distributes_over_add(l, seq![x], p);
        Seq::filter_distributes_over_add(l, r, p);
        assert(seq![x] == Seq::<A>::empty().push(x));
        assert(Seq::<A>::empty().filter(p) =~= Seq::<A>::empty());
    }
}

} // verus!
