use vstd::prelude::*;

use crate::card::{Card, HandType, Rank, Suit, lemma_rank_value_roundtrip, rank_with_value};
use crate::hand::{
    best_hand, buckets, evaluation, first_flush_suit, flush_hand, flush_phase, group_phase,
    high_card_phase, lemma_best_hand_values, lemma_first_flush_some, lemma_highest_some,
    lemma_present_card, lemma_group_phase_len,
    lemma_ranks_desc, lemma_sort_counts, lemma_sort_members, score_of, sort_by_rank_desc,
    straight_phase, suited_run, values_of, with_rank, without,
};
use crate::invariance::{lemma_evaluation_order_free, lemma_flush_suit_unique, lemma_values_add, lemma_values_take};
use crate::simulate::lemma_distinct_ranks;
use crate::seqs::{
    lemma_contains_add, lemma_filter_all, lemma_filter_filter, lemma_filter_len_mono, lemma_filter_mem,
    lemma_filter_no_dup, lemma_filter_union, lemma_split_last,
};
use crate::straight::{
    desc_values, highest_straight, low_value, present_values, straight_at, straight_values, value_in,
    value_present,
};
use crate::tracker::{group_ranks, has_count, not_among, rank_count, rank_is, ranks_at_most_four, ranks_desc,
    suit_is, take_at_most};

verus! {

broadcast use Seq::lemma_filter_push;

/// Each element of `v2` is at least the element of `v1` at the same place, and `v2` is no
/// shorter.
pub open spec fn dominates(v2: Seq<int>, v1: Seq<int>) -> bool {
    &&& v2.len() >= v1.len()
    &&& forall|i: int| 0 <= i < v1.len() ==> v2[i] >= #[trigger] v1[i]
}

/// The cards of one rank all show that rank's value.
proof fn lemma_bucket_values(y: Seq<Card>, r: Rank)
    ensures
        forall|i: int| 0 <= i < y.filter(rank_is(r)).len() ==> #[trigger] values_of(y.filter(rank_is(r)))[i]
            == r.value(),
{
    assert forall|i: int| 0 <= i < y.filter(rank_is(r)).len() implies #[trigger] values_of(
        y.filter(rank_is(r)),
    )[i] == r.value() by {
        let f = y.filter(rank_is(r));
        assert(f.contains(f[i]));
        lemma_filter_mem(y, rank_is(r), f[i]);
    }
}

/// Sorting by the first `k` ranks (highest first) with one more card: the values are those
/// without it where its rank is not yet among them, and otherwise dominate them with one
/// more element; all values are those of the first `k` ranks.
proof fn lemma_buckets_dominate(y: Seq<Card>, c: Card, k: int)
    requires
        0 <= k <= 13,
    ensures
        forall|i: int| 0 <= i < values_of(buckets(y, ranks_desc().take(k))).len()
            ==> #[trigger] values_of(buckets(y, ranks_desc().take(k)))[i] >= 13 - k,
        forall|i: int| 0 <= i < values_of(buckets(y.push(c), ranks_desc().take(k))).len()
            ==> #[trigger] values_of(buckets(y.push(c), ranks_desc().take(k)))[i] >= 13 - k,
        c.rank.value() >= 13 - k ==> values_of(buckets(y.push(c), ranks_desc().take(k))).len()
            == values_of(buckets(y, ranks_desc().take(k))).len() + 1,
        c.rank.value() >= 13 - k ==> dominates(
            values_of(buckets(y.push(c), ranks_desc().take(k))),
            values_of(buckets(y, ranks_desc().take(k))),
        ),
        c.rank.value() < 13 - k ==> buckets(y.push(c), ranks_desc().take(k)) == buckets(
            y,
            ranks_desc().take(k),
        ),
    decreases k,
{
    lemma_rank_value_roundtrip(c.rank, 0);
    let rd = ranks_desc();
    if k == 0 {
        assert(rd.take(0) =~= Seq::<Rank>::empty());
    } else {
        lemma_buckets_dominate(y, c, k - 1);
        let rs = rd.take(k);
        assert(rs.drop_last() =~= rd.take(k - 1));
        let r = rd[k - 1];
        assert(rs.last() == r);
        lemma_rank_value_roundtrip(r, 13 - k);
        assert(r.value() == 13 - k);
        let a = values_of(buckets(y, rd.take(k - 1)));
        let b = values_of(buckets(y.push(c), rd.take(k - 1)));
        let fy = y.filter(rank_is(r));
        let fc = y.push(c).filter(rank_is(r));
        lemma_bucket_values(y, r);
        lemma_bucket_values(y.push(c), r);
        lemma_values_add(buckets(y, rd.take(k - 1)), fy);
        lemma_values_add(buckets(y.push(c), rd.take(k - 1)), fc);
        let a2 = values_of(buckets(y, rs));
        let b2 = values_of(buckets(y.push(c), rs));
        assert(a2 == a + values_of(fy));
        assert(b2 == b + values_of(fc));
        assert forall|i: int| 0 <= i < a2.len() implies #[trigger] a2[i] >= 13 - k by {
            if i >= a.len() {
                assert(a2[i] == values_of(fy)[i - a.len()]);
            }
        }
        assert forall|i: int| 0 <= i < b2.len() implies #[trigger] b2[i] >= 13 - k by {
            if i >= b.len() {
                assert(b2[i] == values_of(fc)[i - b.len()]);
            }
        }
        if c.rank.value() > 13 - k {
            assert(c.rank != r);
            assert(fc == fy);
            assert forall|i: int| 0 <= i < a2.len() implies b2[i] >= #[trigger] a2[i] by {
                if i >= a.len() {
                    assert(a2[i] == values_of(fy)[i - a.len()]);
                    if i >= b.len() {
                        assert(b2[i] == values_of(fy)[i - b.len()]);
                    } else {
                        assert(b2[i] == b[i]);
                    }
                } else {
                    assert(b2[i] == b[i] && a2[i] == a[i]);
                }
            }
        } else if c.rank.value() == 13 - k {
            lemma_rank_value_roundtrip(c.rank, 13 - k);
            assert(c.rank == r);
            assert(fc == fy.push(c));
            assert(values_of(fc) =~= values_of(fy).push(c.rank.value() as int));
            assert forall|i: int| 0 <= i < a2.len() implies b2[i] >= #[trigger] a2[i] by {
                if i >= a.len() {
                    assert(a2[i] == values_of(fy)[i - a.len()]);
                    assert(b2[i] == values_of(fc)[i - a.len()]);
                }
            }
        } else {
            assert(c.rank != r);
            assert(fc == fy);
        }
    }
}

/// Sorting and then filtering is filtering and then sorting.
proof fn lemma_sort_filter(z: Seq<Card>, p: spec_fn(Card) -> bool, rs: Seq<Rank>)
    ensures
        buckets(z, rs).filter(p) == buckets(z.filter(p), rs),
    decreases rs.len(),
{
    if rs.len() > 0 {
        let r = rs.last();
        lemma_sort_filter(z, p, rs.drop_last());
        Seq::filter_distributes_over_add(buckets(z, rs.drop_last()), z.filter(rank_is(r)), p);
        let both = |x: Card| rank_is(r)(x) && p(x);
        lemma_filter_filter(z, rank_is(r), p, both);
        lemma_filter_filter(z, p, rank_is(r), both);
    } else {
        assert(Seq::<Card>::empty().filter(p) =~= Seq::<Card>::empty()) by {
            reveal_with_fuel(Seq::filter, 1);
        }
    }
}

/// Adding a card to the cards: through any filter that it passes, the sorted values with it
/// dominate those without it and have one element more; through a filter that it fails,
/// nothing changes.
pub proof fn lemma_filter_dominates(s: Seq<Card>, c: Card, p: spec_fn(Card) -> bool)
    ensures
        p(c) ==> dominates(
            values_of(sort_by_rank_desc(s.push(c)).filter(p)),
            values_of(sort_by_rank_desc(s).filter(p)),
        ),
        p(c) ==> values_of(sort_by_rank_desc(s.push(c)).filter(p)).len() == values_of(
            sort_by_rank_desc(s).filter(p),
        ).len() + 1,
        !p(c) ==> sort_by_rank_desc(s.push(c)).filter(p) == sort_by_rank_desc(s).filter(p),
{
    lemma_sort_filter(s, p, ranks_desc());
    lemma_sort_filter(s.push(c), p, ranks_desc());
    assert(ranks_desc().take(13) =~= ranks_desc());
    lemma_rank_value_roundtrip(c.rank, 0);
    if p(c) {
        lemma_buckets_dominate(s.filter(p), c, 13);
    }
}

/// Ranks in strictly falling order of value.
spec fn ranks_strict_desc(v: Seq<Rank>) -> bool {
    forall|i: int, j: int| 0 <= i < j < v.len() ==> v[i].value() > v[j].value()
}

proof fn lemma_filter_ranks_desc(v: Seq<Rank>, p: spec_fn(Rank) -> bool)
    requires
        ranks_strict_desc(v),
    ensures
        ranks_strict_desc(v.filter(p)),
    decreases v.len(),
{
    if v.len() > 0 {
        let t = v.drop_last();
        assert(ranks_strict_desc(t)) by {
            assert forall|i: int, j: int| 0 <= i < j < t.len() implies t[i].value() > t[j].value() by {
                assert(t[i] == v[i] && t[j] == v[j]);
            }
        }
        lemma_filter_ranks_desc(t, p);
        lemma_split_last(v);
        if p(v.last()) {
            let f = t.filter(p);
            assert forall|i: int| 0 <= i < f.len() implies f[i].value() > v.last().value() by {
                assert(f.contains(f[i]));
                lemma_filter_mem(t, p, f[i]);
                let k = choose|k: int| 0 <= k < t.len() && t[k] == f[i];
                assert(v[k] == t[k]);
            }
            let g = f.push(v.last());
            assert forall|i: int, j: int| 0 <= i < j < g.len() implies g[i].value() > g[j].value() by {
                if j == g.len() - 1 {
                    assert(f[i].value() > v.last().value());
                }
            }
        }
    }
}

/// The ranks that pass a test, highest first: each passes, every one that passes is there,
/// and their values strictly fall.
proof fn lemma_rank_list(p: spec_fn(Rank) -> bool)
    ensures
        ranks_strict_desc(ranks_desc().filter(p)),
        forall|r: Rank| #[trigger] ranks_desc().filter(p).contains(r) <==> p(r),
        forall|i: int| 0 <= i < ranks_desc().filter(p).len() ==> p(#[trigger] ranks_desc().filter(p)[i]),
{
    lemma_ranks_desc();
    let rd = ranks_desc();
    assert(ranks_strict_desc(rd)) by {
        assert forall|i: int, j: int| 0 <= i < j < rd.len() implies rd[i].value() > rd[j].value() by {
            lemma_rank_value_roundtrip(rd[i], 12 - i);
            lemma_rank_value_roundtrip(rd[j], 12 - j);
        }
    }
    lemma_filter_ranks_desc(rd, p);
    assert forall|r: Rank| #[trigger] rd.filter(p).contains(r) <==> p(r) by {
        lemma_filter_mem(rd, p, r);
    }
    assert forall|i: int| 0 <= i < rd.filter(p).len() implies p(#[trigger] rd.filter(p)[i]) by {
        assert(rd.filter(p).contains(rd.filter(p)[i]));
    }
}

/// Adding a card of rank `c.rank` raises that rank's count by one and leaves the others.
proof fn lemma_counts_push(s: Seq<Card>, c: Card, r: Rank)
    ensures
        rank_count(sort_by_rank_desc(s.push(c)), r) == rank_count(s, r) + (if c.rank == r { 1int } else { 0int }),
        rank_count(sort_by_rank_desc(s), r) == rank_count(s, r),
{
    lemma_sort_counts(s);
    lemma_sort_counts(s.push(c));
}

/// Distinct cards: at most one of each rank and suit, so a rank's cards outside a suit
/// number all of that rank but one at most.
proof fn lemma_rank_outside_suit(z: Seq<Card>, a: Rank, u: Suit)
    requires
        z.no_duplicates(),
    ensures
        rank_count(z, a) <= 1 + z.filter(|c: Card| c.rank == a && c.suit != u).len(),
{
    let both = |c: Card| c.rank == a && c.suit == u;
    let other = |c: Card| c.rank == a && c.suit != u;
    lemma_filter_union(z, both, other, rank_is(a));
    let f = z.filter(both);
    lemma_filter_no_dup(z, both);
    if f.len() >= 2 {
        assert(f.contains(f[0]) && f.contains(f[1]));
        lemma_filter_mem(z, both, f[0]);
        lemma_filter_mem(z, both, f[1]);
        assert(f[0] == f[1]);
    }
}

/// Cards passing tests that never hold together number at most all the cards.
proof fn lemma_disjoint3(z: Seq<Card>, p: spec_fn(Card) -> bool, q: spec_fn(Card) -> bool, w: spec_fn(Card) -> bool)
    requires
        forall|c: Card| !(#[trigger] p(c) && q(c)),
        forall|c: Card| !(#[trigger] p(c) && w(c)),
        forall|c: Card| !(#[trigger] q(c) && w(c)),
    ensures
        z.filter(p).len() + z.filter(q).len() + z.filter(w).len() <= z.len(),
{
    let pq = |c: Card| p(c) || q(c);
    let all = |c: Card| pq(c) || w(c);
    lemma_filter_union(z, p, q, pq);
    lemma_filter_union(z, pq, w, all);
    lemma_filter_len_mono(z, all, |c: Card| true);
    lemma_filter_all(z, |c: Card| true);
}

/// With a flush among at most seven distinct cards, no rank occurs four times, and no rank
/// occurs three times beside another occurring twice or more.
proof fn lemma_flush_excludes(z: Seq<Card>, u: Suit, a: Rank, b: Rank)
    requires
        z.no_duplicates(),
        z.len() <= 7,
        z.filter(suit_is(u)).len() >= 5,
    ensures
        rank_count(z, a) < 4,
        a != b ==> !(rank_count(z, a) >= 3 && rank_count(z, b) >= 2),
{
    lemma_rank_outside_suit(z, a, u);
    lemma_rank_outside_suit(z, b, u);
    let oa = |c: Card| c.rank == a && c.suit != u;
    let ob = |c: Card| c.rank == b && c.suit != u;
    if a != b {
        lemma_disjoint3(z, oa, ob, suit_is(u));
    } else {
        lemma_disjoint3(z, oa, |c: Card| false, suit_is(u));
    }
}

/// Ranks that pass tests never holding together number at most all the cards.
proof fn lemma_ranks_fill(z: Seq<Card>, a: Rank, b: Rank, d: Rank)
    requires
        a != b,
        a != d,
        b != d,
    ensures
        rank_count(z, a) + rank_count(z, b) + rank_count(z, d) <= z.len(),
        rank_count(z, a) + rank_count(z, b) <= z.len(),
{
    lemma_disjoint3(z, rank_is(a), rank_is(b), rank_is(d));
}

proof fn lemma_ranks_fill2(z: Seq<Card>, a: Rank, b: Rank)
    requires
        a != b,
    ensures
        rank_count(z, a) + rank_count(z, b) <= z.len(),
{
    lemma_disjoint3(z, rank_is(a), rank_is(b), |c: Card| false);
    assert(z.filter(|c: Card| false).len() >= 0);
}

/// A larger set of present values holds a straight at least as high.
proof fn lemma_straight_grows(p: spec_fn(int) -> bool, q: spec_fn(int) -> bool, top: int)
    requires
        forall|v: int| #[trigger] p(v) ==> q(v),
    ensures
        highest_straight(p, top) matches Some(t) ==> (highest_straight(q, top) matches Some(t2) && t2 >= t),
    decreases top,
{
    if top >= 3 {
        if straight_at(p, top) {
            assert forall|k: int| 0 <= k < 5 implies #[trigger] q(low_value(top - k)) by {
                assert(p(low_value(top - k)));
            }
        } else if !straight_at(q, top) {
            lemma_straight_grows(p, q, top - 1);
        } else {
            if let Some(t) = highest_straight(p, top) {
                lemma_highest_bound(p, top - 1);
            }
        }
    }
}

proof fn lemma_highest_bound(p: spec_fn(int) -> bool, top: int)
    ensures
        highest_straight(p, top) matches Some(t) ==> t <= top,
    decreases top,
{
    if top >= 3 && !straight_at(p, top) {
        lemma_highest_bound(p, top - 1);
    }
}

/// More cards of each rank keep every present value present.
proof fn lemma_present_grows(x: Seq<Card>, y: Seq<Card>)
    requires
        forall|r: Rank| #[trigger] rank_count(x, r) <= rank_count(y, r),
    ensures
        forall|v: int| #[trigger] value_in(present_values(x))(v) ==> value_in(present_values(y))(v),
{
    assert forall|v: int| #[trigger] value_in(present_values(x))(v) implies value_in(present_values(y))(v) by {
        lemma_filter_mem(desc_values(), value_present(x), v as u8);
        lemma_filter_mem(desc_values(), value_present(y), v as u8);
        assert(rank_count(x, rank_with_value(v as u8 as int)) <= rank_count(y, rank_with_value(v as u8 as int)));
    }
}

/// `b2` is at least `b1` in the order of their elements from the `i`-th on.
spec fn lex_ge(b2: Seq<int>, b1: Seq<int>, i: int) -> bool
    decreases 5 - i,
{
    if i < 0 || i >= 5 {
        true
    } else {
        b2[i] > b1[i] || (b2[i] == b1[i] && lex_ge(b2, b1, i + 1))
    }
}

/// A hand at least as strong: a higher category, or the same one and values at least as
/// high in order.
spec fn at_least(h2: HandType, b2: Seq<int>, h1: HandType, b1: Seq<int>) -> bool {
    h2.value() > h1.value() || (h2 == h1 && lex_ge(b2, b1, 0))
}

spec fn in_range(b: Seq<int>) -> bool {
    b.len() == 5 && forall|i: int| 0 <= i < 5 ==> 0 <= #[trigger] b[i] <= 12
}

proof fn lemma_at_least_score(h2: HandType, b2: Seq<int>, h1: HandType, b1: Seq<int>)
    requires
        in_range(b1),
        in_range(b2),
        at_least(h2, b2, h1, b1),
    ensures
        score_of(h2, b2) >= score_of(h1, b1),
{
    reveal_with_fuel(lex_ge, 6);
    assert(0 <= b1[0] <= 12 && 0 <= b1[1] <= 12 && 0 <= b1[2] <= 12 && 0 <= b1[3] <= 12 && 0
        <= b1[4] <= 12);
    assert(0 <= b2[0] <= 12 && 0 <= b2[1] <= 12 && 0 <= b2[2] <= 12 && 0 <= b2[3] <= 12 && 0
        <= b2[4] <= 12);
    assert(h1.value() <= 9 && h2.value() <= 9);
}

proof fn lemma_pointwise_lex(b2: Seq<int>, b1: Seq<int>)
    requires
        forall|i: int| 0 <= i < 5 ==> #[trigger] b2[i] >= b1[i],
    ensures
        lex_ge(b2, b1, 0),
{
    reveal_with_fuel(lex_ge, 6);
    assert(b2[0] >= b1[0] && b2[1] >= b1[1] && b2[2] >= b1[2] && b2[3] >= b1[3] && b2[4] >= b1[4]);
}

proof fn lemma_values_range(x: Seq<Card>)
    ensures
        forall|i: int| 0 <= i < values_of(x).len() ==> 0 <= #[trigger] values_of(x)[i] <= 12,
{
    assert forall|i: int| 0 <= i < values_of(x).len() implies 0 <= #[trigger] values_of(x)[i] <= 12 by {
        lemma_rank_value_roundtrip(x[i].rank, 0);
    }
}

proof fn lemma_take_dominates(v2: Seq<int>, v1: Seq<int>, n: int)
    requires
        dominates(v2, v1),
        0 <= n,
    ensures
        dominates(take_at_most(v2, n), take_at_most(v1, n)),
{
}

/// The ranks that occur `k` times, highest first: the first is the highest such rank and
/// the second the highest other one.
proof fn lemma_group_top(x: Seq<Card>, k: int)
    requires
        k > 0,
    ensures
        forall|r: Rank| #[trigger] group_ranks(x, k).contains(r) <==> rank_count(x, r) == k,
        group_ranks(x, k).len() > 0 ==> rank_count(x, group_ranks(x, k)[0]) == k,
        group_ranks(x, k).len() > 0 ==> forall|r: Rank|
            rank_count(x, r) == k ==> #[trigger] r.value() <= group_ranks(x, k)[0].value(),
        group_ranks(x, k).len() > 1 ==> rank_count(x, group_ranks(x, k)[1]) == k,
        group_ranks(x, k).len() > 1 ==> group_ranks(x, k)[1] != group_ranks(x, k)[0],
        group_ranks(x, k).len() > 1 ==> group_ranks(x, k)[1].value() < group_ranks(x, k)[0].value(),
        group_ranks(x, k).len() > 1 ==> forall|r: Rank|
            rank_count(x, r) == k && r != group_ranks(x, k)[0] ==> #[trigger] r.value() <= group_ranks(
                x,
                k,
            )[1].value(),
        group_ranks(x, k).len() == 1 ==> forall|r: Rank| rank_count(x, r) == k ==> r == #[trigger] group_ranks(x, k)[0],
        group_ranks(x, k).len() == 2 ==> forall|r: Rank|
            rank_count(x, r) == k ==> r == #[trigger] group_ranks(x, k)[0] || r == group_ranks(x, k)[1],
{
    let p = has_count(x, k);
    lemma_rank_list(p);
    let f = group_ranks(x, k);
    assert forall|r: Rank| rank_count(x, r) == k implies exists|j: int| 0 <= j < f.len() && f[j] == r by {
        assert(f.contains(r));
    }
    if f.len() > 0 {
        assert(p(f[0]));
        assert forall|r: Rank| rank_count(x, r) == k implies #[trigger] r.value() <= f[0].value() by {
            let j = choose|j: int| 0 <= j < f.len() && f[j] == r;
        }
    }
    if f.len() > 1 {
        assert(p(f[1]));
        assert forall|r: Rank| rank_count(x, r) == k && r != f[0] implies #[trigger] r.value() <= f[1].value() by {
            let j = choose|j: int| 0 <= j < f.len() && f[j] == r;
        }
    }
    if f.len() == 1 {
        assert forall|r: Rank| rank_count(x, r) == k implies r == #[trigger] f[0] by {
            let j = choose|j: int| 0 <= j < f.len() && f[j] == r;
        }
    }
    if f.len() == 2 {
        assert forall|r: Rank| rank_count(x, r) == k implies r == #[trigger] f[0] || r == f[1] by {
            let j = choose|j: int| 0 <= j < f.len() && f[j] == r;
        }
    }
}

/// The cards of one rank show that rank's value, as many times as it occurs.
proof fn lemma_with_rank_values(x: Seq<Card>, r: Rank)
    ensures
        values_of(with_rank(x, r)).len() == rank_count(x, r),
        forall|i: int| 0 <= i < rank_count(x, r) ==> #[trigger] values_of(with_rank(x, r))[i] == r.value(),
{
    lemma_bucket_values(x, r);
}

/// The hand that the groups of equal ranks make, with the five highest cards standing in
/// where there is no group.
spec fn kvals(x: Seq<Card>) -> (HandType, Seq<int>) {
    high_card_phase(x, group_phase(x).0, values_of(group_phase(x).1))
}

proof fn lemma_concat_dom(a: Seq<int>, t2: Seq<int>, t1: Seq<int>)
    requires
        dominates(t2, t1),
    ensures
        dominates(a + t2, a + t1),
{
    assert forall|i: int| 0 <= i < (a + t1).len() implies (a + t2)[i] >= #[trigger] (a + t1)[i] by {
        if i >= a.len() {
            assert((a + t1)[i] == t1[i - a.len()] && (a + t2)[i] == t2[i - a.len()]);
        }
    }
}

/// The facts about the cards with and without the new one that every case uses.
proof fn lemma_setup(s: Seq<Card>, c: Card)
    requires
        s.push(c).no_duplicates(),
        5 <= s.len() <= 6,
    ensures
        sort_by_rank_desc(s).len() == s.len(),
        sort_by_rank_desc(s.push(c)).len() == s.len() + 1,
        ranks_at_most_four(sort_by_rank_desc(s)),
        ranks_at_most_four(sort_by_rank_desc(s.push(c))),
        !s.contains(c),
        !sort_by_rank_desc(s).contains(c),
        forall|r: Rank| #[trigger] rank_count(sort_by_rank_desc(s), r) == rank_count(s, r),
        forall|r: Rank| #[trigger] rank_count(sort_by_rank_desc(s.push(c)), r) == rank_count(s, r) + (if c.rank
            == r { 1int } else { 0int }),
{
    let z = s.push(c);
    assert(s.no_duplicates()) by {
        assert forall|i: int, j: int| 0 <= i < s.len() && 0 <= j < s.len() && i != j implies s[i] != s[j] by {
            assert(z[i] == s[i] && z[j] == s[j]);
        }
    }
    assert(!s.contains(c)) by {
        if s.contains(c) {
            let i = choose|i: int| 0 <= i < s.len() && s[i] == c;
            assert(z[i] == z[s.len() as int]);
        }
    }
    lemma_sort_members(s, c);
    lemma_distinct_ranks(s);
    lemma_distinct_ranks(z);
    lemma_sort_counts(s);
    lemma_sort_counts(z);
    assert forall|r: Rank| #[trigger] rank_count(sort_by_rank_desc(z), r) == rank_count(s, r) + (if c.rank == r {
        1int
    } else {
        0int
    }) by {
        lemma_counts_push(s, c, r);
    }
}

/// Without the new card's rank among the cards, the groups stay and every value of the
/// hand they make is at least as high.
#[verifier::rlimit(80)]
#[verifier::spinoff_prover]
proof fn lemma_k_new_rank(s: Seq<Card>, c: Card)
    requires
        s.push(c).no_duplicates(),
        5 <= s.len() <= 6,
        rank_count(s, c.rank) == 0,
    ensures
        kvals(sort_by_rank_desc(s.push(c))).0 == kvals(sort_by_rank_desc(s)).0,
        dominates(kvals(sort_by_rank_desc(s.push(c))).1, kvals(sort_by_rank_desc(s)).1),
        kvals(sort_by_rank_desc(s)).1.len() == 5,
{
    let x1 = sort_by_rank_desc(s);
    let x2 = sort_by_rank_desc(s.push(c));
    lemma_setup(s, c);
    lemma_group_phase_len(x1);
    lemma_group_phase_len(x2);
    assert forall|k: int| 2 <= k <= 4 implies #[trigger] group_ranks(x2, k) == group_ranks(x1, k) by {
        assert forall|r: Rank| #[trigger] has_count(x2, k)(r) == has_count(x1, k)(r) by {}
        assert(has_count(x2, k) =~= has_count(x1, k));
    }
    let g4 = group_ranks(x1, 4);
    let g3 = group_ranks(x1, 3);
    let g2 = group_ranks(x1, 2);
    assert(group_ranks(x2, 4) == g4 && group_ranks(x2, 3) == g3 && group_ranks(x2, 2) == g2);
    lemma_group_top(x1, 4);
    lemma_group_top(x1, 3);
    lemma_group_top(x1, 2);
    assert forall|g: Rank| rank_count(s, g) >= 2 implies #[trigger] with_rank(x2, g) == with_rank(x1, g) by {
        lemma_filter_dominates(s, c, rank_is(g));
    }
    assert forall|f: Seq<Card>, n: int|
        0 <= n && (forall|i: int| 0 <= i < f.len() ==> #[trigger] x1.contains(f[i])) implies #[trigger] dominates(
        values_of(take_at_most(without(x2, f), n)),
        values_of(take_at_most(without(x1, f), n)),
    ) by {
        if f.contains(c) {
            let i = choose|i: int| 0 <= i < f.len() && f[i] == c;
            assert(x1.contains(f[i]));
        }
        lemma_filter_dominates(s, c, not_among(f));
        lemma_take_dominates(values_of(x2.filter(not_among(f))), values_of(x1.filter(not_among(f))), n);
        lemma_values_take(x2.filter(not_among(f)), n);
        lemma_values_take(x1.filter(not_among(f)), n);
    }
    assert forall|g: Rank| #[trigger] with_rank(x1, g).len() >= 0 implies forall|i: int|
        0 <= i < with_rank(x1, g).len() ==> x1.contains(#[trigger] with_rank(x1, g)[i]) by {
        assert forall|i: int| 0 <= i < with_rank(x1, g).len() implies x1.contains(#[trigger] with_rank(x1, g)[i]) by {
            assert(with_rank(x1, g).contains(with_rank(x1, g)[i]));
            lemma_filter_mem(x1, rank_is(g), with_rank(x1, g)[i]);
        }
    }
    if g4.len() > 0 {
        let f = with_rank(x1, g4[0]);
        assert(values_of(take_at_most(without(x2, f), 1)).len() >= 0);
        lemma_values_add(f, take_at_most(without(x2, f), 1));
        lemma_values_add(f, take_at_most(without(x1, f), 1));
        lemma_concat_dom(values_of(f), values_of(take_at_most(without(x2, f), 1)), values_of(take_at_most(without(x1, f), 1)));
    } else if g3.len() > 0 {
        if g2.len() > 0 {
        } else if g3.len() >= 2 {
        } else {
            let f = with_rank(x1, g3[0]);
            lemma_values_add(f, take_at_most(without(x2, f), 2));
            lemma_values_add(f, take_at_most(without(x1, f), 2));
            lemma_concat_dom(values_of(f), values_of(take_at_most(without(x2, f), 2)), values_of(take_at_most(without(x1, f), 2)));
        }
    } else if g2.len() > 0 {
        if g2.len() >= 2 {
            let f = with_rank(x1, g2[0]) + with_rank(x1, g2[1]);
            assert forall|i: int| 0 <= i < f.len() implies #[trigger] x1.contains(f[i]) by {
                if i < with_rank(x1, g2[0]).len() {
                    assert(f[i] == with_rank(x1, g2[0])[i]);
                } else {
                    assert(f[i] == with_rank(x1, g2[1])[i - with_rank(x1, g2[0]).len()]);
                }
            }
            lemma_values_add(f, take_at_most(without(x2, f), 1));
            lemma_values_add(f, take_at_most(without(x1, f), 1));
            lemma_concat_dom(values_of(f), values_of(take_at_most(without(x2, f), 1)), values_of(take_at_most(without(x1, f), 1)));
        } else {
            let f = with_rank(x1, g2[0]);
            lemma_values_add(f, take_at_most(without(x2, f), 3));
            lemma_values_add(f, take_at_most(without(x1, f), 3));
            lemma_concat_dom(values_of(f), values_of(take_at_most(without(x2, f), 3)), values_of(take_at_most(without(x1, f), 3)));
        }
    } else {
        let all = |d: Card| true;
        lemma_filter_all(x1, all);
        lemma_filter_all(x2, all);
        lemma_filter_dominates(s, c, all);
        lemma_take_dominates(values_of(x2), values_of(x1), 5);
        lemma_values_take(x2, 5);
        lemma_values_take(x1, 5);
        assert(values_of(group_phase(x1).1) =~= Seq::<int>::empty());
        assert(values_of(group_phase(x2).1) =~= Seq::<int>::empty());
        assert(Seq::<int>::empty() + values_of(take_at_most(x1, 5)) =~= values_of(take_at_most(x1, 5)));
        assert(Seq::<int>::empty() + values_of(take_at_most(x2, 5)) =~= values_of(take_at_most(x2, 5)));
    }
}

proof fn lemma_rank_eq(a: Rank, b: Rank)
    ensures
        a.value() == b.value() ==> a == b,
{
    lemma_rank_value_roundtrip(a, 0);
    lemma_rank_value_roundtrip(b, 0);
}

/// The values of the hand the groups make are five values from 0 to 12.
proof fn lemma_k_range(x: Seq<Card>)
    requires
        x.len() >= 5,
        ranks_at_most_four(x),
    ensures
        in_range(kvals(x).1),
{
    lemma_group_phase_len(x);
    let g = group_phase(x);
    lemma_values_range(g.1);
    lemma_values_range(take_at_most(x, 5));
    if g.0 == HandType::HighCard {
        assert(values_of(g.1) =~= Seq::<int>::empty());
        assert(Seq::<int>::empty() + values_of(take_at_most(x, 5)) =~= values_of(take_at_most(x, 5)));
    }
}

/// Facts on both sides: who is in which group, by counts.
proof fn lemma_groups_both(s: Seq<Card>, c: Card)
    requires
        s.push(c).no_duplicates(),
        5 <= s.len() <= 6,
    ensures
        forall|k: int, r: Rank|
            2 <= k <= 4 ==> (#[trigger] group_ranks(sort_by_rank_desc(s), k).contains(r) <==> rank_count(s, r) == k),
        forall|k: int, r: Rank|
            2 <= k <= 4 ==> (#[trigger] group_ranks(sort_by_rank_desc(s.push(c)), k).contains(r) <==> rank_count(s, r)
                + (if c.rank == r { 1int } else { 0int }) == k),
{
    lemma_setup(s, c);
    lemma_group_top(sort_by_rank_desc(s), 2);
    lemma_group_top(sort_by_rank_desc(s), 3);
    lemma_group_top(sort_by_rank_desc(s), 4);
    lemma_group_top(sort_by_rank_desc(s.push(c)), 2);
    lemma_group_top(sort_by_rank_desc(s.push(c)), 3);
    lemma_group_top(sort_by_rank_desc(s.push(c)), 4);
}

/// The new card makes four of a kind from three: the group hand rises to four of a kind.
proof fn lemma_k_m3(s: Seq<Card>, c: Card)
    requires
        s.push(c).no_duplicates(),
        5 <= s.len() <= 6,
        rank_count(s, c.rank) == 3,
    ensures
        kvals(sort_by_rank_desc(s.push(c))).0.value() > kvals(sort_by_rank_desc(s)).0.value(),
{
    let x1 = sort_by_rank_desc(s);
    let x2 = sort_by_rank_desc(s.push(c));
    lemma_setup(s, c);
    lemma_groups_both(s, c);
    assert(group_ranks(x2, 4).contains(c.rank));
    let g4 = group_ranks(x1, 4);
    if g4.len() > 0 {
        assert(g4.contains(g4[0]));
        lemma_ranks_fill2(s, g4[0], c.rank);
    }
}

/// Four of a kind stays, its rank not the new card's: the kicker can only rise.
proof fn lemma_k_quads_stay(s: Seq<Card>, c: Card)
    requires
        s.push(c).no_duplicates(),
        5 <= s.len() <= 6,
        1 <= rank_count(s, c.rank) <= 2,
        group_ranks(sort_by_rank_desc(s), 4).len() > 0,
    ensures
        kvals(sort_by_rank_desc(s.push(c))).0 == kvals(sort_by_rank_desc(s)).0,
        dominates(kvals(sort_by_rank_desc(s.push(c))).1, kvals(sort_by_rank_desc(s)).1),
        kvals(sort_by_rank_desc(s)).1.len() == 5,
{
    let x1 = sort_by_rank_desc(s);
    let x2 = sort_by_rank_desc(s.push(c));
    lemma_setup(s, c);
    lemma_group_phase_len(x1);
    lemma_group_phase_len(x2);
    assert forall|r: Rank| #[trigger] has_count(x2, 4)(r) == has_count(x1, 4)(r) by {}
    assert(has_count(x2, 4) =~= has_count(x1, 4));
    let q = group_ranks(x1, 4)[0];
    lemma_group_top(x1, 4);
    assert(q != c.rank);
    lemma_filter_dominates(s, c, rank_is(q));
    let f = with_rank(x1, q);
    assert(!f.contains(c)) by {
        lemma_filter_mem(x1, rank_is(q), c);
    }
    lemma_filter_dominates(s, c, not_among(f));
    lemma_take_dominates(values_of(x2.filter(not_among(f))), values_of(x1.filter(not_among(f))), 1);
    lemma_values_take(x2.filter(not_among(f)), 1);
    lemma_values_take(x1.filter(not_among(f)), 1);
    lemma_values_add(f, take_at_most(without(x2, f), 1));
    lemma_values_add(f, take_at_most(without(x1, f), 1));
    lemma_concat_dom(values_of(f), values_of(take_at_most(without(x2, f), 1)), values_of(take_at_most(without(x1, f), 1)));
}

/// The new card makes three of a kind from a pair.
#[verifier::rlimit(60)]
#[verifier::spinoff_prover]
proof fn lemma_k_m2(s: Seq<Card>, c: Card)
    requires
        s.push(c).no_duplicates(),
        5 <= s.len() <= 6,
        rank_count(s, c.rank) == 2,
    ensures
        at_least(kvals(sort_by_rank_desc(s.push(c))).0, kvals(sort_by_rank_desc(s.push(c))).1,
            kvals(sort_by_rank_desc(s)).0, kvals(sort_by_rank_desc(s)).1),
{
    let x1 = sort_by_rank_desc(s);
    let x2 = sort_by_rank_desc(s.push(c));
    let a = c.rank;
    lemma_setup(s, c);
    lemma_groups_both(s, c);
    lemma_group_top(x1, 2);
    lemma_group_top(x1, 3);
    lemma_group_top(x1, 4);
    lemma_group_top(x2, 2);
    lemma_group_top(x2, 3);
    lemma_group_top(x2, 4);
    lemma_group_phase_len(x1);
    lemma_group_phase_len(x2);
    let g4 = group_ranks(x1, 4);
    let g3 = group_ranks(x1, 3);
    let g2 = group_ranks(x1, 2);
    let h4 = group_ranks(x2, 4);
    let h3 = group_ranks(x2, 3);
    let h2 = group_ranks(x2, 2);
    assert(g2.contains(a) && h3.contains(a));
    if g4.len() > 0 {
        lemma_k_quads_stay(s, c);
        lemma_pointwise_lex(kvals(x2).1, kvals(x1).1);
    } else {
        assert(h4.len() == 0) by {
            if h4.len() > 0 {
                assert(h4.contains(h4[0]));
                assert(g4.contains(h4[0]));
            }
        }
        if g3.len() > 0 {
            let t = g3[0];
            assert(t != a);
            lemma_rank_eq(a, t);
            if a.value() > t.value() {
                assert(h3.contains(t));
                assert(h3.len() > 1) by {
                    if h3.len() <= 1 {
                        assert(h3[0] == a && h3[0] == t);
                    }
                }
                lemma_with_rank_values(x2, h3[0]);
                lemma_with_rank_values(x1, t);
                assert(h3[0].value() >= a.value());
                let w2 = with_rank(x2, h3[0]);
                lemma_values_add(w2, take_at_most(with_rank(x2, h3[1]), 2));
                lemma_values_add(w2, with_rank(x2, h2[0]));
                lemma_values_add(with_rank(x1, t), with_rank(x1, g2[0]));
                assert(values_of(w2)[0] == h3[0].value());
                reveal_with_fuel(lex_ge, 2);
            } else {
                assert(g2.len() == 1) by {
                    if g2.len() > 1 {
                        let b = if g2[0] == a { g2[1] } else { g2[0] };
                        assert(g2.contains(b));
                        lemma_ranks_fill(s, t, a, b);
                    }
                }
                assert(g3.len() == 1) by {
                    if g3.len() > 1 {
                        assert(g3.contains(g3[1]));
                        lemma_ranks_fill(s, t, a, g3[1]);
                    }
                }
                assert(h2.len() == 0) by {
                    if h2.len() > 0 {
                        assert(h2.contains(h2[0]));
                        assert(g2.contains(h2[0]));
                    }
                }
                assert(h3.contains(t));
                assert(h3.len() == 2) by {
                    if h3.len() <= 1 {
                        assert(h3[0] == a && h3[0] == t);
                    }
                    if h3.len() > 2 {
                        assert(h3.contains(h3[2]));
                        lemma_filter_ranks_desc(ranks_desc(), has_count(x2, 3));
                        lemma_rank_list(has_count(x2, 3));
                        assert(h3[2] == t || h3[2] == a);
                        assert(h3[0].value() > h3[1].value() > h3[2].value());
                    }
                }
                assert(h3[0] == t) by {
                    lemma_rank_eq(h3[0], t);
                }
                assert(h3[1] == a);
                assert(g2[0] == a);
                lemma_filter_dominates(s, c, rank_is(t));
                lemma_with_rank_values(x2, a);
                lemma_with_rank_values(x1, a);
                let w = with_rank(x1, t);
                lemma_values_take(with_rank(x2, a), 2);
                lemma_values_add(w, take_at_most(with_rank(x2, a), 2));
                lemma_values_add(w, with_rank(x1, a));
                assert(kvals(x2).1 =~= kvals(x1).1);
                lemma_pointwise_lex(kvals(x2).1, kvals(x1).1);
            }
        } else {
            if g2.len() >= 2 {
                let b = if g2[0] == a { g2[1] } else { g2[0] };
                assert(g2.contains(b));
                assert(h2.contains(b));
            }
        }
    }
}

/// Two pair stays two pair when the new card pairs a single card: the two highest pairs,
/// and then the kicker, can only rise.
#[verifier::rlimit(80)]
#[verifier::spinoff_prover]
proof fn lemma_k_two_pair(s: Seq<Card>, c: Card)
    requires
        s.push(c).no_duplicates(),
        5 <= s.len() <= 6,
        rank_count(s, c.rank) == 1,
        group_ranks(sort_by_rank_desc(s), 4).len() == 0,
        group_ranks(sort_by_rank_desc(s), 3).len() == 0,
        group_ranks(sort_by_rank_desc(s), 2).len() >= 2,
    ensures
        at_least(kvals(sort_by_rank_desc(s.push(c))).0, kvals(sort_by_rank_desc(s.push(c))).1,
            kvals(sort_by_rank_desc(s)).0, kvals(sort_by_rank_desc(s)).1),
{
    let x1 = sort_by_rank_desc(s);
    let x2 = sort_by_rank_desc(s.push(c));
    let a = c.rank;
    lemma_setup(s, c);
    lemma_groups_both(s, c);
    lemma_group_top(x1, 2);
    lemma_group_top(x2, 2);
    lemma_group_top(x2, 3);
    lemma_group_top(x2, 4);
    lemma_group_phase_len(x1);
    lemma_group_phase_len(x2);
    let g2 = group_ranks(x1, 2);
    let h2 = group_ranks(x2, 2);
    let h3 = group_ranks(x2, 3);
    let h4 = group_ranks(x2, 4);
    assert(h4.len() == 0) by {
        if h4.len() > 0 {
            assert(h4.contains(h4[0]));
            assert(group_ranks(x1, 4).contains(h4[0]));
        }
    }
    assert(h3.len() == 0) by {
        if h3.len() > 0 {
            assert(h3.contains(h3[0]));
            assert(group_ranks(x1, 3).contains(h3[0]));
        }
    }
    let p0 = g2[0];
    let p1 = g2[1];
    assert(h2.contains(a) && h2.contains(p0) && h2.contains(p1));
    assert(h2.len() >= 2) by {
        if h2.len() < 2 {
            assert(a == h2[0] && p0 == h2[0]);
        }
    }
    let q0 = h2[0];
    let q1 = h2[1];
    assert(a != p0 && a != p1);
    lemma_rank_eq(q0, p0);
    lemma_rank_eq(q1, p1);
    lemma_rank_eq(q0, a);
    lemma_rank_eq(q1, a);
    lemma_with_rank_values(x1, p0);
    lemma_with_rank_values(x1, p1);
    lemma_with_rank_values(x2, q0);
    lemma_with_rank_values(x2, q1);
    let f1 = with_rank(x1, p0) + with_rank(x1, p1);
    let f2 = with_rank(x2, q0) + with_rank(x2, q1);
    lemma_values_add(with_rank(x1, p0), with_rank(x1, p1));
    lemma_values_add(with_rank(x2, q0), with_rank(x2, q1));
    lemma_values_add(f1, take_at_most(without(x1, f1), 1));
    lemma_values_add(f2, take_at_most(without(x2, f2), 1));
    let v1 = kvals(x1).1;
    let v2 = kvals(x2).1;
    assert(v1[0] == p0.value() && v1[2] == p1.value());
    assert(v2[0] == q0.value() && v2[1] == q0.value() && v2[2] == q1.value());
    assert(v1[1] == p0.value() && v1[3] == p1.value() && v2[3] == q1.value());
    reveal_with_fuel(lex_ge, 4);
    if a.value() > p0.value() {
        assert(q0.value() >= a.value());
    } else if a.value() > p1.value() {
        assert(q0 == p0) by {
            assert(q0.value() >= p0.value());
            if q0 != p0 {
                assert(g2.contains(q0) || q0 == a);
            }
        }
        assert(q1.value() >= a.value());
    } else {
        assert(q0 == p0) by {
            assert(q0.value() >= p0.value());
            if q0 != p0 {
                assert(g2.contains(q0) || q0 == a);
            }
        }
        assert(q1 == p1) by {
            assert(q1.value() >= p1.value());
            if q1 != p1 {
                assert(g2.contains(q1) || q1 == a);
            }
        }
        assert(f2 == f1) by {
            lemma_filter_dominates(s, c, rank_is(p0));
            lemma_filter_dominates(s, c, rank_is(p1));
        }
        assert(!f1.contains(c)) by {
            lemma_contains_add(with_rank(x1, p0), with_rank(x1, p1), c);
            lemma_filter_mem(x1, rank_is(p0), c);
            lemma_filter_mem(x1, rank_is(p1), c);
        }
        lemma_filter_dominates(s, c, not_among(f1));
        lemma_take_dominates(values_of(x2.filter(not_among(f1))), values_of(x1.filter(not_among(f1))), 1);
        lemma_values_take(x2.filter(not_among(f1)), 1);
        lemma_values_take(x1.filter(not_among(f1)), 1);
        lemma_concat_dom(values_of(f1), values_of(take_at_most(without(x2, f1), 1)), values_of(take_at_most(without(x1, f1), 1)));
        lemma_pointwise_lex(v2, v1);
    }
}

/// The new card pairs a single card.
#[verifier::rlimit(80)]
#[verifier::spinoff_prover]
proof fn lemma_k_m1(s: Seq<Card>, c: Card)
    requires
        s.push(c).no_duplicates(),
        5 <= s.len() <= 6,
        rank_count(s, c.rank) == 1,
    ensures
        at_least(kvals(sort_by_rank_desc(s.push(c))).0, kvals(sort_by_rank_desc(s.push(c))).1,
            kvals(sort_by_rank_desc(s)).0, kvals(sort_by_rank_desc(s)).1),
{
    let x1 = sort_by_rank_desc(s);
    let x2 = sort_by_rank_desc(s.push(c));
    let a = c.rank;
    lemma_setup(s, c);
    lemma_groups_both(s, c);
    lemma_group_top(x1, 2);
    lemma_group_top(x1, 3);
    lemma_group_top(x1, 4);
    lemma_group_top(x2, 2);
    lemma_group_top(x2, 3);
    lemma_group_top(x2, 4);
    lemma_group_phase_len(x1);
    lemma_group_phase_len(x2);
    let g4 = group_ranks(x1, 4);
    let g3 = group_ranks(x1, 3);
    let g2 = group_ranks(x1, 2);
    let h4 = group_ranks(x2, 4);
    let h3 = group_ranks(x2, 3);
    let h2 = group_ranks(x2, 2);
    assert(h2.contains(a));
    if g4.len() > 0 {
        lemma_k_quads_stay(s, c);
        lemma_pointwise_lex(kvals(x2).1, kvals(x1).1);
    } else {
        assert(h4.len() == 0) by {
            if h4.len() > 0 {
                assert(h4.contains(h4[0]));
                assert(g4.contains(h4[0]));
            }
        }
        if g3.len() > 0 {
            let t = g3[0];
            assert(h3.contains(t));
            if g2.len() > 0 {
                assert(h3 == g3) by {
                    assert forall|r: Rank| #[trigger] has_count(x2, 3)(r) == has_count(x1, 3)(r) by {}
                    assert(has_count(x2, 3) =~= has_count(x1, 3));
                }
                assert(h2.contains(g2[0]));
                assert(h2[0].value() >= g2[0].value());
                lemma_filter_dominates(s, c, rank_is(t));
                lemma_with_rank_values(x2, h2[0]);
                lemma_with_rank_values(x1, g2[0]);
                lemma_with_rank_values(x1, t);
                lemma_values_add(with_rank(x1, t), with_rank(x2, h2[0]));
                lemma_values_add(with_rank(x1, t), with_rank(x1, g2[0]));
                let v1 = kvals(x1).1;
                let v2 = kvals(x2).1;
                assert forall|i: int| 0 <= i < 5 implies #[trigger] v2[i] >= v1[i] by {}
                lemma_pointwise_lex(v2, v1);
            } else if g3.len() >= 2 {
                assert(g3.contains(g3[1]));
                lemma_ranks_fill(s, t, g3[1], a);
            }
        } else if g2.len() >= 2 {
            lemma_k_two_pair(s, c);
        } else if g2.len() == 1 {
            assert(h2.contains(g2[0]));
            assert(h3.len() == 0) by {
                if h3.len() > 0 {
                    assert(h3.contains(h3[0]));
                    assert(g3.contains(h3[0]));
                }
            }
            assert(h2.len() >= 2) by {
                if h2.len() < 2 {
                    assert(a == h2[0] && g2[0] == h2[0]);
                }
            }
        } else {
            assert(h3.len() == 0) by {
                if h3.len() > 0 {
                    assert(h3.contains(h3[0]));
                    assert(g3.contains(h3[0]));
                }
            }
        }
    }
}

/// The hand the groups make can only get stronger with the new card.
proof fn lemma_k_mono(s: Seq<Card>, c: Card)
    requires
        s.push(c).no_duplicates(),
        5 <= s.len() <= 6,
    ensures
        at_least(kvals(sort_by_rank_desc(s.push(c))).0, kvals(sort_by_rank_desc(s.push(c))).1,
            kvals(sort_by_rank_desc(s)).0, kvals(sort_by_rank_desc(s)).1),
        in_range(kvals(sort_by_rank_desc(s)).1),
        in_range(kvals(sort_by_rank_desc(s.push(c))).1),
{
    let x1 = sort_by_rank_desc(s);
    let x2 = sort_by_rank_desc(s.push(c));
    lemma_setup(s, c);
    lemma_k_range(x1);
    lemma_k_range(x2);
    let m = rank_count(s, c.rank);
    assert(rank_count(x2, c.rank) <= 4);
    if m == 0 {
        lemma_k_new_rank(s, c);
        lemma_pointwise_lex(kvals(x2).1, kvals(x1).1);
    } else if m == 1 {
        lemma_k_m1(s, c);
    } else if m == 2 {
        lemma_k_m2(s, c);
    } else {
        lemma_k_m3(s, c);
    }
}

/// The best hand is at least the hand the groups make.
proof fn lemma_best_over_k(x: Seq<Card>)
    requires
        x.len() >= 5,
        ranks_at_most_four(x),
    ensures
        at_least(best_hand(x).0, best_hand(x).1, kvals(x).0, kvals(x).1),
        in_range(best_hand(x).1),
        in_range(kvals(x).1),
{
    lemma_group_phase_len(x);
    lemma_best_hand_values(x);
    lemma_k_range(x);
    let g = group_phase(x);
    let f = flush_phase(x, g.0, values_of(g.1));
    let st = straight_phase(x, f.0, f.1);
    if f == (g.0, values_of(g.1)) && st == f {
        reveal_with_fuel(lex_ge, 6);
        assert(best_hand(x) == kvals(x));
    } else {
        if g.0.value() >= 5 {
            assert(f == (g.0, values_of(g.1)));
        }
        if f != (g.0, values_of(g.1)) {
            assert(f.0.value() >= 5);
        }
    }
}

/// Filtering with or without the new card: at least as many cards pass.
proof fn lemma_filter_grows(s: Seq<Card>, c: Card, p: spec_fn(Card) -> bool)
    ensures
        sort_by_rank_desc(s.push(c)).filter(p).len() >= sort_by_rank_desc(s).filter(p).len(),
{
    lemma_filter_dominates(s, c, p);
}

/// Counting a suit in sorted cards is counting it in the cards.
proof fn lemma_suit_count_sorted(z: Seq<Card>, u: Suit)
    ensures
        sort_by_rank_desc(z).filter(suit_is(u)).len() == z.filter(suit_is(u)).len(),
{
    lemma_sort_filter(z, suit_is(u), ranks_desc());
    lemma_sort_counts(z.filter(suit_is(u)));
}

/// In the flush suit, the hand with the new card is at least the hand without it.
proof fn lemma_flush_hand_mono(s: Seq<Card>, c: Card, u: Suit)
    requires
        sort_by_rank_desc(s).filter(suit_is(u)).len() >= 5,
    ensures
        at_least(flush_hand(sort_by_rank_desc(s.push(c)), u).0, flush_hand(sort_by_rank_desc(s.push(c)), u).1,
            flush_hand(sort_by_rank_desc(s), u).0, flush_hand(sort_by_rank_desc(s), u).1),
{
    let x1 = sort_by_rank_desc(s);
    let x2 = sort_by_rank_desc(s.push(c));
    let f1 = x1.filter(suit_is(u));
    let f2 = x2.filter(suit_is(u));
    assert forall|r: Rank| #[trigger] rank_count(f1, r) <= rank_count(f2, r) by {
        let both = |d: Card| suit_is(u)(d) && rank_is(r)(d);
        lemma_filter_filter(x1, suit_is(u), rank_is(r), both);
        lemma_filter_filter(x2, suit_is(u), rank_is(r), both);
        lemma_filter_grows(s, c, both);
    }
    lemma_present_grows(f1, f2);
    lemma_straight_grows(value_in(present_values(f1)), value_in(present_values(f2)), 12);
    lemma_highest_bound(value_in(present_values(f2)), 12);
    reveal_with_fuel(lex_ge, 2);
    match highest_straight(value_in(present_values(f1)), 12) {
        Some(t1) => {
            let t2 = highest_straight(value_in(present_values(f2)), 12)->0;
            assert(straight_values(t1)[0] == t1 && straight_values(t2)[0] == t2);
            if t1 == t2 {
                reveal_with_fuel(lex_ge, 6);
            }
        },
        None => {
            if highest_straight(value_in(present_values(f2)), 12) is None {
                lemma_filter_dominates(s, c, suit_is(u));
                lemma_take_dominates(values_of(f2), values_of(f1), 5);
                lemma_values_take(f2, 5);
                lemma_values_take(f1, 5);
                lemma_pointwise_lex(values_of(take_at_most(f2, 5)), values_of(take_at_most(f1, 5)));
            }
        },
    }
}

/// A straight with the new card is at least as high.
proof fn lemma_straight_mono(s: Seq<Card>, c: Card)
    requires
        5 <= s.len(),
    ensures
        highest_straight(value_in(present_values(sort_by_rank_desc(s))), 12) matches Some(t1) ==> (
        highest_straight(value_in(present_values(sort_by_rank_desc(s.push(c)))), 12) matches Some(t2) && at_least(
            HandType::Straight,
            straight_values(t2),
            HandType::Straight,
            straight_values(t1),
        )),
{
    let x1 = sort_by_rank_desc(s);
    let x2 = sort_by_rank_desc(s.push(c));
    assert forall|r: Rank| #[trigger] rank_count(x1, r) <= rank_count(x2, r) by {
        lemma_filter_grows(s, c, rank_is(r));
    }
    lemma_present_grows(x1, x2);
    lemma_straight_grows(value_in(present_values(x1)), value_in(present_values(x2)), 12);
    if let Some(t1) = highest_straight(value_in(present_values(x1)), 12) {
        let t2 = highest_straight(value_in(present_values(x2)), 12)->0;
        assert(straight_values(t1)[0] == t1 && straight_values(t2)[0] == t2);
        reveal_with_fuel(lex_ge, 6);
    }
}

/// Seven distinct cards with a flush make no four of a kind and no full house from the groups.
proof fn lemma_flush_groups_low(s: Seq<Card>, c: Card, u: Suit)
    requires
        s.push(c).no_duplicates(),
        5 <= s.len() <= 6,
        sort_by_rank_desc(s.push(c)).filter(suit_is(u)).len() >= 5,
    ensures
        group_phase(sort_by_rank_desc(s.push(c))).0.value() <= 3,
{
    let z = s.push(c);
    let x2 = sort_by_rank_desc(z);
    lemma_setup(s, c);
    lemma_suit_count_sorted(z, u);
    lemma_sort_counts(z);
    lemma_group_top(x2, 2);
    lemma_group_top(x2, 3);
    lemma_group_top(x2, 4);
    let h4 = group_ranks(x2, 4);
    let h3 = group_ranks(x2, 3);
    let h2 = group_ranks(x2, 2);
    if h4.len() > 0 {
        lemma_flush_excludes(z, u, h4[0], h4[0]);
    }
    if h3.len() > 0 && h2.len() > 0 {
        lemma_flush_excludes(z, u, h3[0], h2[0]);
    }
    if h3.len() > 1 {
        lemma_flush_excludes(z, u, h3[0], h3[1]);
    }
}

/// Seven cards at most hold five of one suit for at most one suit.
proof fn lemma_flush_found(x: Seq<Card>, u: Suit)
    requires
        x.len() <= 9,
        x.filter(suit_is(u)).len() >= 5,
    ensures
        first_flush_suit(x, 0) == Some(u),
{
    lemma_flush_suit_unique(x, Some(u));
}

/// With one more card among at most seven distinct cards, the best hand never gets weaker:
/// adding a card to a hand of five or six cards never lowers its score.
pub proof fn lemma_extra_card_never_hurts(s: Seq<Card>, c: Card)
    requires
        s.push(c).no_duplicates(),
        5 <= s.len() <= 6,
    ensures
        evaluation(s.push(c)).1 >= evaluation(s).1,
        evaluation(s.push(c)).0.value() >= evaluation(s).0.value(),
{
    let x1 = sort_by_rank_desc(s);
    let x2 = sort_by_rank_desc(s.push(c));
    lemma_setup(s, c);
    lemma_k_mono(s, c);
    lemma_best_over_k(x1);
    lemma_best_over_k(x2);
    lemma_group_phase_len(x1);
    lemma_group_phase_len(x2);
    let b1 = best_hand(x1);
    let b2 = best_hand(x2);
    let k1 = kvals(x1);
    let k2 = kvals(x2);
    lemma_at_least_score(b2.0, b2.1, k2.0, k2.1);
    lemma_at_least_score(k2.0, k2.1, k1.0, k1.1);
    let g1 = group_phase(x1);
    let f1 = flush_phase(x1, g1.0, values_of(g1.1));
    let st1 = straight_phase(x1, f1.0, f1.1);
    if f1 == (g1.0, values_of(g1.1)) && st1 == f1 {
        assert(b1 == k1);
    } else if f1 != (g1.0, values_of(g1.1)) {
        let u = first_flush_suit(x1, 0)->0;
        assert(g1.0.value() < 5);
        assert(first_flush_suit(x1, 0) == Some(u));
        lemma_first_flush_some(x1, 0, u);
        assert(b1 == flush_hand(x1, u));
        lemma_filter_grows(s, c, suit_is(u));
        lemma_flush_found(x2, u);
        lemma_flush_groups_low(s, c, u);
        let g2 = group_phase(x2);
        assert(b2 == flush_hand(x2, u));
        lemma_flush_hand_mono(s, c, u);
        lemma_at_least_score(b2.0, b2.1, b1.0, b1.1);
    } else {
        assert(g1.0.value() < 4);
        let t1 = highest_straight(value_in(present_values(x1)), 12)->0;
        assert(b1 == (HandType::Straight, straight_values(t1)));
        lemma_straight_mono(s, c);
        let g2 = group_phase(x2);
        let f2 = flush_phase(x2, g2.0, values_of(g2.1));
        if g2.0.value() >= 5 || f2 != (g2.0, values_of(g2.1)) {
            assert(b2.0.value() >= 5);
        } else {
            assert(g2.0.value() < 4);
            let t2 = highest_straight(value_in(present_values(x2)), 12)->0;
            assert(b2 == (HandType::Straight, straight_values(t2)));
        }
        lemma_at_least_score(b2.0, b2.1, b1.0, b1.1);
    }
}

/// The same card added to the board: a player's hand with one more board card, among at
/// most seven distinct cards, never scores less.
pub proof fn lemma_extra_board_card(hand: Seq<Card>, board: Seq<Card>, c: Card)
    requires
        (hand + board).push(c).no_duplicates(),
        5 <= hand.len() + board.len() <= 6,
    ensures
        evaluation(hand + board.push(c)).1 >= evaluation(hand + board).1,
{
    assert(hand + board.push(c) =~= (hand + board).push(c));
    lemma_extra_card_never_hurts(hand + board, c);
}

/// Distinct cards with the same set of cards hold each card equally often.
proof fn lemma_same_set_multiset(a: Seq<Card>, b: Seq<Card>)
    requires
        a.no_duplicates(),
        b.no_duplicates(),
        a.to_set() == b.to_set(),
    ensures
        a.to_multiset() == b.to_multiset(),
{
    broadcast use vstd::multiset::group_multiset_axioms;

    a.lemma_multiset_has_no_duplicates();
    b.lemma_multiset_has_no_duplicates();
    a.to_multiset_ensures();
    b.to_multiset_ensures();
    assert forall|x: Card| a.to_multiset().count(x) == b.to_multiset().count(x) by {
        assert(a.to_set().contains(x) == a.contains(x));
        assert(b.to_set().contains(x) == b.contains(x));
        if a.contains(x) {
            assert(a.to_multiset().contains(x));
            assert(b.to_multiset().contains(x));
        }
    }
    assert(a.to_multiset() =~= b.to_multiset());
}

/// No five or more of at most seven distinct cards make a better hand than all of them:
/// the score of the cards is at least that of every part of them with five cards or more.
pub proof fn lemma_part_never_better(part: Seq<Card>, all: Seq<Card>)
    requires
        part.no_duplicates(),
        all.no_duplicates(),
        forall|i: int| 0 <= i < part.len() ==> all.contains(#[trigger] part[i]),
        5 <= part.len(),
        all.len() <= 7,
    ensures
        evaluation(all).1 >= evaluation(part).1,
    decreases all.len() - part.len(),
{
    part.unique_seq_to_set();
    all.unique_seq_to_set();
    assert(part.to_set().subset_of(all.to_set())) by {
        assert forall|x: Card| part.to_set().contains(x) implies all.to_set().contains(x) by {
            let i = choose|i: int| 0 <= i < part.len() && part[i] == x;
        }
    }
    vstd::set_lib::lemma_len_subset(part.to_set(), all.to_set());
    if exists|y: Card| all.contains(y) && !part.contains(y) {
        let y = choose|y: Card| all.contains(y) && !part.contains(y);
        let next = part.push(y);
        assert(next.no_duplicates()) by {
            assert forall|i: int, j: int| 0 <= i < next.len() && 0 <= j < next.len() && i != j implies next[i]
                != next[j] by {
                if i == part.len() {
                    assert(part.contains(next[j]));
                } else if j == part.len() {
                    assert(part.contains(next[i]));
                }
            }
        }
        assert(part.len() < all.len()) by {
            assert(all.to_set().contains(y) && !part.to_set().contains(y));
            if part.len() == all.len() {
                assert(part.to_set() =~= all.to_set()) by {
                    vstd::set_lib::lemma_subset_equality(part.to_set(), all.to_set());
                }
            }
        }
        lemma_extra_card_never_hurts(part, y);
        assert forall|i: int| 0 <= i < next.len() implies all.contains(#[trigger] next[i]) by {
            if i < part.len() {
                assert(next[i] == part[i]);
            }
        }
        lemma_part_never_better(next, all);
    } else {
        assert(part.to_set() =~= all.to_set()) by {
            assert forall|x: Card| all.to_set().contains(x) implies part.to_set().contains(x) by {
                assert(all.contains(x));
            }
        }
        lemma_same_set_multiset(part, all);
        lemma_evaluation_order_free(part, all);
    }
}

proof fn lemma_straight_found(p: spec_fn(int) -> bool, top: int, t: int)
    requires
        3 <= t <= top,
        straight_at(p, t),
    ensures
        highest_straight(p, top) matches Some(t2) && t2 >= t,
    decreases top,
{
    if !straight_at(p, top) {
        lemma_straight_found(p, top - 1, t);
    }
}

/// Seven distinct cards at most that hold five of a suit make no four of a kind and no full
/// house from the groups.
proof fn lemma_flush_groups_low_any(z: Seq<Card>, u: Suit)
    requires
        z.no_duplicates(),
        z.len() <= 7,
        z.filter(suit_is(u)).len() >= 5,
    ensures
        group_phase(sort_by_rank_desc(z)).0.value() <= 3,
{
    let x = sort_by_rank_desc(z);
    lemma_sort_counts(z);
    lemma_group_top(x, 2);
    lemma_group_top(x, 3);
    lemma_group_top(x, 4);
    let h4 = group_ranks(x, 4);
    let h3 = group_ranks(x, 3);
    let h2 = group_ranks(x, 2);
    if h4.len() > 0 {
        lemma_flush_excludes(z, u, h4[0], h4[0]);
    }
    if h3.len() > 0 && h2.len() > 0 {
        lemma_flush_excludes(z, u, h3[0], h2[0]);
    }
    if h3.len() > 1 {
        lemma_flush_excludes(z, u, h3[0], h3[1]);
    }
}

/// Five cards of one suit with ranks in a row, among at most seven distinct cards, are
/// always ranked a straight flush, or a royal flush where the row runs down from the Ace.
pub proof fn lemma_suited_run_ranked(cards: Seq<Card>, su: Suit, t: int)
    requires
        cards.no_duplicates(),
        5 <= cards.len() <= 7,
        suited_run(cards, su, t),
    ensures
        evaluation(cards).0 == HandType::StraightFlush || evaluation(cards).0 == HandType::RoyalFlush,
        t == 12 ==> evaluation(cards).0 == HandType::RoyalFlush,
{
    let x = sort_by_rank_desc(cards);
    let run = Seq::new(5, |k: int| Card { rank: rank_with_value(low_value(t - k)), suit: su });
    assert forall|k: int| 0 <= k < 5 implies 0 <= #[trigger] low_value(t - k) <= 12 && (rank_with_value(
        low_value(t - k),
    )).value() == low_value(t - k) by {
        lemma_rank_value_roundtrip(rank_with_value(low_value(t - k)), low_value(t - k));
    }
    assert(run.no_duplicates()) by {
        assert forall|i: int, j: int| 0 <= i < 5 && 0 <= j < 5 && i != j implies run[i] != run[j] by {
            assert(low_value(t - i) != low_value(t - j));
        }
    }
    let fz = cards.filter(suit_is(su));
    lemma_filter_no_dup(cards, suit_is(su));
    assert(run.to_set().subset_of(fz.to_set())) by {
        assert forall|e: Card| run.to_set().contains(e) implies fz.to_set().contains(e) by {
            let k = choose|k: int| 0 <= k < 5 && run[k] == e;
            assert(cards.contains(Card { rank: rank_with_value(low_value(t - k)), suit: su }));
            lemma_filter_mem(cards, suit_is(su), e);
        }
    }
    run.unique_seq_to_set();
    fz.unique_seq_to_set();
    vstd::set_lib::lemma_len_subset(run.to_set(), fz.to_set());
    lemma_suit_count_sorted(cards, su);
    lemma_sort_counts(cards);
    lemma_flush_found(x, su);
    lemma_flush_groups_low_any(cards, su);
    let fs = x.filter(suit_is(su));
    let p = value_in(present_values(fs));
    assert forall|k: int| 0 <= k < 5 implies #[trigger] p(low_value(t - k)) by {
        let e = run[k];
        assert(cards.contains(e));
        lemma_sort_members(cards, e);
        lemma_filter_mem(x, suit_is(su), e);
        let r = rank_with_value(low_value(t - k));
        lemma_filter_mem(fs, rank_is(r), e);
        assert(fs.filter(rank_is(r)).len() > 0) by {
            assert(fs.filter(rank_is(r)).contains(e));
        }
        let v = low_value(t - k);
        assert(v as u8 as int == v);
        lemma_filter_mem(desc_values(), value_present(fs), v as u8);
        assert(desc_values()[12 - v] == v as u8);
    }
    assert(straight_at(p, t));
    lemma_straight_found(p, 12, t);
}

/// Five cards or more of one suit, among at most seven distinct cards, whose ranks in that
/// suit hold no five in a row, are ranked a flush: never a straight flush, and never less.
pub proof fn lemma_plain_flush_ranked(cards: Seq<Card>, su: Suit)
    requires
        cards.no_duplicates(),
        5 <= cards.len() <= 7,
        cards.filter(suit_is(su)).len() >= 5,
        forall|t: int| !#[trigger] suited_run(cards, su, t),
    ensures
        evaluation(cards).0 == HandType::Flush,
{
    let x = sort_by_rank_desc(cards);
    lemma_suit_count_sorted(cards, su);
    lemma_sort_counts(cards);
    lemma_flush_found(x, su);
    lemma_flush_groups_low_any(cards, su);
    let fs = x.filter(suit_is(su));
    let p = value_in(present_values(fs));
    if let Some(t) = highest_straight(p, 12) {
        lemma_highest_some(p, 12, t);
        assert forall|k: int| 0 <= k < 5 implies #[trigger] cards.contains(
            Card { rank: rank_with_value(low_value(t - k)), suit: su },
        ) by {
            assert(p(low_value(t - k)));
            lemma_present_card(fs, low_value(t - k));
            let e = choose|e: Card| #[trigger] fs.contains(e) && e.rank == rank_with_value(low_value(t - k));
            lemma_filter_mem(x, suit_is(su), e);
            lemma_sort_members(cards, e);
            assert(e == Card { rank: rank_with_value(low_value(t - k)), suit: su });
        }
        assert(suited_run(cards, su, t));
    }
}

} // verus!
