use vstd::prelude::*;

use crate::card::{Card, HandType, Rank, Suit, rank_with_value};
use crate::hand::{
    best_hand, buckets, evaluation, first_flush_suit, flush_hand, flush_phase, flush_suits,
    group_phase, high_card_phase, lemma_first_flush_some, lemma_sort_counts, lemma_sort_members,
    sort_by_rank_desc, straight_phase, values_of, with_rank, without,
};
use crate::seqs::{
    lemma_contains_add, lemma_filter_all, lemma_filter_filter, lemma_filter_len_mono,
    lemma_filter_mem, lemma_filter_union, lemma_multiset_filter_len, lemma_split_last,
};
use crate::straight::{present_values, value_present};
use crate::tracker::{
    group_ranks, has_count, not_among, rank_count, rank_is, ranks_desc, suit_is, take_at_most,
};

verus! {

broadcast use Seq::lemma_filter_push;

/// Two card sequences show the same ranks, in the same order, through every filter.
spec fn same_profile(x: Seq<Card>, y: Seq<Card>) -> bool {
    forall|p: spec_fn(Card) -> bool| #[trigger] values_of(x.filter(p)) == values_of(y.filter(p))
}

/// Two card sequences hold the same cards.
spec fn same_cards(x: Seq<Card>, y: Seq<Card>) -> bool {
    forall|c: Card| #![trigger x.contains(c)] #![trigger y.contains(c)] x.contains(c) <==> y.contains(c)
}

pub(crate) proof fn lemma_values_add(a: Seq<Card>, b: Seq<Card>)
    ensures
        values_of(a + b) == values_of(a) + values_of(b),
{
    assert(values_of(a + b) =~= values_of(a) + values_of(b));
}

pub(crate) proof fn lemma_values_take(a: Seq<Card>, n: int)
    requires
        0 <= n,
    ensures
        values_of(take_at_most(a, n)) == take_at_most(values_of(a), n),
{
    if n <= a.len() {
        assert(values_of(a.take(n)) =~= values_of(a).take(n));
    }
}

/// Sorting cards that are the same in both, each as often, gives through any filter the
/// same ranks in the same order.
proof fn lemma_buckets_profile(a: Seq<Card>, b: Seq<Card>, rs: Seq<crate::card::Rank>, p: spec_fn(Card) -> bool)
    requires
        a.to_multiset() == b.to_multiset(),
    ensures
        values_of(buckets(a, rs).filter(p)) == values_of(buckets(b, rs).filter(p)),
    decreases rs.len(),
{
    if rs.len() > 0 {
        let rs2 = rs.drop_last();
        let l = rs.last();
        lemma_buckets_profile(a, b, rs2, p);
        let fa = a.filter(rank_is(l));
        let fb = b.filter(rank_is(l));
        Seq::filter_distributes_over_add(buckets(a, rs2), fa, p);
        Seq::filter_distributes_over_add(buckets(b, rs2), fb, p);
        lemma_values_add(buckets(a, rs2).filter(p), fa.filter(p));
        lemma_values_add(buckets(b, rs2).filter(p), fb.filter(p));
        let u = fa.filter(p);
        let v = fb.filter(p);
        let both = |c: Card| rank_is(l)(c) && p(c);
        lemma_filter_filter(a, rank_is(l), p, both);
        lemma_filter_filter(b, rank_is(l), p, both);
        lemma_multiset_filter_len(a, b, both);
        assert forall|i: int| 0 <= i < u.len() implies #[trigger] values_of(u)[i] == values_of(v)[i] by {
            assert(u.contains(u[i]));
            lemma_filter_mem(fa, p, u[i]);
            lemma_filter_mem(a, rank_is(l), u[i]);
            assert(v.contains(v[i]));
            lemma_filter_mem(fb, p, v[i]);
            lemma_filter_mem(b, rank_is(l), v[i]);
        }
        assert(values_of(u) =~= values_of(v));
    }
}

proof fn lemma_sorted_alike(a: Seq<Card>, b: Seq<Card>)
    requires
        a.to_multiset() == b.to_multiset(),
    ensures
        same_profile(sort_by_rank_desc(a), sort_by_rank_desc(b)),
        same_cards(sort_by_rank_desc(a), sort_by_rank_desc(b)),
{
    assert forall|p: spec_fn(Card) -> bool| #[trigger] values_of(sort_by_rank_desc(a).filter(p))
        == values_of(sort_by_rank_desc(b).filter(p)) by {
        lemma_buckets_profile(a, b, ranks_desc(), p);
    }
    a.to_multiset_ensures();
    b.to_multiset_ensures();
    assert forall|c: Card| #![trigger sort_by_rank_desc(a).contains(c)] #![trigger sort_by_rank_desc(b).contains(c)]
        sort_by_rank_desc(a).contains(c) <==> sort_by_rank_desc(b).contains(c) by {
        lemma_sort_members(a, c);
        lemma_sort_members(b, c);
        assert(a.contains(c) <==> a.to_multiset().count(c) > 0);
        assert(b.contains(c) <==> b.to_multiset().count(c) > 0);
    }
}

proof fn lemma_counts_alike(x: Seq<Card>, y: Seq<Card>, r: crate::card::Rank)
    requires
        same_profile(x, y),
    ensures
        rank_count(x, r) == rank_count(y, r),
{
    assert(values_of(x.filter(rank_is(r))) == values_of(y.filter(rank_is(r))));
}

proof fn lemma_groups_alike(x: Seq<Card>, y: Seq<Card>, c: int)
    requires
        same_profile(x, y),
    ensures
        group_ranks(x, c) == group_ranks(y, c),
{
    assert forall|r: crate::card::Rank| #[trigger] has_count(x, c)(r) == has_count(y, c)(r) by {
        lemma_counts_alike(x, y, r);
    }
    assert(has_count(x, c) =~= has_count(y, c));
}

proof fn lemma_prefix_alike(x: Seq<Card>, y: Seq<Card>, n: int)
    requires
        same_profile(x, y),
        0 <= n,
    ensures
        values_of(take_at_most(x, n)) == values_of(take_at_most(y, n)),
{
    let all = |c: Card| true;
    lemma_filter_all(x, all);
    lemma_filter_all(y, all);
    assert(values_of(x.filter(all)) == values_of(y.filter(all)));
    lemma_values_take(x, n);
    lemma_values_take(y, n);
}

proof fn lemma_without_alike(x: Seq<Card>, y: Seq<Card>, fx: Seq<Card>, fy: Seq<Card>, n: int)
    requires
        same_profile(x, y),
        same_cards(fx, fy),
        0 <= n,
    ensures
        values_of(take_at_most(without(x, fx), n)) == values_of(take_at_most(without(y, fy), n)),
{
    assert forall|c: Card| #[trigger] not_among(fx)(c) == not_among(fy)(c) by {
        assert(fx.contains(c) <==> fy.contains(c));
    }
    assert(not_among(fx) =~= not_among(fy));
    assert(values_of(x.filter(not_among(fx))) == values_of(y.filter(not_among(fy))));
    lemma_values_take(x.filter(not_among(fx)), n);
    lemma_values_take(y.filter(not_among(fy)), n);
}

proof fn lemma_with_rank_cards(x: Seq<Card>, y: Seq<Card>, r: crate::card::Rank)
    requires
        same_cards(x, y),
    ensures
        same_cards(with_rank(x, r), with_rank(y, r)),
{
    assert forall|c: Card| #![trigger with_rank(x, r).contains(c)] #![trigger with_rank(y, r).contains(c)]
        with_rank(x, r).contains(c) <==> with_rank(y, r).contains(c) by {
        lemma_filter_mem(x, rank_is(r), c);
        lemma_filter_mem(y, rank_is(r), c);
    }
}

proof fn lemma_with_rank_values(x: Seq<Card>, y: Seq<Card>, r: crate::card::Rank)
    requires
        same_profile(x, y),
    ensures
        values_of(with_rank(x, r)) == values_of(with_rank(y, r)),
{
    assert(values_of(x.filter(rank_is(r))) == values_of(y.filter(rank_is(r))));
}

proof fn lemma_group_phase_alike(x: Seq<Card>, y: Seq<Card>)
    requires
        same_profile(x, y),
        same_cards(x, y),
    ensures
        group_phase(x).0 == group_phase(y).0,
        values_of(group_phase(x).1) == values_of(group_phase(y).1),
{
    lemma_groups_alike(x, y, 4);
    lemma_groups_alike(x, y, 3);
    lemma_groups_alike(x, y, 2);
    let g4 = group_ranks(x, 4);
    let g3 = group_ranks(x, 3);
    let g2 = group_ranks(x, 2);
    if g4.len() > 0 {
        let (fx, fy) = (with_rank(x, g4[0]), with_rank(y, g4[0]));
        lemma_with_rank_cards(x, y, g4[0]);
        lemma_with_rank_values(x, y, g4[0]);
        lemma_without_alike(x, y, fx, fy, 1);
        lemma_values_add(fx, take_at_most(without(x, fx), 1));
        lemma_values_add(fy, take_at_most(without(y, fy), 1));
    } else if g3.len() > 0 {
        lemma_with_rank_values(x, y, g3[0]);
        if g2.len() > 0 {
            lemma_with_rank_values(x, y, g2[0]);
            lemma_values_add(with_rank(x, g3[0]), with_rank(x, g2[0]));
            lemma_values_add(with_rank(y, g3[0]), with_rank(y, g2[0]));
        } else if g3.len() >= 2 {
            lemma_with_rank_values(x, y, g3[1]);
            lemma_values_take(with_rank(x, g3[1]), 2);
            lemma_values_take(with_rank(y, g3[1]), 2);
            lemma_values_add(with_rank(x, g3[0]), take_at_most(with_rank(x, g3[1]), 2));
            lemma_values_add(with_rank(y, g3[0]), take_at_most(with_rank(y, g3[1]), 2));
        } else {
            let (fx, fy) = (with_rank(x, g3[0]), with_rank(y, g3[0]));
            lemma_with_rank_cards(x, y, g3[0]);
            lemma_without_alike(x, y, fx, fy, 2);
            lemma_values_add(fx, take_at_most(without(x, fx), 2));
            lemma_values_add(fy, take_at_most(without(y, fy), 2));
        }
    } else if g2.len() > 0 {
        if g2.len() >= 2 {
            let (ax, bx) = (with_rank(x, g2[0]), with_rank(x, g2[1]));
            let (ay, by) = (with_rank(y, g2[0]), with_rank(y, g2[1]));
            lemma_with_rank_cards(x, y, g2[0]);
            lemma_with_rank_cards(x, y, g2[1]);
            lemma_with_rank_values(x, y, g2[0]);
            lemma_with_rank_values(x, y, g2[1]);
            assert forall|c: Card| #![trigger (ax + bx).contains(c)] #![trigger (ay + by).contains(c)]
                (ax + bx).contains(c) <==> (ay + by).contains(c) by {
                lemma_contains_add(ax, bx, c);
                lemma_contains_add(ay, by, c);
            }
            lemma_without_alike(x, y, ax + bx, ay + by, 1);
            lemma_values_add(ax, bx);
            lemma_values_add(ay, by);
            lemma_values_add(ax + bx, take_at_most(without(x, ax + bx), 1));
            lemma_values_add(ay + by, take_at_most(without(y, ay + by), 1));
        } else {
            let (fx, fy) = (with_rank(x, g2[0]), with_rank(y, g2[0]));
            lemma_with_rank_cards(x, y, g2[0]);
            lemma_with_rank_values(x, y, g2[0]);
            lemma_without_alike(x, y, fx, fy, 3);
            lemma_values_add(fx, take_at_most(without(x, fx), 3));
            lemma_values_add(fy, take_at_most(without(y, fy), 3));
        }
    }
}

proof fn lemma_filter_profile(x: Seq<Card>, y: Seq<Card>, q: spec_fn(Card) -> bool)
    requires
        same_profile(x, y),
    ensures
        same_profile(x.filter(q), y.filter(q)),
{
    assert forall|p: spec_fn(Card) -> bool| #[trigger] values_of(x.filter(q).filter(p)) == values_of(
        y.filter(q).filter(p),
    ) by {
        let both = |c: Card| q(c) && p(c);
        lemma_filter_filter(x, q, p, both);
        lemma_filter_filter(y, q, p, both);
        assert(values_of(x.filter(both)) == values_of(y.filter(both)));
    }
}

proof fn lemma_present_alike(x: Seq<Card>, y: Seq<Card>)
    requires
        same_profile(x, y),
    ensures
        present_values(x) == present_values(y),
{
    assert forall|v: u8| #[trigger] value_present(x)(v) == value_present(y)(v) by {
        lemma_counts_alike(x, y, rank_with_value(v as int));
    }
    assert(value_present(x) =~= value_present(y));
}

proof fn lemma_flush_suit_alike(x: Seq<Card>, y: Seq<Card>, i: int)
    requires
        same_profile(x, y),
    ensures
        first_flush_suit(x, i) == first_flush_suit(y, i),
    decreases 4 - i,
{
    if 0 <= i < 4 {
        assert(values_of(x.filter(suit_is(flush_suits()[i]))) == values_of(
            y.filter(suit_is(flush_suits()[i])),
        ));
        lemma_flush_suit_alike(x, y, i + 1);
    }
}

proof fn lemma_flush_hand_alike(x: Seq<Card>, y: Seq<Card>, su: crate::card::Suit)
    requires
        same_profile(x, y),
    ensures
        flush_hand(x, su) == flush_hand(y, su),
{
    let fx = x.filter(suit_is(su));
    let fy = y.filter(suit_is(su));
    lemma_filter_profile(x, y, suit_is(su));
    lemma_present_alike(fx, fy);
    lemma_prefix_alike(fx, fy, 5);
}

proof fn lemma_best_hand_alike(x: Seq<Card>, y: Seq<Card>)
    requires
        same_profile(x, y),
        same_cards(x, y),
    ensures
        best_hand(x) == best_hand(y),
{
    lemma_group_phase_alike(x, y);
    let g = group_phase(x);
    lemma_flush_suit_alike(x, y, 0);
    match first_flush_suit(x, 0) {
        Some(su) => lemma_flush_hand_alike(x, y, su),
        None => {},
    }
    let f = flush_phase(x, g.0, values_of(g.1));
    assert(f == flush_phase(y, group_phase(y).0, values_of(group_phase(y).1)));
    lemma_present_alike(x, y);
    let st = straight_phase(x, f.0, f.1);
    assert(st == straight_phase(y, f.0, f.1));
    lemma_prefix_alike(x, y, 5);
    assert(high_card_phase(x, st.0, st.1) == high_card_phase(y, st.0, st.1));
}

/// The evaluation of cards does not depend on the order in which they come: two
/// sequences that hold the same cards, each as often, have the same category and score.
pub proof fn lemma_evaluation_order_free(a: Seq<Card>, b: Seq<Card>)
    requires
        a.to_multiset() == b.to_multiset(),
    ensures
        evaluation(a) == evaluation(b),
{
    lemma_sorted_alike(a, b);
    lemma_best_hand_alike(sort_by_rank_desc(a), sort_by_rank_desc(b));
}

/// A card with its suit renamed by `sigma`, its rank kept.
pub open spec fn rename_suit(sigma: spec_fn(Suit) -> Suit) -> spec_fn(Card) -> Card {
    |c: Card| Card { rank: c.rank, suit: sigma(c.suit) }
}

/// Filtering renamed cards is renaming the cards that pass the renamed test.
proof fn lemma_map_filter(
    x: Seq<Card>,
    m: spec_fn(Card) -> Card,
    p: spec_fn(Card) -> bool,
    q: spec_fn(Card) -> bool,
)
    requires
        forall|c: Card| #[trigger] q(c) == p(m(c)),
    ensures
        x.map_values(m).filter(p) == x.filter(q).map_values(m),
    decreases x.len(),
{
    if x.len() > 0 {
        let y = x.drop_last();
        let l = x.last();
        lemma_map_filter(y, m, p, q);
        lemma_split_last(x);
        let ym = y.map_values(m);
        assert(x.map_values(m) =~= ym.push(m(l)));
        assert(x.map_values(m).filter(p) == ym.push(m(l)).filter(p));
        assert(x.filter(q) == y.push(l).filter(q));
        assert(q(l) == p(m(l)));
        if q(l) {
            assert(ym.push(m(l)).filter(p) == ym.filter(p).push(m(l)));
            assert(y.push(l).filter(q) == y.filter(q).push(l));
            assert(y.filter(q).push(l).map_values(m) =~= y.filter(q).map_values(m).push(m(l)));
        } else {
            assert(ym.push(m(l)).filter(p) == ym.filter(p));
            assert(y.push(l).filter(q) == y.filter(q));
        }
    } else {
        assert(x.map_values(m) =~= Seq::<Card>::empty());
        assert(x =~= Seq::<Card>::empty());
        assert(Seq::<Card>::empty().filter(p) =~= Seq::<Card>::empty()) by {
            reveal_with_fuel(Seq::filter, 1);
        }
        assert(Seq::<Card>::empty().filter(q) =~= Seq::<Card>::empty()) by {
            reveal_with_fuel(Seq::filter, 1);
        }
        assert(x.filter(q).map_values(m) =~= Seq::<Card>::empty());
    }
}

proof fn lemma_values_renamed(x: Seq<Card>, sigma: spec_fn(Suit) -> Suit)
    ensures
        values_of(x.map_values(rename_suit(sigma))) == values_of(x),
{
    assert(values_of(x.map_values(rename_suit(sigma))) =~= values_of(x));
}

proof fn lemma_sort_renamed(a: Seq<Card>, sigma: spec_fn(Suit) -> Suit, rs: Seq<Rank>)
    ensures
        buckets(a.map_values(rename_suit(sigma)), rs) == buckets(a, rs).map_values(rename_suit(sigma)),
    decreases rs.len(),
{
    let m = rename_suit(sigma);
    if rs.len() > 0 {
        lemma_sort_renamed(a, sigma, rs.drop_last());
        lemma_map_filter(a, m, rank_is(rs.last()), rank_is(rs.last()));
        let u = buckets(a, rs.drop_last());
        let v = a.filter(rank_is(rs.last()));
        assert((u + v).map_values(m) =~= u.map_values(m) + v.map_values(m));
    } else {
        assert(Seq::<Card>::empty().map_values(m) =~= Seq::<Card>::empty());
    }
}

proof fn lemma_take_renamed(x: Seq<Card>, sigma: spec_fn(Suit) -> Suit, n: int)
    requires
        0 <= n,
    ensures
        values_of(take_at_most(x.map_values(rename_suit(sigma)), n)) == values_of(take_at_most(x, n)),
{
    if n <= x.len() {
        assert(x.map_values(rename_suit(sigma)).take(n) =~= x.take(n).map_values(rename_suit(sigma)));
        lemma_values_renamed(x.take(n), sigma);
    } else {
        lemma_values_renamed(x, sigma);
    }
}

proof fn lemma_counts_renamed(x: Seq<Card>, sigma: spec_fn(Suit) -> Suit, r: Rank)
    ensures
        rank_count(x.map_values(rename_suit(sigma)), r) == rank_count(x, r),
        with_rank(x.map_values(rename_suit(sigma)), r) == with_rank(x, r).map_values(rename_suit(sigma)),
{
    lemma_map_filter(x, rename_suit(sigma), rank_is(r), rank_is(r));
}

proof fn lemma_groups_renamed(x: Seq<Card>, sigma: spec_fn(Suit) -> Suit, c: int)
    ensures
        group_ranks(x.map_values(rename_suit(sigma)), c) == group_ranks(x, c),
{
    assert forall|r: Rank| #[trigger] has_count(x.map_values(rename_suit(sigma)), c)(r) == has_count(x, c)(r) by {
        lemma_counts_renamed(x, sigma, r);
    }
    assert(has_count(x.map_values(rename_suit(sigma)), c) =~= has_count(x, c));
}

proof fn lemma_present_renamed(x: Seq<Card>, sigma: spec_fn(Suit) -> Suit)
    ensures
        present_values(x.map_values(rename_suit(sigma))) == present_values(x),
{
    assert forall|v: u8| #[trigger] value_present(x.map_values(rename_suit(sigma)))(v) == value_present(x)(v) by {
        lemma_counts_renamed(x, sigma, rank_with_value(v as int));
    }
    assert(value_present(x.map_values(rename_suit(sigma))) =~= value_present(x));
}

/// A renaming of suits with an inverse.
pub open spec fn suits_bijection(sigma: spec_fn(Suit) -> Suit, tau: spec_fn(Suit) -> Suit) -> bool {
    forall|su: Suit| #![trigger tau(sigma(su))] #![trigger sigma(tau(su))] tau(sigma(su)) == su && sigma(tau(su)) == su
}

/// Without the cards that `f` holds, before or after renaming suits.
proof fn lemma_without_renamed(
    x: Seq<Card>,
    f: Seq<Card>,
    sigma: spec_fn(Suit) -> Suit,
    tau: spec_fn(Suit) -> Suit,
    n: int,
)
    requires
        suits_bijection(sigma, tau),
        0 <= n,
    ensures
        values_of(take_at_most(without(x.map_values(rename_suit(sigma)), f.map_values(rename_suit(sigma))), n))
            == values_of(take_at_most(without(x, f), n)),
{
    let m = rename_suit(sigma);
    let fm = f.map_values(m);
    assert forall|c: Card| #[trigger] not_among(f)(c) == not_among(fm)(m(c)) by {
        if f.contains(c) {
            let i = choose|i: int| 0 <= i < f.len() && f[i] == c;
            assert(fm[i] == m(c));
        }
        if fm.contains(m(c)) {
            let i = choose|i: int| 0 <= i < fm.len() && fm[i] == m(c);
            assert(tau(sigma(f[i].suit)) == f[i].suit && tau(sigma(c.suit)) == c.suit);
            assert(f[i] == c);
        }
    }
    lemma_map_filter(x, m, not_among(fm), not_among(f));
    lemma_take_renamed(x.filter(not_among(f)), sigma, n);
}

proof fn lemma_group_phase_renamed(x: Seq<Card>, sigma: spec_fn(Suit) -> Suit, tau: spec_fn(Suit) -> Suit)
    requires
        suits_bijection(sigma, tau),
    ensures
        group_phase(x.map_values(rename_suit(sigma))).0 == group_phase(x).0,
        values_of(group_phase(x.map_values(rename_suit(sigma))).1) == values_of(group_phase(x).1),
{
    let m = rename_suit(sigma);
    let y = x.map_values(m);
    lemma_groups_renamed(x, sigma, 4);
    lemma_groups_renamed(x, sigma, 3);
    lemma_groups_renamed(x, sigma, 2);
    let g4 = group_ranks(x, 4);
    let g3 = group_ranks(x, 3);
    let g2 = group_ranks(x, 2);
    if g4.len() > 0 {
        let fx = with_rank(x, g4[0]);
        lemma_counts_renamed(x, sigma, g4[0]);
        lemma_values_renamed(fx, sigma);
        lemma_without_renamed(x, fx, sigma, tau, 1);
        lemma_values_add(fx.map_values(m), take_at_most(without(y, fx.map_values(m)), 1));
        lemma_values_add(fx, take_at_most(without(x, fx), 1));
    } else if g3.len() > 0 {
        lemma_counts_renamed(x, sigma, g3[0]);
        lemma_values_renamed(with_rank(x, g3[0]), sigma);
        if g2.len() > 0 {
            lemma_counts_renamed(x, sigma, g2[0]);
            lemma_values_renamed(with_rank(x, g2[0]), sigma);
            lemma_values_add(with_rank(y, g3[0]), with_rank(y, g2[0]));
            lemma_values_add(with_rank(x, g3[0]), with_rank(x, g2[0]));
        } else if g3.len() >= 2 {
            lemma_counts_renamed(x, sigma, g3[1]);
            lemma_take_renamed(with_rank(x, g3[1]), sigma, 2);
            lemma_values_add(with_rank(y, g3[0]), take_at_most(with_rank(y, g3[1]), 2));
            lemma_values_add(with_rank(x, g3[0]), take_at_most(with_rank(x, g3[1]), 2));
        } else {
            let fx = with_rank(x, g3[0]);
            lemma_without_renamed(x, fx, sigma, tau, 2);
            lemma_values_add(fx.map_values(m), take_at_most(without(y, fx.map_values(m)), 2));
            lemma_values_add(fx, take_at_most(without(x, fx), 2));
        }
    } else if g2.len() > 0 {
        if g2.len() >= 2 {
            let two = with_rank(x, g2[0]) + with_rank(x, g2[1]);
            lemma_counts_renamed(x, sigma, g2[0]);
            lemma_counts_renamed(x, sigma, g2[1]);
            assert(two.map_values(m) =~= with_rank(y, g2[0]) + with_rank(y, g2[1]));
            lemma_values_renamed(two, sigma);
            lemma_without_renamed(x, two, sigma, tau, 1);
            lemma_values_add(two.map_values(m), take_at_most(without(y, two.map_values(m)), 1));
            lemma_values_add(two, take_at_most(without(x, two), 1));
        } else {
            let fx = with_rank(x, g2[0]);
            lemma_counts_renamed(x, sigma, g2[0]);
            lemma_values_renamed(fx, sigma);
            lemma_without_renamed(x, fx, sigma, tau, 3);
            lemma_values_add(fx.map_values(m), take_at_most(without(y, fx.map_values(m)), 3));
            lemma_values_add(fx, take_at_most(without(x, fx), 3));
        }
    }
}

/// Cards of two different suits number at most all the cards.
proof fn lemma_two_suits(x: Seq<Card>, s1: Suit, s2: Suit)
    requires
        s1 != s2,
    ensures
        x.filter(suit_is(s1)).len() + x.filter(suit_is(s2)).len() <= x.len(),
{
    let u = |c: Card| c.suit == s1 || c.suit == s2;
    lemma_filter_union(x, suit_is(s1), suit_is(s2), u);
    lemma_filter_len_mono(x, u, |c: Card| true);
    lemma_filter_all(x, |c: Card| true);
}

/// With at most nine cards, the flush suit is the one suit with five cards or more.
pub(crate) proof fn lemma_flush_suit_unique(x: Seq<Card>, su: Option<Suit>)
    requires
        x.len() <= 9,
        match su {
            Some(s) => x.filter(suit_is(s)).len() >= 5,
            None => forall|s: Suit| #[trigger] x.filter(suit_is(s)).len() < 5,
        },
    ensures
        first_flush_suit(x, 0) == su,
{
    reveal_with_fuel(first_flush_suit, 5);
    if let Some(s) = su {
        assert forall|s2: Suit| s2 != s implies #[trigger] x.filter(suit_is(s2)).len() < 5 by {
            lemma_two_suits(x, s, s2);
        }
    }
    assert(flush_suits()[0] == Suit::Clubs && flush_suits()[1] == Suit::Diamonds);
    assert(flush_suits()[2] == Suit::Hearts && flush_suits()[3] == Suit::Spades);
}

proof fn lemma_suit_counts_renamed(x: Seq<Card>, sigma: spec_fn(Suit) -> Suit, tau: spec_fn(Suit) -> Suit, s: Suit)
    requires
        suits_bijection(sigma, tau),
    ensures
        x.map_values(rename_suit(sigma)).filter(suit_is(s)) == x.filter(suit_is(tau(s))).map_values(
            rename_suit(sigma),
        ),
{
    assert forall|c: Card| #[trigger] suit_is(tau(s))(c) == suit_is(s)(rename_suit(sigma)(c)) by {
        assert(tau(sigma(c.suit)) == c.suit && sigma(tau(s)) == s);
    }
    lemma_map_filter(x, rename_suit(sigma), suit_is(s), suit_is(tau(s)));
}

proof fn lemma_flush_phase_renamed(
    x: Seq<Card>,
    sigma: spec_fn(Suit) -> Suit,
    tau: spec_fn(Suit) -> Suit,
    h: HandType,
    b: Seq<int>,
)
    requires
        suits_bijection(sigma, tau),
        x.len() <= 9,
    ensures
        flush_phase(x.map_values(rename_suit(sigma)), h, b) == flush_phase(x, h, b),
{
    let m = rename_suit(sigma);
    let y = x.map_values(m);
    assert forall|s: Suit| #[trigger] y.filter(suit_is(s)).len() == x.filter(suit_is(tau(s))).len() by {
        lemma_suit_counts_renamed(x, sigma, tau, s);
    }
    match first_flush_suit(x, 0) {
        Some(su) => {
            lemma_first_flush_some(x, 0, su);
            assert(tau(sigma(su)) == su);
            assert(y.filter(suit_is(sigma(su))).len() >= 5);
            lemma_flush_suit_unique(y, Some(sigma(su)));
            lemma_suit_counts_renamed(x, sigma, tau, sigma(su));
            let fx = x.filter(suit_is(su));
            lemma_present_renamed(fx, sigma);
            lemma_take_renamed(fx, sigma, 5);
        },
        None => {
            assert forall|s: Suit| #[trigger] x.filter(suit_is(s)).len() < 5 by {
                if x.filter(suit_is(s)).len() >= 5 {
                    lemma_flush_suit_unique(x, Some(s));
                }
            }
            assert forall|s: Suit| #[trigger] y.filter(suit_is(s)).len() < 5 by {
                assert(x.filter(suit_is(tau(s))).len() < 5);
            }
            lemma_flush_suit_unique(y, None);
        },
    }
}

/// With at most nine cards, renaming the suits through any one-to-one renaming keeps the
/// category and the score: the evaluation sees ranks, and which cards share a suit, but not
/// which suit it is. (With ten cards or more, two suits may each hold five, and the fixed
/// order in which suits are checked for a flush then decides.)
pub proof fn lemma_evaluation_suit_free(a: Seq<Card>, sigma: spec_fn(Suit) -> Suit, tau: spec_fn(Suit) -> Suit)
    requires
        suits_bijection(sigma, tau),
        a.len() <= 9,
    ensures
        evaluation(a.map_values(rename_suit(sigma))) == evaluation(a),
{
    let m = rename_suit(sigma);
    let x = sort_by_rank_desc(a);
    lemma_sort_renamed(a, sigma, ranks_desc());
    let y = x.map_values(m);
    assert(sort_by_rank_desc(a.map_values(m)) == y);
    lemma_sort_counts(a);
    lemma_group_phase_renamed(x, sigma, tau);
    let g = group_phase(x);
    lemma_flush_phase_renamed(x, sigma, tau, g.0, values_of(g.1));
    let f = flush_phase(x, g.0, values_of(g.1));
    lemma_present_renamed(x, sigma);
    let st = straight_phase(x, f.0, f.1);
    assert(straight_phase(y, f.0, f.1) == st);
    lemma_take_renamed(x, sigma, 5);
    assert(high_card_phase(y, st.0, st.1) == high_card_phase(x, st.0, st.1));
    assert(best_hand(y) == best_hand(x));
}

} // verus!
