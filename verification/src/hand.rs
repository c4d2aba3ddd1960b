use vstd::prelude::*;

use crate::card::{Card, HandType, Rank, Suit, rank_with_value, lemma_rank_value_roundtrip};
use crate::seqs::{
    lemma_filter_all, lemma_filter_complement, lemma_filter_disjoint, lemma_filter_idem,
    lemma_filter_mem, lemma_filter_no_dup, lemma_filter_union, lemma_split_last,
};
use crate::straight::{
    desc_values, find_straight, highest_straight, lemma_present_values, low_value, present_ranks,
    present_values, straight_at, straight_values, value_in, value_present,
};
use crate::tracker::{
    CardTracker, group_ranks, has_count, not_among, occurrences, rank_count, rank_is,
    ranks_at_most_four, ranks_desc, suit_is, take_at_most,
};

verus! {

broadcast use Seq::lemma_filter_push;

/// The cards of each rank in turn, highest rank first, keeping their order within a rank.
pub open spec fn buckets(s: Seq<Card>, rs: Seq<Rank>) -> Seq<Card>
    decreases rs.len(),
{
    if rs.len() == 0 {
        Seq::empty()
    } else {
        buckets(s, rs.drop_last()) + s.filter(rank_is(rs.last()))
    }
}

/// The cards sorted by rank, highest first; cards of equal rank keep their order.
pub open spec fn sort_by_rank_desc(s: Seq<Card>) -> Seq<Card> {
    buckets(s, ranks_desc())
}

/// Holds of the cards whose rank is among `rs`.
pub open spec fn rank_in(rs: Seq<Rank>) -> spec_fn(Card) -> bool {
    |c: Card| rs.contains(c.rank)
}

/// Holds of the cards of rank `a` or `b`.
pub open spec fn rank_is_either(a: Rank, b: Rank) -> spec_fn(Card) -> bool {
    |c: Card| c.rank == a || c.rank == b
}

/// The rank values of the cards, in order.
pub open spec fn values_of(cards: Seq<Card>) -> Seq<int> {
    cards.map_values(|c: Card| c.rank.value() as int)
}

/// The cards of rank `r`, in order.
pub open spec fn with_rank(s: Seq<Card>, r: Rank) -> Seq<Card> {
    s.filter(rank_is(r))
}

/// The cards that are not among `f`, in order.
pub open spec fn without(s: Seq<Card>, f: Seq<Card>) -> Seq<Card> {
    s.filter(not_among(f))
}

/// The made hand that the groups of equal ranks give, over cards sorted by rank:
/// the category and the cards chosen for it, the group first, then the highest other cards.
pub open spec fn group_phase(s: Seq<Card>) -> (HandType, Seq<Card>) {
    let g4 = group_ranks(s, 4);
    let g3 = group_ranks(s, 3);
    let g2 = group_ranks(s, 2);
    if g4.len() > 0 {
        let four = with_rank(s, g4[0]);
        (HandType::FourOfAKind, four + take_at_most(without(s, four), 1))
    } else if g3.len() > 0 {
        if g2.len() > 0 {
            (HandType::FullHouse, with_rank(s, g3[0]) + with_rank(s, g2[0]))
        } else if g3.len() >= 2 {
            (HandType::FullHouse, with_rank(s, g3[0]) + take_at_most(with_rank(s, g3[1]), 2))
        } else {
            let three = with_rank(s, g3[0]);
            (HandType::ThreeOfAKind, three + take_at_most(without(s, three), 2))
        }
    } else if g2.len() > 0 {
        if g2.len() >= 2 {
            let two = with_rank(s, g2[0]) + with_rank(s, g2[1]);
            (HandType::TwoPair, two + take_at_most(without(s, two), 1))
        } else {
            let two = with_rank(s, g2[0]);
            (HandType::Pair, two + take_at_most(without(s, two), 3))
        }
    } else {
        (HandType::HighCard, Seq::empty())
    }
}

/// The suits in the order in which they are checked for a flush.
pub open spec fn flush_suits() -> Seq<Suit> {
    seq![Suit::Clubs, Suit::Diamonds, Suit::Hearts, Suit::Spades]
}

/// The first suit, from the `i`-th in checking order on, of which there are five cards or more.
pub open spec fn first_flush_suit(s: Seq<Card>, i: int) -> Option<Suit>
    decreases 4 - i,
{
    if i < 0 || i >= 4 {
        None
    } else if s.filter(suit_is(flush_suits()[i])).len() >= 5 {
        Some(flush_suits()[i])
    } else {
        first_flush_suit(s, i + 1)
    }
}

/// The hand that the cards of one suit make: a straight or royal flush where they hold a
/// straight, else a flush of their five highest cards.
pub open spec fn flush_hand(s: Seq<Card>, su: Suit) -> (HandType, Seq<int>) {
    let fs = s.filter(suit_is(su));
    match highest_straight(value_in(present_values(fs)), 12) {
        Some(t) => (
            if t == 12 {
                HandType::RoyalFlush
            } else {
                HandType::StraightFlush
            },
            straight_values(t),
        ),
        None => (HandType::Flush, values_of(take_at_most(fs, 5))),
    }
}

/// After the groups: a flush, where there is one, replaces any weaker hand.
pub open spec fn flush_phase(s: Seq<Card>, h: HandType, b: Seq<int>) -> (HandType, Seq<int>) {
    if h.value() < 5 {
        match first_flush_suit(s, 0) {
            Some(su) => flush_hand(s, su),
            None => (h, b),
        }
    } else {
        (h, b)
    }
}

/// Then a straight, where there is one, replaces any weaker hand.
pub open spec fn straight_phase(s: Seq<Card>, h: HandType, b: Seq<int>) -> (HandType, Seq<int>) {
    if h.value() < 4 {
        match highest_straight(value_in(present_values(s)), 12) {
            Some(t) => (HandType::Straight, straight_values(t)),
            None => (h, b),
        }
    } else {
        (h, b)
    }
}

/// Last, a hand with nothing better plays its five highest cards.
pub open spec fn high_card_phase(s: Seq<Card>, h: HandType, b: Seq<int>) -> (HandType, Seq<int>) {
    if h == HandType::HighCard {
        (h, b + values_of(take_at_most(s, 5)))
    } else {
        (h, b)
    }
}

/// The category of the best hand in cards sorted by rank, and the rank values of the five
/// cards that make it, in the order that the score weighs them.
pub open spec fn best_hand(s: Seq<Card>) -> (HandType, Seq<int>) {
    let g = group_phase(s);
    let f = flush_phase(s, g.0, values_of(g.1));
    let st = straight_phase(s, f.0, f.1);
    high_card_phase(s, st.0, st.1)
}

/// The score of a hand: the category, then the five rank values in order, as digits in base 15.
pub open spec fn score_of(h: HandType, b: Seq<int>) -> int {
    15 * b[4] + 225 * b[3] + 3375 * b[2] + 50625 * b[1] + 759375 * b[0] + 11390625 * h.value()
}

/// `b1` comes before `b2` in the order of their elements from the `i`-th on.
pub open spec fn ranks_less(b1: Seq<int>, b2: Seq<int>, i: int) -> bool
    decreases 5 - i,
{
    if i < 0 || i >= 5 {
        false
    } else {
        b1[i] < b2[i] || (b1[i] == b2[i] && ranks_less(b1, b2, i + 1))
    }
}

/// One hand is weaker than another: a lower category, or the same category and lower
/// rank values, compared from the first card on.
pub open spec fn hand_less(h1: HandType, b1: Seq<int>, h2: HandType, b2: Seq<int>) -> bool {
    h1.value() < h2.value() || (h1 == h2 && ranks_less(b1, b2, 0))
}

/// Five rank values, each from 0 to 12.
pub open spec fn valid_values(b: Seq<int>) -> bool {
    b.len() == 5 && forall|i: int| 0 <= i < 5 ==> 0 <= #[trigger] b[i] <= 12
}

/// The category and the score of the best hand among the cards.
pub open spec fn evaluation(cards: Seq<Card>) -> (HandType, int) {
    let (h, b) = best_hand(sort_by_rank_desc(cards));
    (h, score_of(h, b))
}

/// The outcome of evaluating one player's cards on one board.
#[derive(Clone, Copy, PartialEq, Eq, Structural, Debug)]
pub struct EvalResult {
    pub score: u64,
    pub hand_type: HandType,
}

proof fn lemma_drop_last_no_dup<A>(s: Seq<A>)
    requires
        s.no_duplicates(),
        s.len() > 0,
    ensures
        s.drop_last().no_duplicates(),
        !s.drop_last().contains(s.last()),
{
    let t = s.drop_last();
    assert forall|i: int, j: int| 0 <= i < t.len() && 0 <= j < t.len() && i != j implies t[i]
        != t[j] by {
        assert(t[i] == s[i] && t[j] == s[j]);
    }
    if t.contains(s.last()) {
        let i = choose|i: int| 0 <= i < t.len() && t[i] == s.last();
        assert(s[i] == s[s.len() - 1]);
    }
}

/// The ranks in descending order are all different and include every rank.
pub proof fn lemma_ranks_desc()
    ensures
        ranks_desc().no_duplicates(),
        ranks_desc().len() == 13,
        forall|r: Rank| #[trigger] ranks_desc().contains(r),
{
    let rd = ranks_desc();
    assert forall|i: int, j: int| 0 <= i < 13 && 0 <= j < 13 && i != j implies rd[i] != rd[j] by {
        lemma_rank_value_roundtrip(rd[i], 12 - i);
        lemma_rank_value_roundtrip(rd[j], 12 - j);
    }
    assert forall|r: Rank| #[trigger] rd.contains(r) by {
        lemma_rank_value_roundtrip(r, 0);
        assert(rd[12 - r.value()] == r);
    }
}

proof fn lemma_buckets_rank(s: Seq<Card>, rs: Seq<Rank>, r: Rank)
    requires
        rs.no_duplicates(),
    ensures
        buckets(s, rs).filter(rank_is(r)) == (if rs.contains(r) {
            s.filter(rank_is(r))
        } else {
            Seq::<Card>::empty()
        }),
    decreases rs.len(),
{
    if rs.len() > 0 {
        let rs2 = rs.drop_last();
        let last = rs.last();
        lemma_drop_last_no_dup(rs);
        lemma_buckets_rank(s, rs2, r);
        Seq::filter_distributes_over_add(buckets(s, rs2), s.filter(rank_is(last)), rank_is(r));
        lemma_split_last(rs);
        if last == r {
            lemma_filter_idem(s, rank_is(r));
        } else {
            lemma_filter_disjoint(s, rank_is(last), rank_is(r));
        }
        assert(rs.contains(r) <==> (rs2.contains(r) || last == r)) by {
            if rs.contains(r) && last != r {
                let i = choose|i: int| 0 <= i < rs.len() && rs[i] == r;
                assert(rs2[i] == r);
            }
            if rs2.contains(r) {
                let i = choose|i: int| 0 <= i < rs2.len() && rs2[i] == r;
                assert(rs[i] == r);
            }
        }
    }
}

/// Sorting by rank keeps exactly the same cards.
pub proof fn lemma_sort_members(s: Seq<Card>, x: Card)
    ensures
        sort_by_rank_desc(s).contains(x) <==> s.contains(x),
{
    lemma_ranks_desc();
    lemma_buckets_members(s, ranks_desc(), x);
}

proof fn lemma_buckets_members(s: Seq<Card>, rs: Seq<Rank>, x: Card)
    ensures
        buckets(s, rs).contains(x) <==> (s.contains(x) && rs.contains(x.rank)),
    decreases rs.len(),
{
    if rs.len() > 0 {
        let rs2 = rs.drop_last();
        let a = buckets(s, rs2);
        let f = s.filter(rank_is(rs.last()));
        lemma_buckets_members(s, rs2, x);
        lemma_filter_mem(s, rank_is(rs.last()), x);
        lemma_split_last(rs);
        assert((a + f).contains(x) <==> (a.contains(x) || f.contains(x))) by {
            if (a + f).contains(x) {
                let i = choose|i: int| 0 <= i < (a + f).len() && (a + f)[i] == x;
                if i < a.len() {
                    assert(a[i] == x);
                } else {
                    assert(f[i - a.len()] == x);
                }
            }
            if a.contains(x) {
                let i = choose|i: int| 0 <= i < a.len() && a[i] == x;
                assert((a + f)[i] == x);
            }
            if f.contains(x) {
                let i = choose|i: int| 0 <= i < f.len() && f[i] == x;
                assert((a + f)[a.len() + i] == x);
            }
        }
        assert(rs.contains(x.rank) <==> (rs2.contains(x.rank) || rs.last() == x.rank)) by {
            if rs.contains(x.rank) && rs.last() != x.rank {
                let i = choose|i: int| 0 <= i < rs.len() && rs[i] == x.rank;
                assert(rs2[i] == x.rank);
            }
            if rs2.contains(x.rank) {
                let i = choose|i: int| 0 <= i < rs2.len() && rs2[i] == x.rank;
                assert(rs[i] == x.rank);
            }
        }
    }
}

proof fn lemma_buckets_len(s: Seq<Card>, rs: Seq<Rank>)
    requires
        rs.no_duplicates(),
    ensures
        buckets(s, rs).len() == s.filter(rank_in(rs)).len(),
    decreases rs.len(),
{
    if rs.len() > 0 {
        let rs2 = rs.drop_last();
        let last = rs.last();
        lemma_drop_last_no_dup(rs);
        lemma_buckets_len(s, rs2);
        lemma_split_last(rs);
        assert forall|x: Card| #[trigger] rank_in(rs)(x) == (rank_in(rs2)(x) || rank_is(last)(x)) by {
            if rs.contains(x.rank) && x.rank != last {
                let i = choose|i: int| 0 <= i < rs.len() && rs[i] == x.rank;
                assert(rs2[i] == x.rank);
            }
            if rs2.contains(x.rank) {
                let i = choose|i: int| 0 <= i < rs2.len() && rs2[i] == x.rank;
                assert(rs[i] == x.rank);
            }
        }
        lemma_filter_union(s, rank_in(rs2), rank_is(last), rank_in(rs));
    } else {
        lemma_filter_union(s, rank_in(rs), rank_in(rs), rank_in(rs));
    }
}

/// Sorting keeps every card: as many cards, and as many of each rank.
pub proof fn lemma_sort_counts(s: Seq<Card>)
    ensures
        sort_by_rank_desc(s).len() == s.len(),
        forall|r: Rank| #[trigger] rank_count(sort_by_rank_desc(s), r) == rank_count(s, r),
        ranks_at_most_four(s) ==> ranks_at_most_four(sort_by_rank_desc(s)),
{
    lemma_ranks_desc();
    lemma_buckets_len(s, ranks_desc());
    lemma_filter_all(s, rank_in(ranks_desc()));
    assert forall|r: Rank| #[trigger] rank_count(sort_by_rank_desc(s), r) == rank_count(s, r) by {
        lemma_buckets_rank(s, ranks_desc(), r);
    }
}

/// A rank listed among those occurring `c` times occurs `c` times.
pub proof fn lemma_group_count(s: Seq<Card>, c: int, i: int)
    requires
        0 <= i < group_ranks(s, c).len(),
    ensures
        rank_count(s, group_ranks(s, c)[i]) == c,
        c > 0,
{
    ranks_desc().lemma_filter_pred(has_count(s, c), i);
}

/// The ranks occurring `c` times are all different.
pub proof fn lemma_group_distinct(s: Seq<Card>, c: int)
    ensures
        group_ranks(s, c).no_duplicates(),
{
    lemma_ranks_desc();
    lemma_filter_no_dup(ranks_desc(), has_count(s, c));
}

/// Leaving out all cards of the ranks that `p` picks leaves the other cards.
proof fn lemma_without_len(s: Seq<Card>, f: Seq<Card>, p: spec_fn(Card) -> bool)
    requires
        forall|x: Card| s.contains(x) ==> (f.contains(x) <==> #[trigger] p(x)),
    ensures
        without(s, f).len() + s.filter(p).len() == s.len(),
{
    assert forall|i: int| 0 <= i < s.len() implies not_among(f)(#[trigger] s[i]) == !p(s[i]) by {
        assert(s.contains(s[i]));
    }
    lemma_filter_complement(s, p, not_among(f));
}

/// The cards that the groups pick number five, unless there is no group at all.
pub proof fn lemma_group_phase_len(s: Seq<Card>)
    requires
        s.len() >= 5,
        ranks_at_most_four(s),
    ensures
        group_phase(s).0 == HandType::HighCard ==> group_phase(s).1.len() == 0,
        group_phase(s).0 != HandType::HighCard ==> group_phase(s).1.len() == 5,
        group_phase(s).0.value() != 4 && group_phase(s).0.value() != 5,
{
    let g4 = group_ranks(s, 4);
    let g3 = group_ranks(s, 3);
    let g2 = group_ranks(s, 2);
    if g4.len() > 0 {
        lemma_group_count(s, 4, 0);
        let four = with_rank(s, g4[0]);
        assert forall|x: Card| s.contains(x) implies (four.contains(x) <==> #[trigger] rank_is(
            g4[0],
        )(x)) by {
            lemma_filter_mem(s, rank_is(g4[0]), x);
        }
        lemma_without_len(s, four, rank_is(g4[0]));
    } else if g3.len() > 0 {
        lemma_group_count(s, 3, 0);
        if g2.len() > 0 {
            lemma_group_count(s, 2, 0);
        } else if g3.len() >= 2 {
            lemma_group_count(s, 3, 1);
        } else {
            let three = with_rank(s, g3[0]);
            assert forall|x: Card| s.contains(x) implies (three.contains(x) <==> #[trigger] rank_is(
                g3[0],
            )(x)) by {
                lemma_filter_mem(s, rank_is(g3[0]), x);
            }
            lemma_without_len(s, three, rank_is(g3[0]));
        }
    } else if g2.len() > 0 {
        lemma_group_count(s, 2, 0);
        if g2.len() >= 2 {
            lemma_group_count(s, 2, 1);
            lemma_group_distinct(s, 2);
            let a = with_rank(s, g2[0]);
            let b = with_rank(s, g2[1]);
            let two = a + b;
            let p = rank_is_either(g2[0], g2[1]);
            assert forall|x: Card| s.contains(x) implies (two.contains(x) <==> #[trigger] p(x)) by {
                lemma_filter_mem(s, rank_is(g2[0]), x);
                lemma_filter_mem(s, rank_is(g2[1]), x);
                if two.contains(x) {
                    let i = choose|i: int| 0 <= i < two.len() && two[i] == x;
                    if i < a.len() {
                        assert(a[i] == x);
                    } else {
                        assert(b[i - a.len()] == x);
                    }
                }
                if a.contains(x) {
                    let i = choose|i: int| 0 <= i < a.len() && a[i] == x;
                    assert(two[i] == x);
                }
                if b.contains(x) {
                    let i = choose|i: int| 0 <= i < b.len() && b[i] == x;
                    assert(two[a.len() + i] == x);
                }
            }
            lemma_without_len(s, two, p);
            lemma_filter_union(s, rank_is(g2[0]), rank_is(g2[1]), p);
        } else {
            let two = with_rank(s, g2[0]);
            assert forall|x: Card| s.contains(x) implies (two.contains(x) <==> #[trigger] rank_is(
                g2[0],
            )(x)) by {
                lemma_filter_mem(s, rank_is(g2[0]), x);
            }
            lemma_without_len(s, two, rank_is(g2[0]));
        }
    }
}

/// Sorts the cards by rank, highest first, keeping the order of cards of equal rank.
pub fn sort_cards_desc(cards: &[Card]) -> (r: Vec<Card>)
    ensures
        r@ == sort_by_rank_desc(cards@),
{
    let mut out: Vec<Card> = Vec::new();
    let mut k: usize = 0;
    while k < 13
        invariant
            k <= 13,
            out@ == buckets(cards@, ranks_desc().take(k as int)),
        decreases 13 - k,
    {
        let rank = Rank::from_index((12 - k) as u8);
        let ghost before = out@;
        assert(ranks_desc().take(k + 1).drop_last() == ranks_desc().take(k as int));
        let mut i: usize = 0;
        while i < cards.len()
            invariant
                i <= cards@.len(),
                out@ == before + cards@.take(i as int).filter(rank_is(rank)),
            decreases cards@.len() - i,
        {
            assert(cards@.take(i + 1) == cards@.take(i as int).push(cards@[i as int]));
            if cards[i].rank == rank {
                out.push(cards[i]);
            }
            i = i + 1;
        }
        assert(cards@.take(cards@.len() as int) == cards@);
        k = k + 1;
    }
    assert(ranks_desc().take(13) == ranks_desc());
    out
}

/// The first `n` cards of `v`, or all of them where it has fewer.
fn take_cards(v: Vec<Card>, n: usize) -> (r: Vec<Card>)
    ensures
        r@ == take_at_most(v@, n as int),
{
    let mut w = v;
    w.truncate(n);
    w
}

/// `a` followed by `b`.
fn concat_cards(a: Vec<Card>, b: Vec<Card>) -> (r: Vec<Card>)
    ensures
        r@ == a@ + b@,
{
    let mut x = a;
    let mut y = b;
    x.append(&mut y);
    x
}

/// The category and cards that the groups of equal ranks give.
fn group_hand(t: &CardTracker) -> (r: (HandType, Vec<Card>))
    ensures
        r.0 == group_phase(t@).0,
        r.1@ == group_phase(t@).1,
{
    let ghost s = t@;
    if t.contains(4) {
        let four = t.cards_with_group_of(4, 0);
        let other = t.cards_without(&four, 1);
        (HandType::FourOfAKind, concat_cards(four, other))
    } else if t.contains(3) {
        if t.contains(2) {
            let three = t.cards_with_group_of(3, 0);
            let two = t.cards_with_group_of(2, 0);
            (HandType::FullHouse, concat_cards(three, two))
        } else {
            let want: [u32; 2] = [3, 3];
            proof {
                assert(want@ == seq![3u32, 3u32]);
                assert forall|c: u32| #[trigger] occurrences(want@, c) < 256 by {
                    reveal_with_fuel(Seq::filter, 3);
                }
                assert forall|c: int| 0 <= c < 5 implies #[trigger] occurrences(want@, c as u32)
                    == (if c == 3 {
                    2int
                } else {
                    0int
                }) by {
                    reveal_with_fuel(Seq::filter, 3);
                }
            }
            if t.contains_multiple(&want) {
                let three = t.cards_with_group_of(3, 0);
                let other = take_cards(t.cards_with_group_of(3, 1), 2);
                (HandType::FullHouse, concat_cards(three, other))
            } else {
                assert(!(group_ranks(s, 3).len() >= 2)) by {
                    if group_ranks(s, 3).len() >= 2 {
                        assert forall|c: int| 0 <= c < 5 implies #[trigger] group_ranks(s, c).len()
                            >= occurrences(want@, c as u32) by {}
                    }
                }
                let three = t.cards_with_group_of(3, 0);
                let other = t.cards_without(&three, 2);
                (HandType::ThreeOfAKind, concat_cards(three, other))
            }
        }
    } else if t.contains(2) {
        let want: [u32; 2] = [2, 2];
        proof {
            assert(want@ == seq![2u32, 2u32]);
            assert forall|c: u32| #[trigger] occurrences(want@, c) < 256 by {
                reveal_with_fuel(Seq::filter, 3);
            }
            assert forall|c: int| 0 <= c < 5 implies #[trigger] occurrences(want@, c as u32) == (if c
                == 2 {
                2int
            } else {
                0int
            }) by {
                reveal_with_fuel(Seq::filter, 3);
            }
        }
        if t.contains_multiple(&want) {
            let first_two = t.cards_with_group_of(2, 0);
            let second_two = t.cards_with_group_of(2, 1);
            let two = concat_cards(first_two, second_two);
            let other = t.cards_without(&two, 1);
            (HandType::TwoPair, concat_cards(two, other))
        } else {
            assert(!(group_ranks(s, 2).len() >= 2)) by {
                if group_ranks(s, 2).len() >= 2 {
                    assert forall|c: int| 0 <= c < 5 implies #[trigger] group_ranks(s, c).len()
                        >= occurrences(want@, c as u32) by {}
                }
            }
            let two = t.cards_with_group_of(2, 0);
            let other = t.cards_without(&two, 3);
            (HandType::Pair, concat_cards(two, other))
        }
    } else {
        (HandType::HighCard, Vec::new())
    }
}

/// The suit found for a flush holds five cards or more.
pub proof fn lemma_first_flush_some(s: Seq<Card>, i: int, su: Suit)
    requires
        first_flush_suit(s, i) == Some(su),
    ensures
        s.filter(suit_is(su)).len() >= 5,
    decreases 4 - i,
{
    if 0 <= i < 4 && s.filter(suit_is(flush_suits()[i])).len() < 5 {
        lemma_first_flush_some(s, i + 1, su);
    }
}

/// The highest straight found is a straight, from a value in range.
pub proof fn lemma_highest_some(p: spec_fn(int) -> bool, top: int, t: int)
    requires
        highest_straight(p, top) == Some(t),
    ensures
        straight_at(p, t),
        3 <= t <= top,
    decreases top,
{
    if top >= 3 && !straight_at(p, top) {
        lemma_highest_some(p, top - 1, t);
    }
}

/// The first suit, in checking order, of which there are five cards or more.
fn flush_suit(t: &CardTracker) -> (r: Option<Suit>)
    ensures
        r == first_flush_suit(t@, 0),
{
    let mut i: usize = 0;
    while i < 4
        invariant
            i <= 4,
            first_flush_suit(t@, 0) == first_flush_suit(t@, i as int),
        decreases 4 - i,
    {
        let suit = if i == 0 {
            Suit::Clubs
        } else if i == 1 {
            Suit::Diamonds
        } else if i == 2 {
            Suit::Hearts
        } else {
            Suit::Spades
        };
        assert(suit == flush_suits()[i as int]);
        let filtered = t.filter_suit(&suit);
        if filtered.len() >= 5 {
            return Some(suit);
        }
        i = i + 1;
    }
    None
}

/// The five cards of a straight flush in `suit` from rank value `t` down.
fn straight_cards(t: u8, suit: Suit) -> (r: Vec<Card>)
    requires
        3 <= t <= 12,
    ensures
        values_of(r@) == straight_values(t as int),
{
    let mut v: Vec<Card> = Vec::new();
    if t != 3 {
        v.push(Card { rank: Rank::from_index(t), suit });
        v.push(Card { rank: Rank::from_index(t - 1), suit });
        v.push(Card { rank: Rank::from_index(t - 2), suit });
        v.push(Card { rank: Rank::from_index(t - 3), suit });
        v.push(Card { rank: Rank::from_index(t - 4), suit });
    } else {
        v.push(Card { rank: Rank::from_index(3), suit });
        v.push(Card { rank: Rank::from_index(2), suit });
        v.push(Card { rank: Rank::from_index(1), suit });
        v.push(Card { rank: Rank::from_index(0), suit });
        v.push(Card { rank: Rank::Ace, suit });
    }
    assert(values_of(v@) =~= straight_values(t as int));
    v
}

/// The first card of each rank of the straight from rank value `t` down.
fn straight_by_rank(tracker: &CardTracker, t: u8) -> (r: Vec<Card>)
    requires
        straight_at(value_in(present_values(tracker@)), t as int),
    ensures
        values_of(r@) == straight_values(t as int),
{
    let ghost s = tracker@;
    proof {
        lemma_present_values(s);
        assert forall|k: int| 0 <= k < 5 implies rank_count(
            s,
            rank_with_value(#[trigger] low_value(t - k)),
        ) > 0 by {
            assert(value_in(present_values(s))(low_value(t - k)));
        }
        assert(low_value(t - 0) == t);
        assert(low_value(t - 1) == t - 1);
        assert(low_value(t - 2) == t - 2);
        assert(low_value(t - 3) == t - 3);
        assert(low_value(t - 4) == if t == 3 { 12 } else { t - 4 });
    }
    let mut v: Vec<Card> = Vec::new();
    if t != 3 {
        v.push(tracker.get_with_rank(Rank::from_index(t)));
        v.push(tracker.get_with_rank(Rank::from_index(t - 1)));
        v.push(tracker.get_with_rank(Rank::from_index(t - 2)));
        v.push(tracker.get_with_rank(Rank::from_index(t - 3)));
        v.push(tracker.get_with_rank(Rank::from_index(t - 4)));
    } else {
        v.push(tracker.get_with_rank(Rank::from_index(3)));
        v.push(tracker.get_with_rank(Rank::from_index(2)));
        v.push(tracker.get_with_rank(Rank::from_index(1)));
        v.push(tracker.get_with_rank(Rank::from_index(0)));
        v.push(tracker.get_with_rank(Rank::from_index(12)));
    }
    assert(values_of(v@) =~= straight_values(t as int));
    v
}

#[verifier::rlimit(60)]
#[verifier::spinoff_prover]
/// Evaluates the best five-card hand among a player's cards and the board: its category,
/// and a score that orders hands by category, then by the ranks of the five cards.
pub fn eval(hand: &[Card], board: &Vec<Card>) -> (r: EvalResult)
    requires
        hand@.len() + board@.len() >= 5,
        ranks_at_most_four(hand@ + board@),
    ensures
        r.hand_type == evaluation(hand@ + board@).0,
        r.score == evaluation(hand@ + board@).1,
{
    let mut comb = vstd::slice::slice_to_vec(hand);
    let mut rest = vstd::slice::slice_to_vec(board.as_slice());
    comb.append(&mut rest);
    let ghost cards = hand@ + board@;
    assert(comb@ == cards);
    let sorted = sort_cards_desc(comb.as_slice());
    let ghost s = sorted@;
    proof {
        lemma_sort_counts(cards);
    }
    let tracker = CardTracker::from(sorted.as_slice());
    let (h0, c0) = group_hand(&tracker);
    proof {
        lemma_group_phase_len(s);
    }
    let ghost g = group_phase(s);
    let mut hand_type = h0;
    let mut best = c0;
    if hand_type.index() < 5 {
        match flush_suit(&tracker) {
            Some(suit) => {
                proof {
                    lemma_first_flush_some(s, 0, suit);
                }
                let filtered = tracker.filter_suit(&suit);
                let ranks = present_ranks(filtered.as_slice());
                proof {
                    lemma_present_values(filtered@);
                }
                match find_straight(&ranks) {
                    Some(t) => {
                        proof {
                            lemma_highest_some(value_in(ranks@), 12, t as int);
                        }
                        best = straight_cards(t, suit);
                        hand_type = if t == 12 {
                            HandType::RoyalFlush
                        } else {
                            HandType::StraightFlush
                        };
                    },
                    None => {
                        best = take_cards(filtered, 5);
                        hand_type = HandType::Flush;
                    },
                }
            },
            None => {},
        }
    }
    let ghost f = flush_phase(s, g.0, values_of(g.1));
    assert(hand_type == f.0 && values_of(best@) == f.1);
    assert(best@.len() == 5 || (hand_type == HandType::HighCard && best@.len() == 0));
    if hand_type.index() < 4 {
        let ranks = present_ranks(sorted.as_slice());
        proof {
            lemma_present_values(s);
        }
        match find_straight(&ranks) {
            Some(t) => {
                proof {
                    lemma_highest_some(value_in(ranks@), 12, t as int);
                }
                best = straight_by_rank(&tracker, t);
                hand_type = HandType::Straight;
            },
            None => {},
        }
    }
    let ghost st = straight_phase(s, f.0, f.1);
    assert(hand_type == st.0 && values_of(best@) == st.1);
    if hand_type == HandType::HighCard {
        let top = take_cards(vstd::slice::slice_to_vec(sorted.as_slice()), 5);
        assert(values_of(best@ + top@) =~= values_of(best@) + values_of(top@));
        best = concat_cards(best, top);
    }
    let ghost bh = best_hand(s);
    assert(hand_type == bh.0 && values_of(best@) == bh.1);
    assert(best@.len() == 5);
    let v0 = best[0].rank.index() as u64;
    let v1 = best[1].rank.index() as u64;
    let v2 = best[2].rank.index() as u64;
    let v3 = best[3].rank.index() as u64;
    let v4 = best[4].rank.index() as u64;
    let score = 15 * v4 + 225 * v3 + 3375 * v2 + 50625 * v1 + 759375 * v0 + 11390625 * (
    hand_type.index() as u64);
    EvalResult { score, hand_type }
}

/// The best hand is five cards whose rank values are 0 to 12.
pub proof fn lemma_best_hand_values(s: Seq<Card>)
    requires
        s.len() >= 5,
        ranks_at_most_four(s),
    ensures
        valid_values(best_hand(s).1),
{
    lemma_group_phase_len(s);
    let g = group_phase(s);
    let f = flush_phase(s, g.0, values_of(g.1));
    let st = straight_phase(s, f.0, f.1);
    if g.0.value() < 5 {
        if let Some(su) = first_flush_suit(s, 0) {
            lemma_first_flush_some(s, 0, su);
            let fs = s.filter(suit_is(su));
            if let Some(t) = highest_straight(value_in(present_values(fs)), 12) {
                lemma_highest_some(value_in(present_values(fs)), 12, t);
            }
        }
    }
    if f.0.value() < 4 {
        if let Some(t) = highest_straight(value_in(present_values(s)), 12) {
            lemma_highest_some(value_in(present_values(s)), 12, t);
        }
    }
    let bh = best_hand(s);
    assert forall|i: int| 0 <= i < 5 implies 0 <= #[trigger] bh.1[i] <= 12 by {
        if st.0 == HandType::HighCard {
            assert(st.1.len() == 0);
            assert(bh.1 == values_of(take_at_most(s, 5)));
            lemma_rank_value_roundtrip(take_at_most(s, 5)[i].rank, 0);
        } else if st.1 == values_of(g.1) {
            lemma_rank_value_roundtrip(g.1[i].rank, 0);
        } else if st.0 == HandType::Flush {
            let fs = s.filter(suit_is(first_flush_suit(s, 0)->0));
            lemma_rank_value_roundtrip(take_at_most(fs, 5)[i].rank, 0);
        }
    }
}

/// The score orders hands as poker does: by category first, then by the rank values of
/// the five cards, compared in order; equal scores mean equal categories and values.
pub proof fn lemma_score_order(h1: HandType, b1: Seq<int>, h2: HandType, b2: Seq<int>)
    requires
        valid_values(b1),
        valid_values(b2),
    ensures
        score_of(h1, b1) < score_of(h2, b2) <==> hand_less(h1, b1, h2, b2),
        score_of(h1, b1) == score_of(h2, b2) <==> (h1 == h2 && b1 == b2),
{
    reveal_with_fuel(ranks_less, 6);
    assert(h1.value() <= 9 && h2.value() <= 9);
    assert(0 <= b1[0] <= 12 && 0 <= b1[1] <= 12 && 0 <= b1[2] <= 12 && 0 <= b1[3] <= 12 && 0
        <= b1[4] <= 12);
    assert(0 <= b2[0] <= 12 && 0 <= b2[1] <= 12 && 0 <= b2[2] <= 12 && 0 <= b2[3] <= 12 && 0
        <= b2[4] <= 12);
    if h1 == h2 && b1[0] == b2[0] && b1[1] == b2[1] && b1[2] == b2[2] && b1[3] == b2[3] && b1[4]
        == b2[4] {
        assert(b1 =~= b2);
    }
}

/// Of two card sets that each make a hand, the one with the stronger category scores
/// higher, whatever the ranks; within one category the ranks of the five cards decide.
pub proof fn lemma_eval_order(a: Seq<Card>, b: Seq<Card>)
    requires
        a.len() >= 5,
        b.len() >= 5,
        ranks_at_most_four(a),
        ranks_at_most_four(b),
    ensures
        evaluation(a).0.value() > evaluation(b).0.value() ==> evaluation(a).1 > evaluation(b).1,
        evaluation(a).1 < evaluation(b).1 <==> hand_less(
            best_hand(sort_by_rank_desc(a)).0,
            best_hand(sort_by_rank_desc(a)).1,
            best_hand(sort_by_rank_desc(b)).0,
            best_hand(sort_by_rank_desc(b)).1,
        ),
{
    lemma_sort_counts(a);
    lemma_sort_counts(b);
    lemma_best_hand_values(sort_by_rank_desc(a));
    lemma_best_hand_values(sort_by_rank_desc(b));
    let ha = best_hand(sort_by_rank_desc(a));
    let hb = best_hand(sort_by_rank_desc(b));
    lemma_score_order(ha.0, ha.1, hb.0, hb.1);
    lemma_score_order(hb.0, hb.1, ha.0, ha.1);
}

/// A rank value that the present values of the cards hold is the rank of one of them.
pub proof fn lemma_present_card(x: Seq<Card>, v: int)
    requires
        value_in(present_values(x))(v),
    ensures
        exists|e: Card| #[trigger] x.contains(e) && e.rank == rank_with_value(v),
{
    lemma_filter_mem(desc_values(), value_present(x), v as u8);
    let r = rank_with_value(v as u8 as int);
    let f = x.filter(rank_is(r));
    assert(f.len() > 0);
    assert(f.contains(f[0]));
    lemma_filter_mem(x, rank_is(r), f[0]);
    assert(x.contains(f[0]));
}

/// The cards hold five cards of suit `su` whose ranks run down from value `t`, the Ace
/// standing below the Two in the run from the Five.
pub open spec fn suited_run(cards: Seq<Card>, su: Suit, t: int) -> bool {
    &&& 3 <= t <= 12
    &&& forall|k: int|
        0 <= k < 5 ==> #[trigger] cards.contains(Card { rank: rank_with_value(low_value(t - k)), suit: su })
}

/// A straight flush, or a royal flush, is five cards of one suit in a row of ranks: the
/// category is never given for a straight in mixed suits beside a flush. A royal flush is
/// the Ace, King, Queen, Jack and Ten of one suit.
pub proof fn lemma_straight_flush_one_suit(cards: Seq<Card>)
    ensures
        (evaluation(cards).0 == HandType::StraightFlush || evaluation(cards).0 == HandType::RoyalFlush)
            ==> exists|su: Suit, t: int| #[trigger] suited_run(cards, su, t),
        evaluation(cards).0 == HandType::RoyalFlush ==> exists|su: Suit| #[trigger] suited_run(cards, su, 12),
{
    let x = sort_by_rank_desc(cards);
    let g = group_phase(x);
    let f = flush_phase(x, g.0, values_of(g.1));
    let st = straight_phase(x, f.0, f.1);
    let h = best_hand(x).0;
    if h == HandType::StraightFlush || h == HandType::RoyalFlush {
        assert(st.0 == h);
        assert(f.0 == h);
        assert(g.0 != HandType::StraightFlush && g.0 != HandType::RoyalFlush);
        let su = first_flush_suit(x, 0)->0;
        assert(first_flush_suit(x, 0) == Some(su));
        let fs = x.filter(suit_is(su));
        let p = value_in(present_values(fs));
        let t = highest_straight(p, 12)->0;
        assert(highest_straight(p, 12) == Some(t));
        lemma_highest_some(p, 12, t);
        assert forall|k: int| 0 <= k < 5 implies #[trigger] cards.contains(
            Card { rank: rank_with_value(low_value(t - k)), suit: su },
        ) by {
            assert(p(low_value(t - k)));
            lemma_present_card(fs, low_value(t - k));
            let e = choose|e: Card| #[trigger] fs.contains(e) && e.rank == rank_with_value(low_value(t - k));
            lemma_filter_mem(x, suit_is(su), e);
            lemma_sort_members(cards, e);
            assert(e == Card { rank: rank_with_value(low_value(t - k)), suit: su });
        }
        if h == HandType::RoyalFlush {
            assert(t == 12);
            assert(suited_run(cards, su, 12));
        }
        assert(suited_run(cards, su, t));
    }
}

} // verus!
