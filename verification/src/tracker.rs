use vstd::prelude::*;

use crate::card::{Card, Rank, Suit, rank_with_value, lemma_rank_value_roundtrip};
use crate::seqs::lemma_multiset_filter_len;

verus! {

broadcast use Seq::lemma_filter_push, Seq::lemma_filter_len_push;

/// Holds of the cards of rank `r`.
pub open spec fn rank_is(r: Rank) -> spec_fn(Card) -> bool {
    |c: Card| c.rank == r
}

/// Holds of the cards of suit `s`.
pub open spec fn suit_is(s: Suit) -> spec_fn(Card) -> bool {
    |c: Card| c.suit == s
}

/// Holds of the cards that do not occur in `f`.
pub open spec fn not_among(f: Seq<Card>) -> spec_fn(Card) -> bool {
    |c: Card| !f.contains(c)
}

/// How many of the cards have rank `r`.
pub open spec fn rank_count(cards: Seq<Card>, r: Rank) -> nat {
    cards.filter(rank_is(r)).len()
}

/// No rank occurs more than four times among the cards.
pub open spec fn ranks_at_most_four(cards: Seq<Card>) -> bool {
    forall|r: Rank| #[trigger] rank_count(cards, r) <= 4
}

/// All thirteen ranks, the highest first.
pub open spec fn ranks_desc() -> Seq<Rank> {
    Seq::new(13, |k: int| rank_with_value(12 - k))
}

/// Holds of the ranks that occur exactly `c` times among the cards (`c` at least one).
pub open spec fn has_count(cards: Seq<Card>, c: int) -> spec_fn(Rank) -> bool {
    |r: Rank| c > 0 && rank_count(cards, r) == c
}

/// The ranks that occur exactly `c` times among the cards, the highest first
/// (empty for `c` of zero).
pub open spec fn group_ranks(cards: Seq<Card>, c: int) -> Seq<Rank> {
    ranks_desc().filter(has_count(cards, c))
}

/// The first `n` elements of `s`, or all of them where it has fewer.
pub open spec fn take_at_most<A>(s: Seq<A>, n: int) -> Seq<A> {
    if n <= s.len() {
        s.take(n)
    } else {
        s
    }
}

/// Holds of the numbers equal to `c`.
pub open spec fn equals_u32(c: u32) -> spec_fn(u32) -> bool {
    |x: u32| x == c
}

/// How many times `c` occurs in `s`.
pub open spec fn occurrences(s: Seq<u32>, c: u32) -> nat {
    s.filter(equals_u32(c)).len()
}

/// For each count from 0 to 4, at least as many ranks occur that often among the cards as
/// the count occurs in `counts`.
pub open spec fn meets_counts(cards: Seq<Card>, counts: Seq<u32>) -> bool {
    forall|c: int| 0 <= c < 5 ==> #[trigger] group_ranks(cards, c).len() >= occurrences(counts, c as u32)
}

/// Asking for one count is asking whether some rank occurs that often; asking for fewer
/// counts (each value no more often) is met wherever asking for more is; and the order in
/// which the counts are asked for does not matter.
pub proof fn lemma_meets_counts(cards: Seq<Card>, a: Seq<u32>, b: Seq<u32>, c: u32)
    ensures
        c < 5 ==> (meets_counts(cards, seq![c]) == (group_ranks(cards, c as int).len() > 0)),
        (forall|v: u32| #[trigger] occurrences(a, v) <= occurrences(b, v)) ==> (meets_counts(cards, b)
            ==> meets_counts(cards, a)),
        a.to_multiset() == b.to_multiset() ==> meets_counts(cards, a) == meets_counts(cards, b),
{
    let one = seq![c];
    assert forall|v: u32| #[trigger] occurrences(one, v) == (if v == c { 1nat } else { 0nat }) by {
        reveal_with_fuel(Seq::filter, 2);
        assert(one.drop_last() =~= Seq::<u32>::empty());
    }
    if c < 5 {
        if group_ranks(cards, c as int).len() > 0 {
            assert forall|w: int| 0 <= w < 5 implies #[trigger] group_ranks(cards, w).len() >= occurrences(
                one,
                w as u32,
            ) by {
                assert(occurrences(one, w as u32) == (if w as u32 == c { 1nat } else { 0nat }));
            }
        }
        if meets_counts(cards, one) {
            assert(group_ranks(cards, c as int).len() >= occurrences(one, c));
        }
    }
    if forall|v: u32| #[trigger] occurrences(a, v) <= occurrences(b, v) {
        if meets_counts(cards, b) {
            assert forall|w: int| 0 <= w < 5 implies #[trigger] group_ranks(cards, w).len() >= occurrences(
                a,
                w as u32,
            ) by {
                assert(occurrences(a, w as u32) <= occurrences(b, w as u32));
            }
        }
    }
    if a.to_multiset() == b.to_multiset() {
        assert forall|v: u32| #[trigger] occurrences(a, v) == occurrences(b, v) by {
            lemma_multiset_filter_len(a, b, equals_u32(v));
        }
        if meets_counts(cards, a) {
            assert forall|w: int| 0 <= w < 5 implies #[trigger] group_ranks(cards, w).len() >= occurrences(
                b,
                w as u32,
            ) by {
                assert(occurrences(a, w as u32) == occurrences(b, w as u32));
            }
        }
        if meets_counts(cards, b) {
            assert forall|w: int| 0 <= w < 5 implies #[trigger] group_ranks(cards, w).len() >= occurrences(
                a,
                w as u32,
            ) by {
                assert(occurrences(a, w as u32) == occurrences(b, w as u32));
            }
        }
    }
}

/// Cards of one hand, with their ranks sorted into groups by how often each occurs.
pub struct CardTracker {
    internal_cards: Vec<Card>,
    count_ranks: Vec<Vec<Rank>>,
}

impl View for CardTracker {
    type V = Seq<Card>;

    closed spec fn view(&self) -> Seq<Card> {
        self.internal_cards@
    }
}

/// Whether `c` occurs in `cards`.
pub fn contains_card(cards: &[Card], c: &Card) -> (r: bool)
    ensures
        r == cards@.contains(*c),
{
    let mut i: usize = 0;
    while i < cards.len()
        invariant
            i <= cards@.len(),
            forall|j: int| 0 <= j < i ==> cards@[j] != *c,
        decreases cards@.len() - i,
    {
        if cards[i] == *c {
            return true;
        }
        i = i + 1;
    }
    false
}

/// How many of the cards have each rank, indexed by the rank's value.
pub fn rank_counts(cards: &[Card]) -> (counts: Vec<usize>)
    ensures
        counts@.len() == 13,
        forall|w: int|
            0 <= w < 13 ==> #[trigger] counts@[w] == rank_count(cards@, rank_with_value(w)),
{
    let mut counts: Vec<usize> = Vec::new();
    let mut v: usize = 0;
    while v < 13
        invariant
            v <= 13,
            counts@.len() == v,
            forall|w: int| 0 <= w < v ==> counts@[w] == 0,
        decreases 13 - v,
    {
        counts.push(0);
        v = v + 1;
    }
    let mut i: usize = 0;
    while i < cards.len()
        invariant
            i <= cards@.len(),
            counts@.len() == 13,
            forall|w: int|
                0 <= w < 13 ==> #[trigger] counts@[w] == rank_count(
                    cards@.take(i as int),
                    rank_with_value(w),
                ),
        decreases cards@.len() - i,
    {
        let ghost before = counts@;
        let k = cards[i].rank.index() as usize;
        assert(cards@.take(i + 1) == cards@.take(i as int).push(cards@[i as int]));
        proof {
            cards@.lemma_filter_take_len(rank_is(rank_with_value(k as int)), i as int);
            lemma_rank_value_roundtrip(cards@[i as int].rank, k as int);
        }
        counts.set(k, counts[k] + 1);
        i = i + 1;
        assert forall|w: int| 0 <= w < 13 implies #[trigger] counts@[w] == rank_count(
            cards@.take(i as int),
            rank_with_value(w),
        ) by {
            lemma_rank_value_roundtrip(cards@[i - 1].rank, w);
            assert(before[w] == rank_count(cards@.take(i - 1), rank_with_value(w)));
        }
    }
    assert(cards@.take(cards@.len() as int) == cards@);
    counts
}

/// Whether no rank occurs more than four times among the cards.
pub fn ranks_fit(cards: &[Card]) -> (b: bool)
    ensures
        b == ranks_at_most_four(cards@),
{
    let counts = rank_counts(cards);
    let mut w: usize = 0;
    while w < 13
        invariant
            w <= 13,
            counts@.len() == 13,
            forall|x: int|
                0 <= x < 13 ==> #[trigger] counts@[x] == rank_count(cards@, rank_with_value(x)),
            forall|x: int| 0 <= x < w ==> #[trigger] counts@[x] <= 4,
        decreases 13 - w,
    {
        if counts[w] > 4 {
            assert(!ranks_at_most_four(cards@)) by {
                assert(rank_count(cards@, rank_with_value(w as int)) > 4);
            }
            return false;
        }
        w = w + 1;
    }
    assert forall|r: Rank| #[trigger] rank_count(cards@, r) <= 4 by {
        lemma_rank_value_roundtrip(r, 0);
        assert(counts@[r.value() as int] <= 4);
    }
    true
}

impl CardTracker {
    #[verifier::type_invariant]
    closed spec fn inv(self) -> bool {
        &&& self.count_ranks@.len() == 5
        &&& forall|c: int|
            0 <= c < 5 ==> #[trigger] self.count_ranks@[c]@ == group_ranks(self.internal_cards@, c)
        &&& ranks_at_most_four(self.internal_cards@)
    }

    /// Counts the ranks of the cards and lists, for each count from one to four,
    /// the ranks that occur that often, highest first.
    pub fn from(cards: &[Card]) -> (t: CardTracker)
        requires
            ranks_at_most_four(cards@),
        ensures
            t@ == cards@,
    {
        let counts = rank_counts(cards);
        let mut count_ranks: Vec<Vec<Rank>> = Vec::new();
        let mut c: usize = 0;
        while c < 5
            invariant
                c <= 5,
                count_ranks@.len() == c,
                counts@.len() == 13,
                forall|w: int|
                    0 <= w < 13 ==> #[trigger] counts@[w] == rank_count(
                        cards@,
                        rank_with_value(w),
                    ),
                forall|d: int| 0 <= d < c ==> #[trigger] count_ranks@[d]@ == group_ranks(cards@, d),
            decreases 5 - c,
        {
            let mut group: Vec<Rank> = Vec::new();
            let mut k: usize = 0;
            while k < 13
                invariant
                    k <= 13,
                    c < 5,
                    counts@.len() == 13,
                    forall|w: int|
                        0 <= w < 13 ==> #[trigger] counts@[w] == rank_count(
                            cards@,
                            rank_with_value(w),
                        ),
                    group@ == ranks_desc().take(k as int).filter(has_count(cards@, c as int)),
                decreases 13 - k,
            {
                let r = Rank::from_index((12 - k) as u8);
                assert(ranks_desc().take(k + 1) == ranks_desc().take(k as int).push(r));
                if c > 0 && counts[12 - k] == c {
                    group.push(r);
                }
                k = k + 1;
            }
            assert(ranks_desc().take(13) == ranks_desc());
            count_ranks.push(group);
            c = c + 1;
        }
        CardTracker { internal_cards: vstd::slice::slice_to_vec(cards), count_ranks }
    }

    /// Whether some rank occurs exactly `count` times.
    pub fn contains(&self, count: u32) -> (r: bool)
        requires
            count < 5,
        ensures
            r == (group_ranks(self@, count as int).len() > 0),
    {
        proof {
            use_type_invariant(self);
        }
        self.count_ranks[count as usize].len() != 0
    }

    /// Whether, for each count, there are at least as many ranks occurring that often
    /// as `counts` asks for.
    pub fn contains_multiple(&self, counts: &[u32]) -> (r: bool)
        requires
            forall|i: int| 0 <= i < counts@.len() ==> #[trigger] counts@[i] < 5,
            forall|c: u32| #[trigger] occurrences(counts@, c) < 256,
        ensures
            r == meets_counts(self@, counts@),
    {
        proof {
            use_type_invariant(self);
        }
        let mut needed: Vec<u8> = Vec::new();
        let mut v: usize = 0;
        while v < 5
            invariant
                v <= 5,
                needed@.len() == v,
                forall|w: int| 0 <= w < v ==> needed@[w] == 0,
            decreases 5 - v,
        {
            needed.push(0);
            v = v + 1;
        }
        let mut i: usize = 0;
        while i < counts.len()
            invariant
                i <= counts@.len(),
                needed@.len() == 5,
                forall|j: int| 0 <= j < counts@.len() ==> #[trigger] counts@[j] < 5,
                forall|c: u32| #[trigger] occurrences(counts@, c) < 256,
                forall|w: int|
                    0 <= w < 5 ==> #[trigger] needed@[w] == occurrences(
                        counts@.take(i as int),
                        w as u32,
                    ),
            decreases counts@.len() - i,
        {
            let ghost before = needed@;
            let c = counts[i] as usize;
            assert(counts@.take(i + 1) == counts@.take(i as int).push(counts@[i as int]));
            proof {
                counts@.lemma_filter_take_len(equals_u32(c as u32), i + 1);
                assert(occurrences(counts@, c as u32) < 256);
            }
            needed.set(c, needed[c] + 1);
            i = i + 1;
            assert forall|w: int| 0 <= w < 5 implies #[trigger] needed@[w] == occurrences(
                counts@.take(i as int),
                w as u32,
            ) by {
                assert(before[w] == occurrences(counts@.take(i - 1), w as u32));
            }
        }
        assert(counts@.take(counts@.len() as int) == counts@);
        let mut k: usize = 0;
        while k < 5
            invariant
                k <= 5,
                needed@.len() == 5,
                self.count_ranks@.len() == 5,
                forall|c: int|
                    0 <= c < 5 ==> #[trigger] self.count_ranks@[c]@ == group_ranks(
                        self.internal_cards@,
                        c,
                    ),
                forall|w: int|
                    0 <= w < 5 ==> #[trigger] needed@[w] == occurrences(counts@, w as u32),
                forall|c: int|
                    0 <= c < k ==> #[trigger] group_ranks(self@, c).len() >= occurrences(
                        counts@,
                        c as u32,
                    ),
            decreases 5 - k,
        {
            if self.count_ranks[k].len() < needed[k] as usize {
                assert(!(group_ranks(self@, k as int).len() >= occurrences(counts@, k as u32)));
                return false;
            }
            k = k + 1;
        }
        true
    }

    /// The cards whose rank is the `nth` highest among the ranks occurring `count` times.
    pub fn cards_with_group_of(&self, count: u32, nth: usize) -> (r: Vec<Card>)
        requires
            count < 5,
            nth < group_ranks(self@, count as int).len(),
        ensures
            r@ == self@.filter(rank_is(group_ranks(self@, count as int)[nth as int])),
    {
        proof {
            use_type_invariant(self);
        }
        let rank = self.count_ranks[count as usize][nth];
        let mut out: Vec<Card> = Vec::new();
        let mut i: usize = 0;
        while i < self.internal_cards.len()
            invariant
                i <= self@.len(),
                self@ == self.internal_cards@,
                out@ == self@.take(i as int).filter(rank_is(rank)),
            decreases self@.len() - i,
        {
            assert(self@.take(i + 1) == self@.take(i as int).push(self@[i as int]));
            if self.internal_cards[i].rank == rank {
                out.push(self.internal_cards[i]);
            }
            i = i + 1;
        }
        assert(self@.take(self@.len() as int) == self@);
        out
    }

    /// The first `take` cards, in order, that do not occur in `filter`.
    pub fn cards_without(&self, filter: &[Card], take: usize) -> (r: Vec<Card>)
        ensures
            r@ == take_at_most(self@.filter(not_among(filter@)), take as int),
    {
        let mut out: Vec<Card> = Vec::new();
        let mut i: usize = 0;
        while i < self.internal_cards.len() && out.len() < take
            invariant
                i <= self@.len(),
                self@ == self.internal_cards@,
                out@ == self@.take(i as int).filter(not_among(filter@)),
                out@.len() <= take,
            decreases self@.len() - i,
        {
            assert(self@.take(i + 1) == self@.take(i as int).push(self@[i as int]));
            if !contains_card(filter, &self.internal_cards[i]) {
                out.push(self.internal_cards[i]);
            }
            i = i + 1;
        }
        proof {
            let all = self@.filter(not_among(filter@));
            if i == self@.len() {
                assert(self@.take(i as int) == self@);
            } else {
                self@.take(i as int).lemma_filter_monotone(self@, not_among(filter@));
                assert(out@ == all.take(take as int));
            }
        }
        out
    }

    /// The cards of the given suit, in order.
    pub fn filter_suit(&self, suit: &Suit) -> (r: Vec<Card>)
        ensures
            r@ == self@.filter(suit_is(*suit)),
    {
        let mut out: Vec<Card> = Vec::new();
        let mut i: usize = 0;
        while i < self.internal_cards.len()
            invariant
                i <= self@.len(),
                self@ == self.internal_cards@,
                out@ == self@.take(i as int).filter(suit_is(*suit)),
            decreases self@.len() - i,
        {
            assert(self@.take(i + 1) == self@.take(i as int).push(self@[i as int]));
            if self.internal_cards[i].suit == *suit {
                out.push(self.internal_cards[i]);
            }
            i = i + 1;
        }
        assert(self@.take(self@.len() as int) == self@);
        out
    }

    /// The first card of the given rank.
    pub fn get_with_rank(&self, rank: Rank) -> (r: Card)
        requires
            rank_count(self@, rank) > 0,
        ensures
            r == self@.filter(rank_is(rank))[0],
            r.rank == rank,
    {
        let mut i: usize = 0;
        while i < self.internal_cards.len()
            invariant
                i <= self@.len(),
                self@ == self.internal_cards@,
                self@.take(i as int).filter(rank_is(rank)).len() == 0,
                rank_count(self@, rank) > 0,
            decreases self@.len() - i,
        {
            assert(self@.take(i + 1) == self@.take(i as int).push(self@[i as int]));
            if self.internal_cards[i].rank == rank {
                proof {
                    self@.take(i + 1).lemma_filter_monotone(self@, rank_is(rank));
                    assert(self@.take(i + 1).filter(rank_is(rank)) =~= seq![self@[i as int]]);
                    assert(self@.filter(rank_is(rank))[0] == self@.take(i + 1).filter(
                        rank_is(rank),
                    )[0]);
                }
                return self.internal_cards[i];
            }
            i = i + 1;
        }
        assert(self@.take(self@.len() as int) == self@);
        self.internal_cards[0]
    }
}

} // verus!
