use vstd::prelude::*;

use crate::card::{Card, Rank, rank_with_value, lemma_rank_value_roundtrip};
use crate::seqs::{strictly_desc, lemma_filter_desc};
use crate::tracker::{rank_count, rank_is};

verus! {

broadcast use Seq::lemma_filter_push;

/// The rank value that `v` stands for in a run of ranks: one below the Two is the Ace.
pub open spec fn low_value(v: int) -> int {
    if v == -1 {
        12
    } else {
        v
    }
}

/// Five ranks in a row, from `t` down, are all present (the Ace may end a run from the Five).
pub open spec fn straight_at(present: spec_fn(int) -> bool, t: int) -> bool {
    &&& 3 <= t <= 12
    &&& forall|k: int| 0 <= k < 5 ==> #[trigger] present(low_value(t - k))
}

/// The highest rank value, at most `t`, from which five present ranks run down.
pub open spec fn highest_straight(present: spec_fn(int) -> bool, t: int) -> Option<int>
    decreases t,
{
    if t < 3 {
        None
    } else if straight_at(present, t) {
        Some(t)
    } else {
        highest_straight(present, t - 1)
    }
}

/// Holds of the rank values (below 13) that occur in `vals`.
pub open spec fn value_in(vals: Seq<u8>) -> spec_fn(int) -> bool {
    |v: int| 0 <= v < 13 && vals.contains(v as u8)
}

/// All rank values, the highest first.
pub open spec fn desc_values() -> Seq<u8> {
    Seq::new(13, |k: int| (12 - k) as u8)
}

/// Holds of the rank values that some card has.
pub open spec fn value_present(cards: Seq<Card>) -> spec_fn(u8) -> bool {
    |v: u8| rank_count(cards, rank_with_value(v as int)) > 0
}

/// The rank values that occur among the cards, each once, the highest first.
pub open spec fn present_values(cards: Seq<Card>) -> Seq<u8> {
    desc_values().filter(value_present(cards))
}

/// The five rank values of the straight from `t` down, the Ace last in the run from the Five.
pub open spec fn straight_values(t: int) -> Seq<int> {
    if t == 3 {
        seq![3, 2, 1, 0, 12]
    } else {
        seq![t, t - 1, t - 2, t - 3, t - 4]
    }
}

proof fn lemma_highest_found(p: spec_fn(int) -> bool, top: int, t0: int)
    requires
        3 <= t0 <= top,
        straight_at(p, t0),
        forall|t: int| t0 < t <= top ==> !#[trigger] straight_at(p, t),
    ensures
        highest_straight(p, top) == Some(t0),
    decreases top,
{
    if top > t0 {
        assert(!straight_at(p, top));
        lemma_highest_found(p, top - 1, t0);
    }
}

proof fn lemma_highest_none(p: spec_fn(int) -> bool, top: int)
    requires
        forall|t: int| t <= top ==> !#[trigger] straight_at(p, t),
    ensures
        highest_straight(p, top) is None,
    decreases top,
{
    if top >= 3 {
        assert(!straight_at(p, top));
        lemma_highest_none(p, top - 1);
    }
}

/// In a strictly decreasing sequence, values just below `v[j]` that are all present
/// stand right after it.
proof fn lemma_consecutive(v: Seq<u8>, j: int, m: int)
    requires
        strictly_desc(v),
        0 <= j < v.len(),
        0 <= m <= v[j],
        forall|k: int| 1 <= k <= m ==> #[trigger] v.contains((v[j] - k) as u8),
    ensures
        j + m < v.len(),
        forall|i: int| j <= i <= j + m ==> #[trigger] v[i] == v[j] - (i - j),
    decreases m,
{
    if m > 0 {
        let m1 = m - 1;
        assert forall|k: int| 1 <= k <= m1 implies #[trigger] v.contains((v[j] - k) as u8) by {
            assert(v.contains((v[j] - k) as u8));
        }
        lemma_consecutive(v, j, m1);
        let last = j + m1;
        assert(v[last] == v[j] - m1);
        assert(v.contains((v[j] - m) as u8));
        let i = choose|i: int| 0 <= i < v.len() && v[i] == (v[j] - m) as u8;
        if i <= last {
            assert(v[i] >= v[last]) by {
                if i < last {
                    assert(v[i] > v[last]);
                }
            }
        }
        assert(i >= j + m);
        let next = j + m;
        if next < i {
            assert(v[next] > v[i]);
        }
        assert(v[next] < v[last]);
    }
}

proof fn lemma_desc_bound(v: Seq<u8>, k: int)
    requires
        strictly_desc(v),
        0 <= k < v.len(),
        forall|i: int| 0 <= i < v.len() ==> #[trigger] v[i] < 13,
    ensures
        v[k] + k <= 12,
    decreases k,
{
    if k > 0 {
        lemma_desc_bound(v, k - 1);
        assert(v[k - 1] > v[k]);
    }
}

/// Finds the highest straight among strictly decreasing rank values: it walks the runs
/// of consecutive values from the top, counting the Ace after a run that ends at the Two.
pub fn find_straight(ranks: &Vec<u8>) -> (r: Option<u8>)
    requires
        ranks@.len() > 0,
        strictly_desc(ranks@),
        forall|i: int| 0 <= i < ranks@.len() ==> #[trigger] ranks@[i] < 13,
    ensures
        match r {
            Some(t) => highest_straight(value_in(ranks@), 12) == Some(t as int),
            None => highest_straight(value_in(ranks@), 12) is None,
        },
{
    let ghost p = value_in(ranks@);
    let n = ranks.len();
    let mut l: usize = 0;
    proof {
        lemma_desc_bound(ranks@, n - 1);
        assert forall|t: int| ranks@[0] < t <= 12 implies !#[trigger] straight_at(p, t) by {
            if straight_at(p, t) {
                assert(p(low_value(t - 0)));
                let j = choose|j: int| 0 <= j < n && ranks@[j] == t as u8;
                if j > 0 {
                    assert(ranks@[0] > ranks@[j]);
                }
            }
        }
    }
    while l < n
        invariant
            n == ranks@.len(),
            0 < n <= 13,
            l <= n + 1,
            p == value_in(ranks@),
            strictly_desc(ranks@),
            forall|i: int| 0 <= i < ranks@.len() ==> #[trigger] ranks@[i] < 13,
            0 < l < n ==> ranks@[l - 1] != ranks@[l as int] + 1,
            forall|t: int|
                (if l < n {
                    ranks@[l as int] as int
                } else {
                    -1
                }) < t <= 12 ==> !#[trigger] straight_at(p, t),
        decreases n + 1 - l,
    {
        let mut r = l;
        while r < n - 1 && ranks[r] - ranks[r + 1] == 1
            invariant
                n == ranks@.len(),
                l <= r < n,
                strictly_desc(ranks@),
                forall|k: int| l <= k <= r ==> #[trigger] ranks@[k] == ranks@[l as int] - (k - l),
            decreases n - r,
        {
            r = r + 1;
        }
        let ghost run_end = r;
        assert(r == n - 1 || ranks@[r as int] - ranks@[r + 1] != 1);
        if ranks[r] == 0 && ranks[0] == 12 {
            r = r + 1;
        }
        if r - l + 1 >= 5 {
            let t = ranks[l];
            proof {
                assert forall|k: int| 0 <= k < 5 implies #[trigger] p(low_value(t - k)) by {
                    if run_end - l + 1 >= 5 {
                        assert(ranks@[l + k] == t - k);
                        assert(ranks@.contains(ranks@[l + k]));
                    } else {
                        assert(ranks@[run_end as int] == 0);
                        assert(t == 3);
                        if k < 4 {
                            assert(ranks@[l + k] == t - k);
                            assert(ranks@.contains(ranks@[l + k]));
                        } else {
                            assert(ranks@.contains(ranks@[0]));
                        }
                    }
                }
                if run_end - l + 1 >= 5 {
                    assert(ranks@[l + 4] == t - 4);
                }
                lemma_highest_found(p, 12, t as int);
            }
            return Some(t);
        }
        let ghost new_l = r + 1;
        proof {
            assert forall|t: int|
                (if new_l < n {
                    ranks@[new_l] as int
                } else {
                    -1
                }) < t <= 12 implies !#[trigger] straight_at(p, t) by {
                if t <= ranks@[l as int] && straight_at(p, t) {
                    assert(p(low_value(t - 0)));
                    let j = choose|j: int| 0 <= j < n && ranks@[j] == t as u8;
                    if j < l {
                        assert(ranks@[j] > ranks@[l as int]);
                    }
                    if j > run_end {
                        assert(ranks@[j] <= ranks@[run_end + 1]) by {
                            if j > run_end + 1 {
                                assert(ranks@[run_end + 1] > ranks@[j]);
                            }
                        }
                        assert(new_l == run_end + 1);
                    }
                    assert(l <= j <= run_end);
                    if t >= 4 {
                        assert forall|k: int| 1 <= k <= 4 implies #[trigger] ranks@.contains(
                            (ranks@[j] - k) as u8,
                        ) by {
                            assert(p(low_value(t - k)));
                        }
                        lemma_consecutive(ranks@, j, 4);
                        if run_end < j + 4 {
                            let e = run_end as int;
                            let e1 = e + 1;
                            assert(ranks@[e] == t - (e - j));
                            assert(ranks@[e1] == t - (e1 - j));
                        }
                    } else {
                        assert forall|k: int| 1 <= k <= 3 implies #[trigger] ranks@.contains(
                            (ranks@[j] - k) as u8,
                        ) by {
                            assert(p(low_value(t - k)));
                        }
                        lemma_consecutive(ranks@, j, 3);
                        let j3 = j + 3;
                        assert(ranks@[j3] == 0);
                        if run_end < j3 {
                            let e = run_end as int;
                            let e1 = e + 1;
                            assert(ranks@[e] == t - (e - j));
                            assert(ranks@[e1] == t - (e1 - j));
                        }
                        if j3 < n - 1 {
                            assert(ranks@[j3] > ranks@[j3 + 1]);
                        }
                        assert(p(low_value(t - 4)));
                        let a = choose|a: int| 0 <= a < n && ranks@[a] == 12u8;
                        if a > 0 {
                            assert(ranks@[0] > ranks@[a]);
                        }
                    }
                }
            }
        }
        l = r + 1;
    }
    proof {
        lemma_highest_none(p, 12);
    }
    None
}

/// Whether some card has the given rank.
pub fn has_rank(cards: &[Card], rank: Rank) -> (b: bool)
    ensures
        b == (rank_count(cards@, rank) > 0),
{
    let mut i: usize = 0;
    while i < cards.len()
        invariant
            i <= cards@.len(),
            cards@.take(i as int).filter(rank_is(rank)).len() == 0,
        decreases cards@.len() - i,
    {
        assert(cards@.take(i + 1) == cards@.take(i as int).push(cards@[i as int]));
        if cards[i].rank == rank {
            proof {
                cards@.lemma_filter_take_len(rank_is(rank), i + 1);
            }
            return true;
        }
        i = i + 1;
    }
    assert(cards@.take(cards@.len() as int) == cards@);
    false
}

pub proof fn lemma_desc_values_sorted()
    ensures
        strictly_desc(desc_values()),
        forall|i: int| 0 <= i < 13 ==> #[trigger] desc_values()[i] == 12 - i,
{
}

/// The present rank values are strictly decreasing, below 13, and name exactly the ranks
/// that occur.
pub proof fn lemma_present_values(cards: Seq<Card>)
    ensures
        strictly_desc(present_values(cards)),
        forall|i: int|
            0 <= i < present_values(cards).len() ==> #[trigger] present_values(cards)[i] < 13,
        forall|v: int|
            0 <= v < 13 ==> (#[trigger] present_values(cards).contains(v as u8) <==> rank_count(
                cards,
                rank_with_value(v),
            ) > 0),
        cards.len() > 0 ==> present_values(cards).len() > 0,
{
    lemma_desc_values_sorted();
    lemma_filter_desc(desc_values(), value_present(cards));
    let pv = present_values(cards);
    assert forall|i: int| 0 <= i < pv.len() implies #[trigger] pv[i] < 13 by {
        assert(pv.contains(pv[i]));
        crate::seqs::lemma_filter_mem(desc_values(), value_present(cards), pv[i]);
    }
    assert forall|v: int| 0 <= v < 13 implies (#[trigger] pv.contains(v as u8) <==> rank_count(
        cards,
        rank_with_value(v),
    ) > 0) by {
        crate::seqs::lemma_filter_mem(desc_values(), value_present(cards), v as u8);
        assert(desc_values()[12 - v] == v as u8);
    }
    if cards.len() > 0 {
        let c = cards[0];
        lemma_rank_value_roundtrip(c.rank, 0);
        let v = c.rank.value() as int;
        assert(cards.filter(rank_is(c.rank)).contains(c)) by {
            cards.lemma_filter_contains(rank_is(c.rank), 0);
        }
        assert(pv.contains(v as u8));
    }
}

/// The rank values that occur among the cards, each once, the highest first.
pub fn present_ranks(cards: &[Card]) -> (r: Vec<u8>)
    ensures
        r@ == present_values(cards@),
{
    let mut out: Vec<u8> = Vec::new();
    let mut k: usize = 0;
    while k < 13
        invariant
            k <= 13,
            out@ == desc_values().take(k as int).filter(value_present(cards@)),
        decreases 13 - k,
    {
        let v = (12 - k) as u8;
        assert(desc_values().take(k + 1) == desc_values().take(k as int).push(v));
        if has_rank(cards, Rank::from_index(v)) {
            out.push(v);
        }
        k = k + 1;
    }
    assert(desc_values().take(13) == desc_values());
    out
}

} // verus!
