use vstd::prelude::*;
use std::collections::HashMap;
use vstd::std_specs::iter::IteratorSpec;

use crate::card::{Card, card_number, encode_card};
use crate::hand::EvalResult;
use crate::seqs::{lemma_filter_len_mono, lemma_filter_mem, lemma_filter_no_dup};

verus! {

broadcast use Seq::lemma_filter_push;

/// The 6-bit slot `i` of a packed board.
pub open spec fn slot(b: u64, i: int) -> u64 {
    (b >> ((6 * i) as u64)) & 63
}

/// One of the five slots of the packed board holds card number `e`.
pub open spec fn board_has(b: u64, e: u64) -> bool {
    exists|i: int| 0 <= i < 5 && #[trigger] slot(b, i) == e
}

/// Holds of the packed boards that hold every card number of `filter`.
pub open spec fn matches_filter(filter: Seq<u64>) -> spec_fn(u64) -> bool {
    |b: u64| forall|j: int| 0 <= j < filter.len() ==> board_has(b, #[trigger] filter[j])
}

/// The numbers of the cards, in order.
pub open spec fn card_numbers(cards: Seq<Card>) -> Seq<u64> {
    cards.map_values(|c: Card| card_number(c) as u64)
}

/// The boards of the table that hold every card of the filter.
pub open spec fn matching_boards(t: Map<u64, Map<u8, EvalResult>>, filter: Seq<u64>) -> Set<u64> {
    t.dom().filter(matches_filter(filter))
}

/// Player `p` is in the results and no player scores more.
pub open spec fn is_winner(r: Map<u8, EvalResult>, p: u8) -> bool {
    r.contains_key(p) && forall|q: u8| #[trigger] r.contains_key(q) ==> r[q].score <= r[p].score
}

/// The players with the highest score.
pub open spec fn winners(r: Map<u8, EvalResult>) -> Set<u8> {
    r.dom().filter(|p: u8| is_winner(r, p))
}

/// Holds of the boards on which `p` alone wins.
pub open spec fn won_alone(t: Map<u64, Map<u8, EvalResult>>, p: u8) -> spec_fn(u64) -> bool {
    |b: u64| winners(t[b]) == set![p]
}

/// Holds of the boards on which exactly the players `w` share the win.
pub open spec fn tied_by(t: Map<u64, Map<u8, EvalResult>>, w: Set<u8>) -> spec_fn(u64) -> bool {
    |b: u64| winners(t[b]) == w
}

/// Holds of the boards on which player `p` has a result.
pub open spec fn played_by(t: Map<u64, Map<u8, EvalResult>>, p: u8) -> spec_fn(u64) -> bool {
    |b: u64| t[b].contains_key(p)
}

/// Holds of the boards on which player `p` makes a hand of category value `h`.
pub open spec fn played_as(t: Map<u64, Map<u8, EvalResult>>, p: u8, h: u8) -> spec_fn(u64) -> bool {
    |b: u64| t[b].contains_key(p) && t[b][p].hand_type.value() == h
}

/// A sequence of bytes whose elements strictly increase.
pub open spec fn strictly_asc(v: Seq<u8>) -> bool {
    forall|i: int, j: int| 0 <= i < j < v.len() ==> v[i] < v[j]
}

/// For each board, encoded as by `encode_board`, the result of each player.
pub struct ResultsManager {
    results: HashMap<u64, HashMap<u8, EvalResult>>,
}

impl View for ResultsManager {
    type V = Map<u64, Map<u8, EvalResult>>;

    closed spec fn view(&self) -> Map<u64, Map<u8, EvalResult>> {
        Map::new(|b: u64| self.results@.contains_key(b), |b: u64| self.results@[b]@)
    }
}

/// Counts over the boards that hold the cards of a partial board.
#[derive(Clone, Debug)]
pub struct AggResult {
    /// For each player, how many boards give each hand category (keyed by its value).
    pub hand_counter: HashMap<u8, HashMap<u8, u64>>,
    /// For each player, how many boards that player wins alone.
    pub eq_counter: HashMap<u8, u64>,
    /// How many boards hold the cards.
    pub count: u64,
    /// For each group of players that share a win, in increasing order, on how many boards.
    pub ties: Vec<(Vec<u8>, u64)>,
}

/// Finitely many boards are stored, and each has results for finitely many players, and
/// for at least one.
pub open spec fn all_boards_played(t: Map<u64, Map<u8, EvalResult>>) -> bool {
    &&& t.dom().finite()
    &&& forall|b: u64| #[trigger] t.contains_key(b) ==> t[b].dom().finite() && t[b].dom().len() > 0
}

/// The table after recording `result` for `key` on `board`, as `ResultsManager::insert` does.
pub open spec fn recorded(
    t: Map<u64, Map<u8, EvalResult>>,
    board: u64,
    key: u8,
    result: EvalResult,
) -> Map<u64, Map<u8, EvalResult>> {
    t.insert(
        board,
        if t.contains_key(board) {
            t[board].insert(key, result)
        } else {
            Map::<u8, EvalResult>::empty().insert(key, result)
        },
    )
}

/// Recording a result keeps finitely many boards, each played by finitely many players,
/// and by at least one; the empty table has no board.
pub proof fn lemma_recorded_played(
    t: Map<u64, Map<u8, EvalResult>>,
    board: u64,
    key: u8,
    result: EvalResult,
)
    requires
        all_boards_played(t),
    ensures
        all_boards_played(recorded(t, board, key, result)),
        all_boards_played(Map::<u64, Map<u8, EvalResult>>::empty()),
{
    let t2 = recorded(t, board, key, result);
    assert(t2.dom() == t.dom().insert(board));
    assert(Map::<u64, Map<u8, EvalResult>>::empty().dom() =~= Set::<u64>::empty());
    assert forall|b: u64| #[trigger] t2.contains_key(b) implies t2[b].dom().finite() && t2[b].dom().len()
        > 0 by {
        if b == board {
            assert(t2[b].dom().contains(key));
            if t.contains_key(board) {
                assert(t2[b].dom() == t[board].dom().insert(key));
            } else {
                assert(t2[b].dom() =~= Set::<u8>::empty().insert(key));
            }
        }
    }
}

/// A recorded result reads back under its board and key, and every other entry stays as
/// it was.
pub proof fn lemma_recorded_reads_back(
    t: Map<u64, Map<u8, EvalResult>>,
    board: u64,
    key: u8,
    result: EvalResult,
    b: u64,
    k: u8,
)
    ensures
        recorded(t, board, key, result).contains_key(board),
        recorded(t, board, key, result)[board].contains_key(key),
        recorded(t, board, key, result)[board][key] == result,
        (b != board || k != key) ==> {
            &&& (recorded(t, board, key, result).contains_key(b) && recorded(
                t,
                board,
                key,
                result,
            )[b].contains_key(k)) <==> (t.contains_key(b) && t[b].contains_key(k))
            &&& t.contains_key(b) && t[b].contains_key(k) ==> recorded(t, board, key, result)[b][k]
                == t[b][k]
        },
{
}

/// With no cards to hold, every stored board matches; each further card can only narrow
/// the boards that match.
pub proof fn lemma_matching_narrows(t: Map<u64, Map<u8, EvalResult>>, filter: Seq<u64>, e: u64)
    ensures
        matching_boards(t, Seq::empty()) == t.dom(),
        matching_boards(t, filter.push(e)).subset_of(matching_boards(t, filter)),
{
    assert(matching_boards(t, Seq::empty()) =~= t.dom());
    assert forall|b: u64| #[trigger] matching_boards(t, filter.push(e)).contains(b) implies matching_boards(
        t,
        filter,
    ).contains(b) by {
        assert forall|j: int| 0 <= j < filter.len() implies board_has(b, #[trigger] filter[j]) by {
            assert(filter.push(e)[j] == filter[j]);
        }
    }
}

/// The boards that match depend only on which cards the partial board holds: a partial
/// board whose cards are all among another's matches every board that the other matches,
/// so `agg` counts no more boards for the larger one; two partial boards with the same
/// cards, in any order, match the same boards, so every count of `agg` is the same for
/// both.
pub proof fn lemma_matching_by_cards(t: Map<u64, Map<u8, EvalResult>>, small: Seq<Card>, large: Seq<Card>)
    requires
        forall|k: int| 0 <= k < small.len() ==> large.contains(#[trigger] small[k]),
    ensures
        matching_boards(t, card_numbers(large)).subset_of(matching_boards(t, card_numbers(small))),
        all_boards_played(t) ==> matching_boards(t, card_numbers(large)).len() <= matching_boards(
            t,
            card_numbers(small),
        ).len(),
        small.to_set() == large.to_set() ==> matching_boards(t, card_numbers(small))
            == matching_boards(t, card_numbers(large)),
{
    lemma_matching_subset(t, small, large);
    if all_boards_played(t) {
        vstd::set_lib::lemma_set_subset_finite(t.dom(), matching_boards(t, card_numbers(small)));
        vstd::set_lib::lemma_len_subset(
            matching_boards(t, card_numbers(large)),
            matching_boards(t, card_numbers(small)),
        );
    }
    if small.to_set() == large.to_set() {
        assert forall|k: int| 0 <= k < large.len() implies small.contains(#[trigger] large[k]) by {
            assert(large.to_set().contains(large[k]));
        }
        lemma_matching_subset(t, large, small);
        assert(matching_boards(t, card_numbers(small)) =~= matching_boards(t, card_numbers(large)));
    }
}

proof fn lemma_matching_subset(t: Map<u64, Map<u8, EvalResult>>, small: Seq<Card>, large: Seq<Card>)
    requires
        forall|k: int| 0 <= k < small.len() ==> large.contains(#[trigger] small[k]),
    ensures
        matching_boards(t, card_numbers(large)).subset_of(matching_boards(t, card_numbers(small))),
{
    let fs = card_numbers(small);
    let fl = card_numbers(large);
    assert forall|b: u64| #[trigger] matching_boards(t, fl).contains(b) implies matching_boards(
        t,
        fs,
    ).contains(b) by {
        assert forall|j: int| 0 <= j < fs.len() implies board_has(b, #[trigger] fs[j]) by {
            assert(large.contains(small[j]));
            let i = choose|i: int| 0 <= i < large.len() && large[i] == small[j];
            assert(board_has(b, fl[i]));
        }
    }
}

/// Some player holds the highest score among the players `d` of the results.
proof fn lemma_top_score(r: Map<u8, EvalResult>, d: Set<u8>)
    requires
        d.finite(),
        d.len() > 0,
        d.subset_of(r.dom()),
    ensures
        exists|p: u8|
            #[trigger] d.contains(p) && forall|q: u8| #[trigger] d.contains(q) ==> r[q].score <= r[p].score,
    decreases d.len(),
{
    let x = d.choose();
    let rest = d.remove(x);
    if rest.len() == 0 {
        assert forall|q: u8| #[trigger] d.contains(q) implies r[q].score <= r[x].score by {
            if q != x {
                assert(rest.contains(q));
            }
        }
    } else {
        lemma_top_score(r, rest);
        let p = choose|p: u8|
            #[trigger] rest.contains(p) && forall|q: u8| #[trigger] rest.contains(q) ==> r[q].score <= r[p].score;
        if r[x].score <= r[p].score {
            assert forall|q: u8| #[trigger] d.contains(q) implies r[q].score <= r[p].score by {
                if q != x {
                    assert(rest.contains(q));
                }
            }
        } else {
            assert forall|q: u8| #[trigger] d.contains(q) implies r[q].score <= r[x].score by {
                if q != x {
                    assert(rest.contains(q));
                }
            }
        }
    }
}

/// Every board that someone played is decided: its winners are either one player, who
/// alone wins it, or a group of two or more, who share it. So each board that `agg`
/// counts adds to exactly one player's lone wins or to exactly one tie.
pub proof fn lemma_board_decided(t: Map<u64, Map<u8, EvalResult>>, b: u64)
    requires
        all_boards_played(t),
        t.contains_key(b),
    ensures
        winners(t[b]).finite(),
        winners(t[b]).len() >= 1,
        winners(t[b]).len() == 1 <==> exists|p: u8| #[trigger] won_alone(t, p)(b),
        forall|p: u8, q: u8| won_alone(t, p)(b) && won_alone(t, q)(b) ==> p == q,
        winners(t[b]).len() >= 2 <==> exists|w: Set<u8>| w.len() >= 2 && #[trigger] tied_by(t, w)(b),
        forall|w: Set<u8>, v: Set<u8>| tied_by(t, w)(b) && tied_by(t, v)(b) ==> w == v,
{
    let r = t[b];
    let ws = winners(r);
    lemma_top_score(r, r.dom());
    let top = choose|p: u8|
        #[trigger] r.dom().contains(p) && forall|q: u8| #[trigger] r.dom().contains(q) ==> r[q].score <= r[p].score;
    assert(is_winner(r, top));
    assert(ws.contains(top));
    assert(ws.subset_of(r.dom()));
    vstd::set_lib::lemma_len_subset(ws, r.dom());
    assert(ws.finite());
    assert(ws.len() >= 1) by {
        if ws.len() == 0 {
            ws.lemma_len0_is_empty();
        }
    }
    if ws.len() == 1 {
        let p = ws.choose();
        assert(ws.remove(p).len() == 0);
        ws.remove(p).lemma_len0_is_empty();
        assert(ws =~= set![p]) by {
            assert forall|q: u8| ws.contains(q) implies q == p by {
                if q != p {
                    assert(ws.remove(p).contains(q));
                }
            }
        }
        assert(won_alone(t, p)(b));
    }
    if exists|p: u8| #[trigger] won_alone(t, p)(b) {
        let p = choose|p: u8| #[trigger] won_alone(t, p)(b);
        assert(ws == set![p]);
        assert(set![p].len() == 1);
    }
    assert forall|p: u8, q: u8| won_alone(t, p)(b) && won_alone(t, q)(b) implies p == q by {
        assert(set![p].contains(p));
    }
    if ws.len() >= 2 {
        assert(tied_by(t, ws)(b));
    }
}

/// The keys of a map of boards, each once.
fn board_keys<V>(m: &HashMap<u64, V>) -> (r: Vec<u64>)
    ensures
        r@.no_duplicates(),
        r@.to_set() == m@.dom(),
{
    let mut out: Vec<u64> = Vec::new();
    let ghost ks = vstd::std_specs::hash::spec_keys_iter(m).remaining();
    for k in it: m.keys()
        invariant
            it.seq() == ks,
            out@.len() == it.index(),
            forall|j: int| 0 <= j < it.index() ==> out@[j] == *ks[j],
    {
        out.push(*k);
    }
    assert(out@.len() == ks.len());
    assert(out@ =~= ks.unref());
    out
}

/// The keys of a map of players, each once.
fn player_keys<V>(m: &HashMap<u8, V>) -> (r: Vec<u8>)
    ensures
        r@.no_duplicates(),
        r@.to_set() == m@.dom(),
{
    let mut out: Vec<u8> = Vec::new();
    let ghost ks = vstd::std_specs::hash::spec_keys_iter(m).remaining();
    for k in it: m.keys()
        invariant
            it.seq() == ks,
            out@.len() == it.index(),
            forall|j: int| 0 <= j < it.index() ==> out@[j] == *ks[j],
    {
        out.push(*k);
    }
    assert(out@.len() == ks.len());
    assert(out@ =~= ks.unref());
    out
}

/// Whether the packed board holds every card number of the filter.
fn board_matches(b: u64, filter: &Vec<u64>) -> (r: bool)
    ensures
        r == matches_filter(filter@)(b),
{
    let mut j: usize = 0;
    while j < filter.len()
        invariant
            j <= filter@.len(),
            forall|k: int| 0 <= k < j ==> board_has(b, #[trigger] filter@[k]),
        decreases filter@.len() - j,
    {
        let e = filter[j];
        let mut found = false;
        let mut i: u64 = 0;
        while i < 5
            invariant
                i <= 5,
                found ==> board_has(b, e),
                !found ==> forall|k: int| 0 <= k < i ==> #[trigger] slot(b, k) != e,
            decreases 5 - i,
        {
            if (b >> (i * 6)) & 63 == e {
                assert(slot(b, i as int) == e);
                found = true;
            }
            i = i + 1;
        }
        if !found {
            return false;
        }
        j = j + 1;
    }
    true
}

/// The highest score among the players' results.
fn best_score(inner: &HashMap<u8, EvalResult>, ps: &Vec<u8>) -> (r: u64)
    requires
        ps@.to_set() == inner@.dom(),
        ps@.len() > 0,
    ensures
        exists|p: u8| #[trigger] inner@.contains_key(p) && inner@[p].score == r,
        forall|q: u8| #[trigger] inner@.contains_key(q) ==> inner@[q].score <= r,
{
    assert(ps@.to_set().contains(ps@[0]));
    let first = *inner.get(&ps[0]).unwrap();
    let mut best = first.score;
    let mut i: usize = 1;
    while i < ps.len()
        invariant
            1 <= i <= ps@.len(),
            ps@.to_set() == inner@.dom(),
            exists|p: u8| #[trigger] inner@.contains_key(p) && inner@[p].score == best,
            forall|k: int| 0 <= k < i ==> inner@[#[trigger] ps@[k]].score <= best,
        decreases ps@.len() - i,
    {
        assert(ps@.to_set().contains(ps@[i as int]));
        let v = *inner.get(&ps[i]).unwrap();
        if v.score > best {
            best = v.score;
        }
        i = i + 1;
    }
    assert forall|q: u8| #[trigger] inner@.contains_key(q) implies inner@[q].score <= best by {
        assert(ps@.to_set().contains(q));
        let k = choose|k: int| 0 <= k < ps@.len() && ps@[k] == q;
        assert(inner@[ps@[k]].score <= best);
    }
    best
}

/// Inserts `x` into a strictly increasing list that does not hold it.
fn insert_sorted(v: &mut Vec<u8>, x: u8)
    requires
        strictly_asc(old(v)@),
        !old(v)@.contains(x),
    ensures
        strictly_asc(final(v)@),
        final(v)@.to_set() == old(v)@.to_set().insert(x),
        final(v)@.len() == old(v)@.len() + 1,
{
    let mut j: usize = 0;
    while j < v.len() && v[j] < x
        invariant
            j <= v@.len(),
            forall|k: int| 0 <= k < j ==> v@[k] < x,
        decreases v@.len() - j,
    {
        j = j + 1;
    }
    let ghost before = v@;
    v.insert(j, x);
    assert forall|k: int| j <= k < before.len() implies before[k] > x by {
        assert(before[k] != x);
        if k > j {
            assert(before[j as int] < before[k]);
        }
        assert(before[j as int] >= x);
    }
    assert forall|a: int, b: int| 0 <= a < b < v@.len() implies v@[a] < v@[b] by {
        if b < j {
            assert(v@[a] == before[a] && v@[b] == before[b]);
        } else if b == j {
            assert(v@[a] == before[a]);
        } else if a < j {
            assert(v@[a] == before[a] && v@[b] == before[b - 1]);
        } else if a == j {
            assert(v@[b] == before[b - 1]);
        } else {
            assert(v@[a] == before[a - 1] && v@[b] == before[b - 1]);
        }
    }
    assert forall|y: u8| v@.to_set().contains(y) <==> before.to_set().insert(x).contains(y) by {
        if v@.contains(y) {
            let k = choose|k: int| 0 <= k < v@.len() && v@[k] == y;
            if k < j {
                assert(before[k] == y);
            } else if k > j {
                assert(before[k - 1] == y);
            }
        }
        if before.contains(y) {
            let k = choose|k: int| 0 <= k < before.len() && before[k] == y;
            if k < j {
                assert(v@[k] == y);
            } else {
                assert(v@[k + 1] == y);
            }
        }
        if y == x {
            assert(v@[j as int] == x);
        }
    }
    assert(v@.to_set() =~= before.to_set().insert(x));
}

/// The players with the highest score, in increasing order.
fn sorted_winners(inner: &HashMap<u8, EvalResult>, ps: &Vec<u8>) -> (r: Vec<u8>)
    requires
        ps@.to_set() == inner@.dom(),
        ps@.no_duplicates(),
        ps@.len() > 0,
    ensures
        strictly_asc(r@),
        r@.to_set() == winners(inner@),
        r@.len() > 0,
{
    let best = best_score(inner, ps);
    let mut out: Vec<u8> = Vec::new();
    let mut i: usize = 0;
    while i < ps.len()
        invariant
            i <= ps@.len(),
            ps@.to_set() == inner@.dom(),
            ps@.no_duplicates(),
            strictly_asc(out@),
            exists|p: u8| #[trigger] inner@.contains_key(p) && inner@[p].score == best,
            forall|q: u8| #[trigger] inner@.contains_key(q) ==> inner@[q].score <= best,
            forall|y: u8|
                out@.contains(y) <==> (exists|k: int|
                    0 <= k < i && #[trigger] ps@[k] == y && inner@[y].score == best),
        decreases ps@.len() - i,
    {
        let p = ps[i];
        assert(ps@.to_set().contains(p));
        let v = *inner.get(&p).unwrap();
        let ghost before = out@;
        if v.score == best {
            assert(!out@.contains(p)) by {
                if out@.contains(p) {
                    let k = choose|k: int| 0 <= k < i && #[trigger] ps@[k] == p && inner@[p].score
                        == best;
                    assert(ps@[k] == ps@[i as int]);
                }
            }
            insert_sorted(&mut out, p);
            assert forall|y: u8|
                out@.contains(y) <==> (exists|k: int|
                    0 <= k < i + 1 && #[trigger] ps@[k] == y && inner@[y].score == best) by {
                assert(out@.to_set().contains(y) == before.to_set().insert(p).contains(y));
                if y == p {
                    assert(ps@[i as int] == y);
                }
            }
        } else {
            assert forall|y: u8|
                out@.contains(y) <==> (exists|k: int|
                    0 <= k < i + 1 && #[trigger] ps@[k] == y && inner@[y].score == best) by {
                if exists|k: int| 0 <= k < i + 1 && #[trigger] ps@[k] == y && inner@[y].score == best {
                    let k = choose|k: int| 0 <= k < i + 1 && #[trigger] ps@[k] == y && inner@[y].score
                        == best;
                    if k == i {
                        assert(y == p);
                    }
                }
            }
        }
        i = i + 1;
    }
    assert forall|y: u8| out@.to_set().contains(y) <==> winners(inner@).contains(y) by {
        if inner@.contains_key(y) && is_winner(inner@, y) {
            let p0 = choose|p: u8| #[trigger] inner@.contains_key(p) && inner@[p].score == best;
            assert(inner@[y].score == best);
            assert(ps@.to_set().contains(y));
            let k = choose|k: int| 0 <= k < ps@.len() && ps@[k] == y;
        }
        if out@.contains(y) {
            let k = choose|k: int| 0 <= k < ps@.len() && #[trigger] ps@[k] == y && inner@[y].score
                == best;
            assert(ps@.to_set().contains(ps@[k]));
        }
    }
    assert(out@.to_set() =~= winners(inner@));
    assert(out@.len() > 0) by {
        let p0 = choose|p: u8| #[trigger] inner@.contains_key(p) && inner@[p].score == best;
        assert(ps@.to_set().contains(p0));
        let k = choose|k: int| 0 <= k < ps@.len() && ps@[k] == p0;
        assert(out@.contains(p0));
    }
    out
}

/// The win counts of each player, over the boards of `s`.
pub open spec fn eq_repr(eq: Map<u8, u64>, t: Map<u64, Map<u8, EvalResult>>, s: Seq<u64>) -> bool {
    forall|p: u8|
        (#[trigger] eq.contains_key(p) <==> s.filter(won_alone(t, p)).len() > 0) && (eq.contains_key(p)
            ==> eq[p] == s.filter(won_alone(t, p)).len())
}

/// The hand-category counts of each player, over the boards of `s`.
pub open spec fn hc_repr(
    hc: Map<u8, HashMap<u8, u64>>,
    t: Map<u64, Map<u8, EvalResult>>,
    s: Seq<u64>,
) -> bool {
    &&& forall|p: u8| #[trigger] hc.contains_key(p) <==> s.filter(played_by(t, p)).len() > 0
    &&& forall|p: u8, h: u8|
        hc.contains_key(p) ==> (#[trigger] hc[p]@.contains_key(h) <==> s.filter(
            played_as(t, p, h),
        ).len() > 0)
    &&& forall|p: u8, h: u8|
        hc.contains_key(p) && #[trigger] hc[p]@.contains_key(h) ==> hc[p]@[h] == s.filter(
            played_as(t, p, h),
        ).len()
}

/// The shared wins, over the boards of `s`: each group once, with its count.
pub open spec fn ties_repr(
    ties: Seq<(Vec<u8>, u64)>,
    t: Map<u64, Map<u8, EvalResult>>,
    s: Seq<u64>,
) -> bool {
    &&& forall|k: int|
        0 <= k < ties.len() ==> {
            &&& strictly_asc(#[trigger] ties[k].0@)
            &&& ties[k].0@.len() >= 2
            &&& ties[k].1 == s.filter(tied_by(t, ties[k].0@.to_set())).len()
            &&& ties[k].1 > 0
        }
    &&& forall|k: int, l: int|
        0 <= k < ties.len() && 0 <= l < ties.len() && k != l ==> #[trigger] ties[k].0@.to_set()
            != #[trigger] ties[l].0@.to_set()
    &&& forall|w: Set<u8>|
        w.len() >= 2 && #[trigger] s.filter(tied_by(t, w)).len() > 0 ==> exists|k: int|
            0 <= k < ties.len() && #[trigger] ties[k].0@.to_set() == w
}

/// Strictly increasing lists with the same elements are equal.
pub proof fn lemma_sorted_unique(a: Seq<u8>, b: Seq<u8>)
    requires
        strictly_asc(a),
        strictly_asc(b),
        a.to_set() == b.to_set(),
    ensures
        a == b,
    decreases a.len(),
{
    if a.len() == 0 {
        if b.len() > 0 {
            assert(b.to_set().contains(b[0]));
        }
        assert(b =~= a);
    } else {
        assert(a.to_set().contains(a[0]));
        assert(b.len() > 0);
        assert(b.to_set().contains(b[0]));
        let k = choose|k: int| 0 <= k < b.len() && b[k] == a[0];
        let m = choose|m: int| 0 <= m < a.len() && a[m] == b[0];
        if k > 0 {
            assert(b[0] < b[k]);
        }
        if m > 0 {
            assert(a[0] < a[m]);
        }
        assert(a[0] == b[0]);
        let a1 = a.drop_first();
        let b1 = b.drop_first();
        assert forall|y: u8| a1.to_set().contains(y) <==> b1.to_set().contains(y) by {
            if a1.contains(y) {
                let i = choose|i: int| 0 <= i < a1.len() && a1[i] == y;
                assert(a[i + 1] == y);
                assert(a[0] < a[i + 1]);
                assert(b.to_set().contains(y));
                let j = choose|j: int| 0 <= j < b.len() && b[j] == y;
                assert(j != 0);
                assert(b1[j - 1] == y);
            }
            if b1.contains(y) {
                let i = choose|i: int| 0 <= i < b1.len() && b1[i] == y;
                assert(b[i + 1] == y);
                assert(b[0] < b[i + 1]);
                assert(a.to_set().contains(y));
                let j = choose|j: int| 0 <= j < a.len() && a[j] == y;
                assert(j != 0);
                assert(a1[j - 1] == y);
            }
        }
        assert(a1.to_set() =~= b1.to_set());
        lemma_sorted_unique(a1, b1);
        assert forall|i: int| 0 <= i < a.len() implies a[i] == b[i] by {
            if i > 0 {
                assert(a[i] == a1[i - 1] && b[i] == b1[i - 1]);
            }
        }
        assert(a =~= b);
    }
}

/// A strictly increasing list has as many elements as its set.
pub proof fn lemma_sorted_set_len(a: Seq<u8>)
    requires
        strictly_asc(a),
    ensures
        a.to_set().len() == a.len(),
{
    assert(a.no_duplicates()) by {
        assert forall|i: int, j: int| 0 <= i < a.len() && 0 <= j < a.len() && i != j implies a[i]
            != a[j] by {
            if i < j {
                assert(a[i] < a[j]);
            } else {
                assert(a[j] < a[i]);
            }
        }
    }
    a.unique_seq_to_set();
}

/// Counting over a sequence without duplicates is counting over its set.
pub proof fn lemma_seq_set_count<A>(s: Seq<A>, q: spec_fn(A) -> bool)
    requires
        s.no_duplicates(),
    ensures
        s.filter(q).len() == s.to_set().filter(q).len(),
{
    lemma_filter_no_dup(s, q);
    assert forall|x: A| s.filter(q).to_set().contains(x) <==> s.to_set().filter(q).contains(x) by {
        lemma_filter_mem(s, q, x);
    }
    assert(s.filter(q).to_set() =~= s.to_set().filter(q));
    s.filter(q).unique_seq_to_set();
}

/// Adds one to the count of `k`, starting from one where it has none.
fn bump(m: &mut HashMap<u8, u64>, k: u8)
    requires
        old(m)@.contains_key(k) ==> old(m)@[k] < u64::MAX,
    ensures
        final(m)@ == old(m)@.insert(
            k,
            if old(m)@.contains_key(k) {
                (old(m)@[k] + 1) as u64
            } else {
                1u64
            },
        ),
{
    let cur = match m.get(&k) {
        Some(v) => *v,
        None => 0,
    };
    m.insert(k, cur + 1);
}

/// Adds one to the count of category `h` for player `p`.
fn bump_nested(hc: &mut HashMap<u8, HashMap<u8, u64>>, p: u8, h: u8)
    requires
        old(hc)@.contains_key(p) && old(hc)@[p]@.contains_key(h) ==> old(hc)@[p]@[h] < u64::MAX,
    ensures
        forall|q: u8|
            q != p ==> (#[trigger] final(hc)@.contains_key(q) == old(hc)@.contains_key(q) && (old(
                hc,
            )@.contains_key(q) ==> final(hc)@[q] == old(hc)@[q])),
        final(hc)@.contains_key(p),
        final(hc)@[p]@ == (if old(hc)@.contains_key(p) {
            old(hc)@[p]@
        } else {
            Map::<u8, u64>::empty()
        }).insert(
            h,
            if old(hc)@.contains_key(p) && old(hc)@[p]@.contains_key(h) {
                (old(hc)@[p]@[h] + 1) as u64
            } else {
                1u64
            },
        ),
{
    let ghost before = hc@;
    let mut inner = match hc.remove(&p) {
        Some(m) => m,
        None => HashMap::new(),
    };
    proof {
        if !before.contains_key(p) {
            assert(inner@ =~= Map::<u8, u64>::empty());
        }
    }
    bump(&mut inner, h);
    hc.insert(p, inner);
}

/// Whether two lists are equal.
fn same_list(a: &Vec<u8>, b: &Vec<u8>) -> (r: bool)
    ensures
        r == (a@ == b@),
{
    if a.len() != b.len() {
        return false;
    }
    let mut i: usize = 0;
    while i < a.len()
        invariant
            i <= a@.len(),
            a@.len() == b@.len(),
            forall|k: int| 0 <= k < i ==> a@[k] == b@[k],
        decreases a@.len() - i,
    {
        if a[i] != b[i] {
            return false;
        }
        i = i + 1;
    }
    assert(a@ =~= b@);
    true
}

/// Counts one more board's hand categories.
fn record_hand_types(
    hc: &mut HashMap<u8, HashMap<u8, u64>>,
    inner: &HashMap<u8, EvalResult>,
    ps: &Vec<u8>,
    Ghost(t): Ghost<Map<u64, Map<u8, EvalResult>>>,
    Ghost(s): Ghost<Seq<u64>>,
    Ghost(b): Ghost<u64>,
)
    requires
        hc_repr(old(hc)@, t, s),
        t.contains_key(b),
        t[b] == inner@,
        ps@.to_set() == inner@.dom(),
        ps@.no_duplicates(),
        s.len() < u64::MAX,
    ensures
        hc_repr(final(hc)@, t, s.push(b)),
{
    let mut j: usize = 0;
    while j < ps.len()
        invariant
            j <= ps@.len(),
            t.contains_key(b),
            t[b] == inner@,
            ps@.to_set() == inner@.dom(),
            ps@.no_duplicates(),
            s.len() < u64::MAX,
            forall|p: u8|
                #[trigger] hc@.contains_key(p) <==> (s.filter(played_by(t, p)).len() > 0
                    || ps@.take(j as int).contains(p)),
            forall|p: u8, h: u8|
                hc@.contains_key(p) ==> (#[trigger] hc@[p]@.contains_key(h) <==> (s.filter(
                    played_as(t, p, h),
                ).len() > 0 || (ps@.take(j as int).contains(p) && inner@[p].hand_type.value()
                    == h))),
            forall|p: u8, h: u8|
                hc@.contains_key(p) && #[trigger] hc@[p]@.contains_key(h) ==> hc@[p]@[h] == s.filter(
                    played_as(t, p, h),
                ).len() + (if ps@.take(j as int).contains(p) && inner@[p].hand_type.value() == h {
                    1int
                } else {
                    0int
                }),
        decreases ps@.len() - j,
    {
        let p = ps[j];
        assert(ps@.to_set().contains(p));
        let res = *inner.get(&p).unwrap();
        let h = res.hand_type.index();
        let ghost before = hc@;
        let ghost pre = ps@.take(j as int);
        assert(!pre.contains(p)) by {
            if pre.contains(p) {
                let k = choose|k: int| 0 <= k < pre.len() && pre[k] == p;
                assert(ps@[k] == ps@[j as int]);
            }
        }
        proof {
            s.lemma_filter_len(played_as(t, p, h));
        }
        bump_nested(hc, p, h);
        let ghost post = ps@.take(j + 1);
        assert(post =~= pre.push(p));
        assert forall|q: u8| #[trigger] post.contains(q) <==> (pre.contains(q) || q == p) by {
            if post.contains(q) {
                let k = choose|k: int| 0 <= k < post.len() && post[k] == q;
                if k < pre.len() {
                    assert(post[k] == pre[k]);
                } else {
                    assert(post[k] == p);
                }
            }
            if pre.contains(q) {
                let k = choose|k: int| 0 <= k < pre.len() && pre[k] == q;
                assert(post[k] == q);
            }
            if q == p {
                assert(post[pre.len() as int] == p);
            }
        }
        j = j + 1;
        assert forall|q: u8, g: u8| hc@.contains_key(q) implies (#[trigger] hc@[q]@.contains_key(g)
            <==> (s.filter(played_as(t, q, g)).len() > 0 || (ps@.take(j as int).contains(q)
            && inner@[q].hand_type.value() == g))) by {
            if q == p {
                if before.contains_key(p) {
                    assert(before[p]@.contains_key(g) <==> s.filter(played_as(t, p, g)).len() > 0);
                } else {
                    lemma_filter_len_mono(s, played_as(t, p, g), played_by(t, p));
                }
            }
        }
        assert forall|q: u8, g: u8|
            hc@.contains_key(q) && #[trigger] hc@[q]@.contains_key(g) implies hc@[q]@[g] == s.filter(
            played_as(t, q, g),
        ).len() + (if ps@.take(j as int).contains(q) && inner@[q].hand_type.value() == g {
            1int
        } else {
            0int
        }) by {
            if q == p {
                if g == h {
                    if before.contains_key(p) {
                        assert(before[p]@.contains_key(h) <==> s.filter(played_as(t, p, h)).len() > 0);
                    } else {
                        lemma_filter_len_mono(s, played_as(t, p, h), played_by(t, p));
                    }
                } else {
                    assert(before.contains_key(p) && before[p]@.contains_key(g));
                }
            }
        }
    }
    assert(ps@.take(ps@.len() as int) =~= ps@);
    assert forall|p: u8| ps@.contains(p) <==> inner@.contains_key(p) by {
        assert(ps@.to_set().contains(p) == inner@.dom().contains(p));
    }
}

/// Counts one more board's winner: a win for a lone winner, else a shared win of the group.
fn record_winners(
    eq: &mut HashMap<u8, u64>,
    ties: &mut Vec<(Vec<u8>, u64)>,
    w: Vec<u8>,
    Ghost(t): Ghost<Map<u64, Map<u8, EvalResult>>>,
    Ghost(s): Ghost<Seq<u64>>,
    Ghost(b): Ghost<u64>,
)
    requires
        eq_repr(old(eq)@, t, s),
        ties_repr(old(ties)@, t, s),
        t.contains_key(b),
        strictly_asc(w@),
        w@.to_set() == winners(t[b]),
        w@.len() > 0,
        s.len() < u64::MAX,
    ensures
        eq_repr(final(eq)@, t, s.push(b)),
        ties_repr(final(ties)@, t, s.push(b)),
{
    proof {
        lemma_sorted_set_len(w@);
    }
    if w.len() == 1 {
        let p = w[0];
        assert(w@ =~= seq![p]);
        assert(winners(t[b]) =~= set![p]);
        proof {
            s.lemma_filter_len(won_alone(t, p));
        }
        bump(eq, p);
        assert forall|q: u8| q != p implies !won_alone(t, q)(b) by {
            assert(!set![p].contains(q));
            assert(set![q].contains(q));
        }
        assert(won_alone(t, p)(b));
        assert forall|q: u8| #[trigger] eq@.contains_key(q) <==> s.push(b).filter(won_alone(t, q)).len() > 0 by {
            if q != p {
                assert(!won_alone(t, q)(b));
            }
        }
        assert forall|k: int| 0 <= k < ties@.len() implies !tied_by(t, #[trigger] ties@[k].0@.to_set())(b) by {
            lemma_sorted_set_len(ties@[k].0@);
        }
        assert forall|x: Set<u8>|
            x.len() >= 2 && #[trigger] s.push(b).filter(tied_by(t, x)).len() > 0 implies exists|k: int|
            0 <= k < ties@.len() && #[trigger] ties@[k].0@.to_set() == x by {
            if x == winners(t[b]) {
                assert(set![p].len() == 1);
            }
        }
    } else {
        let mut k: usize = 0;
        let mut found = false;
        while !found && k < ties.len()
            invariant
                k <= ties@.len(),
                found ==> k < ties@.len() && ties@[k as int].0@ == w@,
                !found ==> forall|l: int| 0 <= l < k ==> #[trigger] ties@[l].0@ != w@,
            decreases ties@.len() - k + (if found {
                0int
            } else {
                1int
            }),
        {
            if same_list(&ties[k].0, &w) {
                found = true;
            } else {
                k = k + 1;
            }
        }
        assert forall|p: u8| !won_alone(t, p)(b) by {
            if won_alone(t, p)(b) {
                assert(set![p].len() == 1);
            }
        }
        if found {
            let ghost before = ties@;
            let c = ties[k].1;
            proof {
                s.lemma_filter_len(tied_by(t, w@.to_set()));
            }
            let entry = (copy_list(&w), c + 1);
            ties.set(k, entry);
            assert forall|l: int| 0 <= l < ties@.len() && l != k implies !tied_by(
                t,
                #[trigger] ties@[l].0@.to_set(),
            )(b) by {
                assert(before[l].0@.to_set() != before[k as int].0@.to_set());
            }
            assert forall|x: Set<u8>|
                x.len() >= 2 && #[trigger] s.push(b).filter(tied_by(t, x)).len() > 0 implies exists|
                l: int| 0 <= l < ties@.len() && #[trigger] ties@[l].0@.to_set() == x by {
                if x == winners(t[b]) {
                    assert(ties@[k as int].0@.to_set() == x);
                } else {
                    assert(s.filter(tied_by(t, x)).len() > 0);
                    let l = choose|l: int| 0 <= l < before.len() && #[trigger] before[l].0@.to_set() == x;
                    assert(ties@[l].0@.to_set() == x);
                }
            }
        } else {
            let ghost before = ties@;
            assert forall|l: int| 0 <= l < before.len() implies #[trigger] before[l].0@.to_set()
                != w@.to_set() by {
                if before[l].0@.to_set() == w@.to_set() {
                    lemma_sorted_unique(before[l].0@, w@);
                }
            }
            assert(s.filter(tied_by(t, w@.to_set())).len() == 0) by {
                if s.filter(tied_by(t, w@.to_set())).len() > 0 {
                    let l = choose|l: int| 0 <= l < before.len() && #[trigger] before[l].0@.to_set()
                        == w@.to_set();
                }
            }
            let ghost wv = w@;
            ties.push((w, 1));
            assert forall|l: int| 0 <= l < before.len() implies !tied_by(
                t,
                #[trigger] ties@[l].0@.to_set(),
            )(b) by {
                assert(ties@[l] == before[l]);
            }
            assert forall|k1: int, l: int|
                0 <= k1 < ties@.len() && 0 <= l < ties@.len() && k1 != l implies #[trigger] ties@[k1].0@.to_set()
                != #[trigger] ties@[l].0@.to_set() by {
                if k1 < before.len() && l < before.len() {
                    assert(ties@[k1] == before[k1] && ties@[l] == before[l]);
                } else if k1 < before.len() {
                    assert(ties@[k1] == before[k1]);
                } else if l < before.len() {
                    assert(ties@[l] == before[l]);
                }
            }
            assert forall|x: Set<u8>|
                x.len() >= 2 && #[trigger] s.push(b).filter(tied_by(t, x)).len() > 0 implies exists|
                l: int| 0 <= l < ties@.len() && #[trigger] ties@[l].0@.to_set() == x by {
                if x == winners(t[b]) {
                    assert(ties@[before.len() as int].0@.to_set() == x);
                } else {
                    assert(s.filter(tied_by(t, x)).len() > 0);
                    let l = choose|l: int| 0 <= l < before.len() && #[trigger] before[l].0@.to_set() == x;
                    assert(ties@[l] == before[l]);
                }
            }
        }
    }
}

/// A copy of the list.
fn copy_list(v: &Vec<u8>) -> (r: Vec<u8>)
    ensures
        r@ == v@,
{
    let mut out: Vec<u8> = Vec::new();
    let mut i: usize = 0;
    while i < v.len()
        invariant
            i <= v@.len(),
            out@ == v@.take(i as int),
        decreases v@.len() - i,
    {
        assert(v@.take(i + 1) == v@.take(i as int).push(v@[i as int]));
        out.push(v[i]);
        i = i + 1;
    }
    assert(v@.take(v@.len() as int) == v@);
    out
}

impl ResultsManager {
    #[verifier::type_invariant]
    closed spec fn inv(self) -> bool {
        forall|b: u64| #[trigger] self.results@.contains_key(b) ==> self.results@[b]@.dom().len() > 0
    }

    /// A manager with no results.
    pub fn new() -> (r: ResultsManager)
        ensures
            r@ == Map::<u64, Map<u8, EvalResult>>::empty(),
            all_boards_played(r@),
    {
        let r = ResultsManager { results: HashMap::new() };
        assert(r@ =~= Map::<u64, Map<u8, EvalResult>>::empty());
        assert(r@.dom() =~= Set::<u64>::empty());
        r
    }

    /// Records a player's result on a board, replacing any earlier result of that player there.
    pub fn insert(&mut self, board: u64, player_key: u8, result: EvalResult)
        ensures
            final(self)@ == recorded(old(self)@, board, player_key, result),
            all_boards_played(final(self)@),
    {
        proof {
            use_type_invariant(&*self);
        }
        let ghost old_view = self@;
        let mut results: HashMap<u64, HashMap<u8, EvalResult>> = HashMap::new();
        std::mem::swap(&mut results, &mut self.results);
        let ghost taken = results@;
        let mut inner = match results.remove(&board) {
            Some(m) => m,
            None => HashMap::new(),
        };
        let ghost old_inner = inner@;
        inner.insert(player_key, result);
        assert(inner@.dom().contains(player_key));
        assert(inner@.dom().len() > 0) by {
            assert(inner@.dom().finite());
        }
        results.insert(board, inner);
        self.results = results;
        assert(self@ =~= old_view.insert(
            board,
            if old_view.contains_key(board) {
                old_view[board].insert(player_key, result)
            } else {
                Map::<u8, EvalResult>::empty().insert(player_key, result)
            },
        )) by {
            if old_view.contains_key(board) {
                assert(old_inner == taken[board]@);
            } else {
                assert(old_inner =~= Map::<u8, EvalResult>::empty());
            }
        }
        proof {
            use_type_invariant(&*self);
            assert(self@.dom() =~= self.results@.dom());
            assert forall|b: u64| #[trigger] self@.contains_key(b) implies self@[b].dom().finite()
                && self@[b].dom().len() > 0 by {
                assert(self@[b] == self.results@[b]@);
            }
        }
    }

    /// Counts, over the stored boards that hold every card of `board` (a partial board),
    /// the boards, each player's hand categories, each player's lone wins, and the
    /// shared wins of each group of players.
    pub fn agg(&self, board: &[Card]) -> (r: AggResult)
        ensures
            all_boards_played(self@),
            r.count == matching_boards(self@, card_numbers(board@)).len(),
            forall|p: u8|
                #[trigger] r.eq_counter@.contains_key(p) <==> matching_boards(
                    self@,
                    card_numbers(board@),
                ).filter(won_alone(self@, p)).len() > 0,
            forall|p: u8|
                #[trigger] r.eq_counter@.contains_key(p) ==> r.eq_counter@[p] == matching_boards(
                    self@,
                    card_numbers(board@),
                ).filter(won_alone(self@, p)).len(),
            forall|p: u8|
                #[trigger] r.hand_counter@.contains_key(p) <==> matching_boards(
                    self@,
                    card_numbers(board@),
                ).filter(played_by(self@, p)).len() > 0,
            forall|p: u8, h: u8|
                r.hand_counter@.contains_key(p) ==> (#[trigger] r.hand_counter@[p]@.contains_key(h)
                    <==> matching_boards(self@, card_numbers(board@)).filter(
                    played_as(self@, p, h),
                ).len() > 0),
            forall|p: u8, h: u8|
                r.hand_counter@.contains_key(p) && #[trigger] r.hand_counter@[p]@.contains_key(h)
                    ==> r.hand_counter@[p]@[h] == matching_boards(self@, card_numbers(board@)).filter(
                    played_as(self@, p, h),
                ).len(),
            forall|k: int|
                0 <= k < r.ties@.len() ==> {
                    &&& strictly_asc(#[trigger] r.ties@[k].0@)
                    &&& r.ties@[k].0@.len() >= 2
                    &&& r.ties@[k].1 == matching_boards(self@, card_numbers(board@)).filter(
                        tied_by(self@, r.ties@[k].0@.to_set()),
                    ).len()
                    &&& r.ties@[k].1 > 0
                },
            forall|k: int, l: int|
                0 <= k < r.ties@.len() && 0 <= l < r.ties@.len() && k != l
                    ==> #[trigger] r.ties@[k].0@.to_set() != #[trigger] r.ties@[l].0@.to_set(),
            forall|w: Set<u8>|
                w.len() >= 2 && #[trigger] matching_boards(self@, card_numbers(board@)).filter(
                    tied_by(self@, w),
                ).len() > 0 ==> exists|k: int|
                    0 <= k < r.ties@.len() && #[trigger] r.ties@[k].0@.to_set() == w,
    {
        proof {
            use_type_invariant(self);
            assert(self@.dom() =~= self.results@.dom());
            assert forall|b: u64| #[trigger] self@.contains_key(b) implies self@[b].dom().finite()
                && self@[b].dom().len() > 0 by {
                assert(self@[b] == self.results@[b]@);
            }
        }
        let ghost t = self@;
        let mut filter: Vec<u64> = Vec::new();
        let mut j: usize = 0;
        while j < board.len()
            invariant
                j <= board@.len(),
                filter@ == card_numbers(board@.take(j as int)),
            decreases board@.len() - j,
        {
            assert(board@.take(j + 1) == board@.take(j as int).push(board@[j as int]));
            filter.push(encode_card(&board[j]));
            assert(filter@ =~= card_numbers(board@.take(j + 1)));
            j = j + 1;
        }
        assert(board@.take(board@.len() as int) == board@);
        let ghost mf = matches_filter(filter@);
        let keys = board_keys(&self.results);
        assert(t.dom() =~= self.results@.dom());
        let mut hand_counter: HashMap<u8, HashMap<u8, u64>> = HashMap::new();
        let mut eq_counter: HashMap<u8, u64> = HashMap::new();
        let mut count: u64 = 0;
        let mut ties: Vec<(Vec<u8>, u64)> = Vec::new();
        proof {
            let s0 = keys@.take(0).filter(mf);
            assert(keys@.take(0) =~= Seq::<u64>::empty());
            assert(s0 =~= Seq::<u64>::empty());
            assert(hand_counter@ =~= Map::<u8, HashMap<u8, u64>>::empty());
            assert(eq_counter@ =~= Map::<u8, u64>::empty());
        }
        let mut i: usize = 0;
        while i < keys.len()
            invariant
                i <= keys@.len(),
                t == self@,
                mf == matches_filter(filter@),
                filter@ == card_numbers(board@),
                keys@.no_duplicates(),
                keys@.to_set() == t.dom(),
                t.dom() == self.results@.dom(),
                forall|b: u64| #[trigger] self.results@.contains_key(b) ==> self.results@[b]@.dom().len() > 0,
                count == keys@.take(i as int).filter(mf).len(),
                eq_repr(eq_counter@, t, keys@.take(i as int).filter(mf)),
                hc_repr(hand_counter@, t, keys@.take(i as int).filter(mf)),
                ties_repr(ties@, t, keys@.take(i as int).filter(mf)),
            decreases keys@.len() - i,
        {
            let b = keys[i];
            let ghost s0 = keys@.take(i as int).filter(mf);
            assert(keys@.take(i + 1) == keys@.take(i as int).push(b));
            proof {
                keys@.take(i as int).lemma_filter_len(mf);
            }
            if board_matches(b, &filter) {
                assert(keys@.to_set().contains(b));
                let inner = self.results.get(&b).unwrap();
                let ps = player_keys(inner);
                proof {
                    ps@.unique_seq_to_set();
                }
                count = count + 1;
                record_hand_types(
                    &mut hand_counter,
                    inner,
                    &ps,
                    Ghost(t),
                    Ghost(s0),
                    Ghost(b),
                );
                let w = sorted_winners(inner, &ps);
                record_winners(&mut eq_counter, &mut ties, w, Ghost(t), Ghost(s0), Ghost(b));
            }
            i = i + 1;
        }
        proof {
            assert(keys@.take(keys@.len() as int) == keys@);
            let ms = keys@.filter(mf);
            let m = matching_boards(t, card_numbers(board@));
            assert forall|x: u64| ms.to_set().contains(x) <==> m.contains(x) by {
                lemma_filter_mem(keys@, mf, x);
            }
            assert(ms.to_set() =~= m);
            lemma_filter_no_dup(keys@, mf);
            ms.unique_seq_to_set();
            assert forall|q: spec_fn(u64) -> bool| #[trigger] m.filter(q).len() == ms.filter(q).len() by {
                lemma_seq_set_count(ms, q);
            }
        }
        let r = AggResult { hand_counter, eq_counter, count, ties };
        proof {
            let ms = keys@.filter(mf);
            let m = matching_boards(t, card_numbers(board@));
            assert forall|w: Set<u8>|
                w.len() >= 2 && #[trigger] matching_boards(self@, card_numbers(board@)).filter(
                    tied_by(self@, w),
                ).len() > 0 implies exists|k: int|
                0 <= k < r.ties@.len() && #[trigger] r.ties@[k].0@.to_set() == w by {
                assert(m.filter(tied_by(t, w)).len() == ms.filter(tied_by(t, w)).len());
                assert(ms.filter(tied_by(t, w)).len() > 0);
                let k = choose|k: int| 0 <= k < r.ties@.len() && #[trigger] r.ties@[k].0@.to_set() == w;
                assert(r.ties@[k].0@.to_set() == w);
            }
        }
        r
    }
}

} // verus!
