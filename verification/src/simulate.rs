use vstd::prelude::*;

use crate::card::{Card, Player, Rank, Suit, board_number, card_number, encode_board,
    lemma_board_number_slot, lemma_card_number_injective};
use crate::combos::{combos, comb, increasing_extension, lemma_combos_distinct, lemma_combos_sound,
    views};
use crate::hand::{EvalResult, eval, evaluation, sort_by_rank_desc, sort_cards_desc,
    lemma_sort_counts, lemma_sort_members};
use crate::results::{ResultsManager, all_boards_played, board_has, card_numbers, matches_filter, recorded, slot};
use crate::seqs::{lemma_filter_mem, lemma_filter_no_dup};
use crate::tracker::{rank_count, rank_is, ranks_at_most_four, ranks_fit};

verus! {

/// The cards at the given positions of the deck.
pub open spec fn cards_at(deck: Seq<Card>, c: Seq<usize>) -> Seq<Card> {
    c.map_values(|i: usize| deck[i as int])
}

/// The five-card boards that can be dealt from the deck, as increasing positions.
pub open spec fn deals(deck: Seq<Card>) -> Seq<Seq<usize>> {
    combos(Seq::empty(), 0, deck.len() as int, 5)
}

/// The packed number of a deal: its cards sorted by rank, highest first, then packed.
pub open spec fn board_of(deck: Seq<Card>, c: Seq<usize>) -> u64 {
    board_number(sort_by_rank_desc(cards_at(deck, c)))
}

/// What a player's evaluation on a deal records.
pub open spec fn result_on(p: Player, deck: Seq<Card>, c: Seq<usize>) -> EvalResult {
    let e = evaluation(p.hand@ + sort_by_rank_desc(cards_at(deck, c)));
    EvalResult { score: e.1 as u64, hand_type: e.0 }
}

/// The deck holds each card once, no player's cards are in it, each player's two cards
/// differ, and no two players share a key.
pub open spec fn valid_table(players: Seq<Player>, deck: Seq<Card>) -> bool {
    &&& deck.no_duplicates()
    &&& forall|j: int|
        0 <= j < players.len() ==> {
            &&& #[trigger] players[j].hand@[0] != players[j].hand@[1]
            &&& !deck.contains(players[j].hand@[0])
            &&& !deck.contains(players[j].hand@[1])
        }
    &&& forall|j: int, k: int|
        0 <= j < players.len() && 0 <= k < players.len() && j != k ==> #[trigger] players[j].player_key
            != #[trigger] players[k].player_key
}

/// A strictly increasing sequence of positions.
spec fn increasing(v: Seq<usize>) -> bool {
    forall|i: int, j: int| 0 <= i < j < v.len() ==> v[i] < v[j]
}

proof fn lemma_increasing_unique(a: Seq<usize>, b: Seq<usize>)
    requires
        increasing(a),
        increasing(b),
        a.to_set() == b.to_set(),
    ensures
        a == b,
    decreases a.len(),
{
    if a.len() == 0 {
        if b.len() > 0 {
            assert(b.to_set().contains(b[0]));
        }
        assert(b =~= a);
    } else {
        assert(a.to_set().contains(a[0]));
        assert(b.len() > 0);
        assert(b.to_set().contains(b[0]));
        let k = choose|k: int| 0 <= k < b.len() && b[k] == a[0];
        let m = choose|m: int| 0 <= m < a.len() && a[m] == b[0];
        if k > 0 {
            assert(b[0] < b[k]);
        }
        if m > 0 {
            assert(a[0] < a[m]);
        }
        let a1 = a.drop_first();
        let b1 = b.drop_first();
        assert forall|y: usize| a1.to_set().contains(y) <==> b1.to_set().contains(y) by {
            if a1.contains(y) {
                let i = choose|i: int| 0 <= i < a1.len() && a1[i] == y;
                assert(a[i + 1] == y);
                assert(a[0] < a[i + 1]);
                assert(b.to_set().contains(y));
                let j = choose|j: int| 0 <= j < b.len() && b[j] == y;
                assert(b1[j - 1] == y);
            }
            if b1.contains(y) {
                let i = choose|i: int| 0 <= i < b1.len() && b1[i] == y;
                assert(b[i + 1] == y);
                assert(b[0] < b[i + 1]);
                assert(a.to_set().contains(y));
                let j = choose|j: int| 0 <= j < a.len() && a[j] == y;
                assert(a1[j - 1] == y);
            }
        }
        assert(a1.to_set() =~= b1.to_set());
        lemma_increasing_unique(a1, b1);
        assert forall|i: int| 0 <= i < a.len() implies a[i] == b[i] by {
            if i > 0 {
                assert(a[i] == a1[i - 1] && b[i] == b1[i - 1]);
            }
        }
        assert(a =~= b);
    }
}

/// Cards that are all different hold no rank more than four times.
pub proof fn lemma_distinct_ranks(s: Seq<Card>)
    requires
        s.no_duplicates(),
    ensures
        ranks_at_most_four(s),
{
    assert forall|r: Rank| #[trigger] rank_count(s, r) <= 4 by {
        let f = s.filter(rank_is(r));
        lemma_filter_no_dup(s, rank_is(r));
        f.unique_seq_to_set();
        let four = Set::<Card>::empty().insert(Card { rank: r, suit: Suit::Spades }).insert(
            Card { rank: r, suit: Suit::Clubs },
        ).insert(Card { rank: r, suit: Suit::Hearts }).insert(Card { rank: r, suit: Suit::Diamonds });
        assert(f.to_set().subset_of(four)) by {
            assert forall|c: Card| f.to_set().contains(c) implies four.contains(c) by {
                lemma_filter_mem(s, rank_is(r), c);
            }
        }
        assert(four.len() <= 4);
        vstd::set_lib::lemma_len_subset(f.to_set(), four);
    }
}

/// Different deals give different packed boards.
pub proof fn lemma_board_of_injective(deck: Seq<Card>, c1: Seq<usize>, c2: Seq<usize>)
    requires
        deck.no_duplicates(),
        deck.len() <= usize::MAX,
        deals(deck).contains(c1),
        deals(deck).contains(c2),
        board_of(deck, c1) == board_of(deck, c2),
    ensures
        c1 == c2,
{
    lemma_combos_sound(Seq::empty(), 0, deck.len() as int, 5);
    let k1 = choose|k: int| 0 <= k < deals(deck).len() && deals(deck)[k] == c1;
    let k2 = choose|k: int| 0 <= k < deals(deck).len() && deals(deck)[k] == c2;
    assert(increasing_extension(deals(deck)[k1], Seq::empty(), 0, deck.len() as int, 5));
    assert(increasing_extension(deals(deck)[k2], Seq::empty(), 0, deck.len() as int, 5));
    let x1 = cards_at(deck, c1);
    let x2 = cards_at(deck, c2);
    let s1 = sort_by_rank_desc(x1);
    let s2 = sort_by_rank_desc(x2);
    lemma_sort_counts(x1);
    lemma_sort_counts(x2);
    assert forall|i: int| 0 <= i < 5 implies s1[i] == s2[i] by {
        lemma_board_number_slot(s1, i);
        lemma_board_number_slot(s2, i);
        lemma_card_number_injective(s1[i], s2[i]);
    }
    assert(s1 =~= s2);
    assert forall|y: usize| c1.to_set().contains(y) implies c2.to_set().contains(y) by {
        let i = choose|i: int| 0 <= i < c1.len() && c1[i] == y;
        assert(x1[i] == deck[y as int]);
        lemma_sort_members(x1, x1[i]);
        lemma_sort_members(x2, x1[i]);
        let j = choose|j: int| 0 <= j < x2.len() && x2[j] == x1[i];
        assert(deck[c2[j] as int] == deck[c1[i] as int]);
        assert(c2[j] == c1[i]);
    }
    assert forall|y: usize| c2.to_set().contains(y) implies c1.to_set().contains(y) by {
        let i = choose|i: int| 0 <= i < c2.len() && c2[i] == y;
        assert(x2[i] == deck[y as int]);
        lemma_sort_members(x2, x2[i]);
        lemma_sort_members(x1, x2[i]);
        let j = choose|j: int| 0 <= j < x1.len() && x1[j] == x2[i];
        assert(deck[c1[j] as int] == deck[c2[i] as int]);
        assert(c1[j] == c2[i]);
    }
    assert(c1.to_set() =~= c2.to_set());
    lemma_increasing_unique(c1, c2);
}

/// A deal's packed board holds a card's number in one of its five slots exactly when the
/// card is one of the deal's cards; so the boards that `agg` matches against a partial
/// board are the deals that hold every card of it.
pub proof fn lemma_board_of_holds(deck: Seq<Card>, c: Seq<usize>, x: Card, filter: Seq<Card>)
    requires
        deals(deck).contains(c),
        deck.len() <= usize::MAX,
    ensures
        board_has(board_of(deck, c), card_number(x) as u64) <==> cards_at(deck, c).contains(x),
        matches_filter(card_numbers(filter))(board_of(deck, c)) <==> forall|k: int|
            0 <= k < filter.len() ==> cards_at(deck, c).contains(#[trigger] filter[k]),
{
    lemma_combos_sound(Seq::empty(), 0, deck.len() as int, 5);
    let k0 = choose|k: int| 0 <= k < deals(deck).len() && deals(deck)[k] == c;
    assert(increasing_extension(deals(deck)[k0], Seq::empty(), 0, deck.len() as int, 5));
    let xs = cards_at(deck, c);
    let srt = sort_by_rank_desc(xs);
    let b = board_of(deck, c);
    lemma_sort_counts(xs);
    assert(srt.len() == 5);
    assert forall|y: Card| board_has(b, card_number(y) as u64) <==> xs.contains(y) by {
        lemma_sort_members(xs, y);
        if board_has(b, card_number(y) as u64) {
            let i = choose|i: int| 0 <= i < 5 && #[trigger] slot(b, i) == card_number(y) as u64;
            lemma_board_number_slot(srt, i);
            lemma_card_number_injective(srt[i], y);
            assert(srt[i] == y);
        }
        if xs.contains(y) {
            let i = choose|i: int| 0 <= i < srt.len() && srt[i] == y;
            lemma_board_number_slot(srt, i);
            assert(slot(b, i) == card_number(y) as u64);
        }
    }
    let f = card_numbers(filter);
    assert forall|k: int| 0 <= k < filter.len() implies board_has(b, #[trigger] f[k]) == xs.contains(
        filter[k],
    ) by {
        assert(f[k] == card_number(filter[k]) as u64);
    }
    if matches_filter(f)(b) {
        assert forall|k: int| 0 <= k < filter.len() implies xs.contains(#[trigger] filter[k]) by {
            assert(board_has(b, f[k]));
        }
    }
    if forall|k: int| 0 <= k < filter.len() ==> xs.contains(#[trigger] filter[k]) {
        assert forall|j: int| 0 <= j < f.len() implies board_has(b, #[trigger] f[j]) by {
            assert(xs.contains(filter[j]));
        }
    }
}

/// The cards of a deal, with a player's two cards, are seven different cards.
proof fn lemma_deal_cards(players: Seq<Player>, deck: Seq<Card>, c: Seq<usize>, j: int)
    requires
        valid_table(players, deck),
        deck.len() <= usize::MAX,
        0 <= j < players.len(),
        increasing_extension(c, Seq::empty(), 0, deck.len() as int, 5),
    ensures
        ranks_at_most_four(players[j].hand@ + sort_by_rank_desc(cards_at(deck, c))),
        (players[j].hand@ + sort_by_rank_desc(cards_at(deck, c))).len() == 7,
{
    let x = cards_at(deck, c);
    let s = sort_by_rank_desc(x);
    let h = players[j].hand@;
    assert(players[j].hand@[0] != players[j].hand@[1]);
    assert(!deck.contains(h[0]) && !deck.contains(h[1]));
    lemma_sort_counts(x);
    assert(x.no_duplicates()) by {
        assert forall|a: int, b: int| 0 <= a < 5 && 0 <= b < 5 && a != b implies x[a] != x[b] by {
            if a < b {
                assert(c[a] < c[b]);
            } else {
                assert(c[b] < c[a]);
            }
            assert(deck[c[a] as int] != deck[c[b] as int]);
        }
    }
    x.unique_seq_to_set();
    assert(s.to_set() =~= x.to_set()) by {
        assert forall|y: Card| s.to_set().contains(y) <==> x.to_set().contains(y) by {
            lemma_sort_members(x, y);
        }
    }
    s.lemma_no_dup_set_cardinality();
    let all = h + s;
    assert(all.no_duplicates()) by {
        assert forall|a: int, b: int| 0 <= a < 7 && 0 <= b < 7 && a != b implies all[a] != all[b] by {
            if a >= 2 && b >= 2 {
                assert(all[a] == s[a - 2] && all[b] == s[b - 2]);
            } else if a < 2 && b < 2 {
            } else {
                let (hi, si) = if a < 2 {
                    (a, b - 2)
                } else {
                    (b, a - 2)
                };
                assert(s.contains(s[si]));
                lemma_sort_members(x, s[si]);
                let k = choose|k: int| 0 <= k < x.len() && x[k] == s[si];
                assert(deck.contains(deck[c[k] as int]));
                assert(h[hi] != s[si]);
            }
        }
    }
    lemma_distinct_ranks(all);
}

/// Every player's cards with every board that the deck deals hold no rank more than four
/// times (the evaluation's own condition).
pub open spec fn playable(players: Seq<Player>, deck: Seq<Card>) -> bool {
    forall|c: Seq<usize>, j: int|
        #![trigger deals(deck).contains(c), players[j]]
        deals(deck).contains(c) && 0 <= j < players.len() ==> ranks_at_most_four(
            players[j].hand@ + sort_by_rank_desc(cards_at(deck, c)),
        )
}

/// A table of distinct cards and keys can be played: each hand with each board is seven
/// different cards.
pub proof fn lemma_valid_table_playable(players: Seq<Player>, deck: Seq<Card>)
    requires
        valid_table(players, deck),
        deck.len() <= usize::MAX,
    ensures
        playable(players, deck),
{
    lemma_combos_sound(Seq::empty(), 0, deck.len() as int, 5);
    assert forall|c: Seq<usize>, j: int|
        #![trigger deals(deck).contains(c), players[j]]
        deals(deck).contains(c) && 0 <= j < players.len() implies ranks_at_most_four(
        players[j].hand@ + sort_by_rank_desc(cards_at(deck, c)),
    ) by {
        let k = choose|k: int| 0 <= k < deals(deck).len() && deals(deck)[k] == c;
        assert(increasing_extension(deals(deck)[k], Seq::empty(), 0, deck.len() as int, 5));
        lemma_deal_cards(players, deck, c, j);
    }
}

/// Every deal with every player has an entry under the deal's packed board and the
/// player's key (with no players, nothing is recorded).
pub open spec fn covers_all(
    t: Map<u64, Map<u8, EvalResult>>,
    players: Seq<Player>,
    deck: Seq<Card>,
) -> bool {
    forall|c: Seq<usize>|
        #[trigger] deals(deck).contains(c) ==> {
            &&& players.len() > 0 ==> t.contains_key(board_of(deck, c))
            &&& forall|j: int|
                0 <= j < players.len() ==> t[board_of(deck, c)].contains_key(
                    #[trigger] players[j].player_key,
                )
        }
}

/// The `k`-th deal, as the deck deals them, and the `jj`-th player write under board `b`
/// and key `key`.
pub open spec fn writes_at(players: Seq<Player>, deck: Seq<Card>, k: int, jj: int, b: u64, key: u8) -> bool {
    &&& 0 <= k < deals(deck).len()
    &&& 0 <= jj < players.len()
    &&& board_of(deck, deals(deck)[k]) == b
    &&& players[jj].player_key == key
}

/// The pair (`k2`, `jj2`) comes no later than (`k`, `jj`): an earlier deal, or the same deal
/// and a player no later in the list.
pub open spec fn no_later(k2: int, jj2: int, k: int, jj: int) -> bool {
    k2 < k || (k2 == k && jj2 <= jj)
}

/// Every entry is the result that the last writer there recorded: of all the pairs of a
/// deal and a player that write under that board and key, the one with the latest deal,
/// and on it the latest player.
pub open spec fn entries_traced(
    t: Map<u64, Map<u8, EvalResult>>,
    players: Seq<Player>,
    deck: Seq<Card>,
) -> bool {
    forall|b: u64, key: u8|
        t.contains_key(b) && #[trigger] t[b].contains_key(key) ==> exists|k: int, jj: int|
            #![trigger deals(deck)[k], players[jj]]
            {
                &&& writes_at(players, deck, k, jj, b, key)
                &&& t[b][key] == result_on(players[jj], deck, deals(deck)[k])
                &&& forall|k2: int, jj2: int|
                    #[trigger] writes_at(players, deck, k2, jj2, b, key) ==> no_later(k2, jj2, k, jj)
            }
}

/// Every board held is the packed number of a deal.
pub open spec fn boards_traced(t: Map<u64, Map<u8, EvalResult>>, deck: Seq<Card>) -> bool {
    forall|b: u64|
        #[trigger] t.contains_key(b) ==> exists|c: Seq<usize>|
            #[trigger] deals(deck).contains(c) && board_of(deck, c) == b
}

/// Every deal with every player holds that player's result on the deal.
pub open spec fn exact_results(
    t: Map<u64, Map<u8, EvalResult>>,
    players: Seq<Player>,
    deck: Seq<Card>,
) -> bool {
    forall|c: Seq<usize>, j: int|
        #![trigger deals(deck).contains(c), players[j]]
        deals(deck).contains(c) && 0 <= j < players.len() ==> t[board_of(
            deck,
            c,
        )][players[j].player_key] == result_on(players[j], deck, c)
}

/// The `jj`-th player's cards with the `k`-th deal hold no rank more than four times, and the
/// results hold an entry for them; for a table of distinct cards and keys, it is that
/// player's result on that deal.
spec fn cell_held(
    t: Map<u64, Map<u8, EvalResult>>,
    players: Seq<Player>,
    deck: Seq<Card>,
    k: int,
    jj: int,
) -> bool {
    let c = deals(deck)[k];
    let b = board_of(deck, c);
    let key = players[jj].player_key;
    &&& ranks_at_most_four(players[jj].hand@ + sort_by_rank_desc(cards_at(deck, c)))
    &&& t.contains_key(b)
    &&& t[b].contains_key(key)
    &&& (valid_table(players, deck) ==> t[b][key] == result_on(players[jj], deck, c))
}

/// The entries for every deal before the `i`-th with every player, and for the `i`-th deal
/// with the players before the `j`-th, are held.
#[verifier::opaque]
spec fn rows_covered(
    t: Map<u64, Map<u8, EvalResult>>,
    players: Seq<Player>,
    deck: Seq<Card>,
    i: int,
    j: int,
) -> bool {
    forall|k: int, jj: int|
        #![trigger cell_held(t, players, deck, k, jj)]
        0 <= jj < players.len() && (0 <= k < i || (k == i && jj < j)) ==> cell_held(
            t,
            players,
            deck,
            k,
            jj,
        )
}

/// The pair of the `k`-th deal and the `jj`-th player comes before the cursor at the `i`-th
/// deal and the `j`-th player.
spec fn processed(players: Seq<Player>, k: int, jj: int, i: int, j: int) -> bool {
    &&& 0 <= jj < players.len()
    &&& 0 <= k
    &&& (k < i || (k == i && jj < j))
}

/// The entry under `b` and `key` is the result of the last pair before the cursor that
/// writes there.
spec fn entry_from(
    t: Map<u64, Map<u8, EvalResult>>,
    players: Seq<Player>,
    deck: Seq<Card>,
    i: int,
    j: int,
    b: u64,
    key: u8,
) -> bool {
    exists|k: int, jj: int|
        #![trigger deals(deck)[k], players[jj]]
        {
            &&& processed(players, k, jj, i, j)
            &&& writes_at(players, deck, k, jj, b, key)
            &&& t[b][key] == result_on(players[jj], deck, deals(deck)[k])
            &&& forall|k2: int, jj2: int|
                processed(players, k2, jj2, i, j) && #[trigger] writes_at(players, deck, k2, jj2, b, key)
                    ==> no_later(k2, jj2, k, jj)
        }
}

/// `b` is the packed board of one of the first `m` deals.
spec fn board_from(deck: Seq<Card>, m: int, b: u64) -> bool {
    exists|k: int| 0 <= k < m && k < deals(deck).len() && #[trigger] board_of(deck, deals(deck)[k]) == b
}

/// How many deals the pairs before the cursor reach.
spec fn deals_reached(i: int, j: int) -> int {
    if j > 0 {
        i + 1
    } else {
        i
    }
}

/// Every held board and entry comes from the pairs before the cursor, each entry from the
/// last of them that writes there.
#[verifier::opaque]
spec fn traced(
    t: Map<u64, Map<u8, EvalResult>>,
    players: Seq<Player>,
    deck: Seq<Card>,
    i: int,
    j: int,
) -> bool {
    &&& forall|b: u64, key: u8|
        t.contains_key(b) && #[trigger] t[b].contains_key(key) ==> entry_from(
            t,
            players,
            deck,
            i,
            j,
            b,
            key,
        )
    &&& forall|b: u64| #[trigger] t.contains_key(b) ==> board_from(deck, deals_reached(i, j), b)
}

/// The deals are different increasing position sequences within the deck.
spec fn deals_ok(deck: Seq<Card>) -> bool {
    &&& deals(deck).no_duplicates()
    &&& forall|k: int|
        0 <= k < deals(deck).len() ==> increasing_extension(
            #[trigger] deals(deck)[k],
            Seq::empty(),
            0,
            deck.len() as int,
            5,
        )
}

proof fn lemma_start(players: Seq<Player>, deck: Seq<Card>)
    ensures
        rows_covered(Map::empty(), players, deck, 0, 0),
        traced(Map::empty(), players, deck, 0, 0),
{
    reveal(rows_covered);
    reveal(traced);
}

proof fn lemma_next_row(t: Map<u64, Map<u8, EvalResult>>, players: Seq<Player>, deck: Seq<Card>, i: int)
    requires
        rows_covered(t, players, deck, i, players.len() as int),
        traced(t, players, deck, i, players.len() as int),
    ensures
        rows_covered(t, players, deck, i + 1, 0),
        traced(t, players, deck, i + 1, 0),
{
    reveal(rows_covered);
    reveal(traced);
    let n = players.len() as int;
    assert forall|k: int, jj: int|
        #[trigger] processed(players, k, jj, i, n) == processed(players, k, jj, i + 1, 0) by {}
    assert forall|b: u64, key: u8| t.contains_key(b) && #[trigger] t[b].contains_key(key) implies entry_from(
        t,
        players,
        deck,
        i + 1,
        0,
        b,
        key,
    ) by {
        assert(entry_from(t, players, deck, i, n, b, key));
        let (k, jj) = choose|k: int, jj: int|
            #![trigger deals(deck)[k], players[jj]]
            {
                &&& processed(players, k, jj, i, n)
                &&& writes_at(players, deck, k, jj, b, key)
                &&& t[b][key] == result_on(players[jj], deck, deals(deck)[k])
                &&& forall|k2: int, jj2: int|
                    processed(players, k2, jj2, i, n) && #[trigger] writes_at(players, deck, k2, jj2, b, key)
                        ==> no_later(k2, jj2, k, jj)
            };
        assert(processed(players, k, jj, i + 1, 0));
        assert forall|k2: int, jj2: int|
            processed(players, k2, jj2, i + 1, 0) && #[trigger] writes_at(players, deck, k2, jj2, b, key)
                implies no_later(k2, jj2, k, jj) by {
            assert(processed(players, k2, jj2, i, n));
        }
        assert(deals(deck)[k] == deals(deck)[k] && players[jj] == players[jj]);
    }
    assert forall|b: u64| #[trigger] t.contains_key(b) implies board_from(deck, i + 1, b) by {
        assert(board_from(deck, deals_reached(i, n), b));
        let k = choose|k: int|
            0 <= k < deals_reached(i, n) && k < deals(deck).len() && #[trigger] board_of(deck, deals(deck)[k]) == b;
        assert(board_of(deck, deals(deck)[k]) == b);
    }
}

/// After the entry for the `i`-th deal and the `j`-th player is recorded, the rows cover
/// one more cell, and the cursor moves past that pair.
proof fn lemma_record_step(
    before: Map<u64, Map<u8, EvalResult>>,
    after: Map<u64, Map<u8, EvalResult>>,
    players: Seq<Player>,
    deck: Seq<Card>,
    i: int,
    j: int,
)
    requires
        deals_ok(deck),
        deck.len() <= usize::MAX,
        0 <= i < deals(deck).len(),
        0 <= j < players.len(),
        rows_covered(before, players, deck, i, j),
        traced(before, players, deck, i, j),
        ranks_at_most_four(players[j].hand@ + sort_by_rank_desc(cards_at(deck, deals(deck)[i]))),
        after == recorded(
            before,
            board_of(deck, deals(deck)[i]),
            players[j].player_key,
            result_on(players[j], deck, deals(deck)[i]),
        ),
    ensures
        rows_covered(after, players, deck, i, j + 1),
        traced(after, players, deck, i, j + 1),
{
    lemma_record_rows(before, after, players, deck, i, j);
    lemma_record_traced(before, after, players, deck, i, j);
}

proof fn lemma_record_rows(
    before: Map<u64, Map<u8, EvalResult>>,
    after: Map<u64, Map<u8, EvalResult>>,
    players: Seq<Player>,
    deck: Seq<Card>,
    i: int,
    j: int,
)
    requires
        deals_ok(deck),
        deck.len() <= usize::MAX,
        0 <= i < deals(deck).len(),
        0 <= j < players.len(),
        rows_covered(before, players, deck, i, j),
        ranks_at_most_four(players[j].hand@ + sort_by_rank_desc(cards_at(deck, deals(deck)[i]))),
        after == recorded(
            before,
            board_of(deck, deals(deck)[i]),
            players[j].player_key,
            result_on(players[j], deck, deals(deck)[i]),
        ),
    ensures
        rows_covered(after, players, deck, i, j + 1),
{
    reveal(rows_covered);
    let ds = deals(deck);
    let c = ds[i];
    let bk = board_of(deck, c);
    let key_j = players[j].player_key;
    let v = result_on(players[j], deck, c);
    let vt = valid_table(players, deck);
    assert(after.contains_key(bk) && after[bk].contains_key(key_j) && after[bk][key_j] == v);
    assert forall|k: int, jj: int|
        0 <= jj < players.len() && (0 <= k < i || (k == i && jj < j + 1)) implies #[trigger] cell_held(
        after,
        players,
        deck,
        k,
        jj,
    ) by {
        if !(k == i && jj == j) {
            assert(cell_held(before, players, deck, k, jj));
            let bb = board_of(deck, ds[k]);
            let key = players[jj].player_key;
            assert(after.contains_key(bb));
            if bb == bk {
                assert(after[bb].contains_key(key));
                if vt && key == key_j {
                    assert(players[jj].player_key == players[j].player_key);
                    assert(jj == j);
                    assert(ds.contains(ds[k]));
                    assert(ds.contains(c));
                    lemma_board_of_injective(deck, ds[k], c);
                }
            } else {
                assert(after[bb] == before[bb]);
            }
        }
    }
}

proof fn lemma_record_traced(
    before: Map<u64, Map<u8, EvalResult>>,
    after: Map<u64, Map<u8, EvalResult>>,
    players: Seq<Player>,
    deck: Seq<Card>,
    i: int,
    j: int,
)
    requires
        0 <= i < deals(deck).len(),
        0 <= j < players.len(),
        traced(before, players, deck, i, j),
        after == recorded(
            before,
            board_of(deck, deals(deck)[i]),
            players[j].player_key,
            result_on(players[j], deck, deals(deck)[i]),
        ),
    ensures
        traced(after, players, deck, i, j + 1),
{
    reveal(traced);
    let ds = deals(deck);
    let c = ds[i];
    let bk = board_of(deck, c);
    let key_j = players[j].player_key;
    assert(writes_at(players, deck, i, j, bk, key_j));
    assert(processed(players, i, j, i, j + 1));
    assert forall|k: int, jj: int|
        #[trigger] processed(players, k, jj, i, j + 1) == (processed(players, k, jj, i, j) || (k == i
            && jj == j)) by {}
    assert forall|b: u64, key: u8| after.contains_key(b) && #[trigger] after[b].contains_key(key) implies entry_from(
        after,
        players,
        deck,
        i,
        j + 1,
        b,
        key,
    ) by {
        if b == bk && key == key_j {
            assert forall|k2: int, jj2: int|
                processed(players, k2, jj2, i, j + 1) && #[trigger] writes_at(players, deck, k2, jj2, b, key)
                    implies no_later(k2, jj2, i, j) by {}
            assert(ds[i] == c && players[j] == players[j]);
        } else {
            assert(before.contains_key(b) && before[b].contains_key(key));
            assert(after[b][key] == before[b][key]);
            assert(entry_from(before, players, deck, i, j, b, key));
            let (k, jj) = choose|k: int, jj: int|
                #![trigger ds[k], players[jj]]
                {
                    &&& processed(players, k, jj, i, j)
                    &&& writes_at(players, deck, k, jj, b, key)
                    &&& before[b][key] == result_on(players[jj], deck, ds[k])
                    &&& forall|k2: int, jj2: int|
                        processed(players, k2, jj2, i, j) && #[trigger] writes_at(players, deck, k2, jj2, b, key)
                            ==> no_later(k2, jj2, k, jj)
                };
            assert forall|k2: int, jj2: int|
                processed(players, k2, jj2, i, j + 1) && #[trigger] writes_at(players, deck, k2, jj2, b, key)
                    implies no_later(k2, jj2, k, jj) by {
                if k2 == i && jj2 == j {
                    assert(board_of(deck, ds[i]) == b && players[j].player_key == key);
                } else {
                    assert(processed(players, k2, jj2, i, j));
                }
            }
            assert(ds[k] == ds[k] && players[jj] == players[jj]);
        }
    }
    assert forall|b: u64| #[trigger] after.contains_key(b) implies board_from(deck, i + 1, b) by {
        if b == bk {
            assert(board_of(deck, ds[i]) == b);
        } else {
            assert(before.contains_key(b));
            assert(board_from(deck, deals_reached(i, j), b));
            let k = choose|k: int|
                0 <= k < deals_reached(i, j) && k < ds.len() && #[trigger] board_of(deck, ds[k]) == b;
            assert(board_of(deck, ds[k]) == b);
        }
    }
}

proof fn lemma_finish_rows(t: Map<u64, Map<u8, EvalResult>>, players: Seq<Player>, deck: Seq<Card>)
    requires
        rows_covered(t, players, deck, deals(deck).len() as int, 0),
    ensures
        covers_all(t, players, deck),
        playable(players, deck),
        valid_table(players, deck) ==> exact_results(t, players, deck),
{
    reveal(rows_covered);
    let ds = deals(deck);
    assert forall|cc: Seq<usize>| #[trigger] deals(deck).contains(cc) implies {
        &&& players.len() > 0 ==> t.contains_key(board_of(deck, cc))
        &&& forall|j: int|
            0 <= j < players.len() ==> t[board_of(deck, cc)].contains_key(
                #[trigger] players[j].player_key,
            )
    } by {
        let k = choose|k: int| 0 <= k < ds.len() && ds[k] == cc;
        assert(players.len() > 0 ==> cell_held(t, players, deck, k, 0));
        assert forall|j: int|
            0 <= j < players.len() implies t[board_of(deck, cc)].contains_key(
            #[trigger] players[j].player_key,
        ) by {
            assert(cell_held(t, players, deck, k, j));
        }
    }
    assert forall|cc: Seq<usize>, j: int|
        #![trigger deals(deck).contains(cc), players[j]]
        deals(deck).contains(cc) && 0 <= j < players.len() implies ranks_at_most_four(
        players[j].hand@ + sort_by_rank_desc(cards_at(deck, cc)),
    ) by {
        let k = choose|k: int| 0 <= k < ds.len() && ds[k] == cc;
        assert(cell_held(t, players, deck, k, j));
    }
    if valid_table(players, deck) {
        assert forall|cc: Seq<usize>, j: int|
            #![trigger deals(deck).contains(cc), players[j]]
            deals(deck).contains(cc) && 0 <= j < players.len() implies t[board_of(
                deck,
                cc,
            )][players[j].player_key] == result_on(players[j], deck, cc) by {
            let k = choose|k: int| 0 <= k < ds.len() && ds[k] == cc;
            assert(cell_held(t, players, deck, k, j));
        }
    }
}

proof fn lemma_finish_traced(t: Map<u64, Map<u8, EvalResult>>, players: Seq<Player>, deck: Seq<Card>)
    requires
        traced(t, players, deck, deals(deck).len() as int, 0),
    ensures
        entries_traced(t, players, deck),
        boards_traced(t, deck),
{
    reveal(traced);
    let ds = deals(deck);
    let n = ds.len() as int;
    assert forall|b: u64, key: u8| t.contains_key(b) && #[trigger] t[b].contains_key(key) implies exists|
        k: int,
        jj: int,
    |
        #![trigger ds[k], players[jj]]
        {
            &&& writes_at(players, deck, k, jj, b, key)
            &&& t[b][key] == result_on(players[jj], deck, ds[k])
            &&& forall|k2: int, jj2: int|
                #[trigger] writes_at(players, deck, k2, jj2, b, key) ==> no_later(k2, jj2, k, jj)
        } by {
        assert(entry_from(t, players, deck, n, 0, b, key));
        let (k, jj) = choose|k: int, jj: int|
            #![trigger ds[k], players[jj]]
            {
                &&& processed(players, k, jj, n, 0)
                &&& writes_at(players, deck, k, jj, b, key)
                &&& t[b][key] == result_on(players[jj], deck, ds[k])
                &&& forall|k2: int, jj2: int|
                    processed(players, k2, jj2, n, 0) && #[trigger] writes_at(players, deck, k2, jj2, b, key)
                        ==> no_later(k2, jj2, k, jj)
            };
        assert forall|k2: int, jj2: int| #[trigger] writes_at(players, deck, k2, jj2, b, key) implies no_later(
            k2,
            jj2,
            k,
            jj,
        ) by {
            assert(processed(players, k2, jj2, n, 0));
        }
        assert(ds[k] == ds[k] && players[jj] == players[jj]);
    }
    assert forall|b: u64| #[trigger] t.contains_key(b) implies exists|cc: Seq<usize>|
        #[trigger] deals(deck).contains(cc) && board_of(deck, cc) == b by {
        assert(board_from(deck, deals_reached(n, 0), b));
        let k = choose|k: int| 0 <= k < deals_reached(n, 0) && k < ds.len() && #[trigger] board_of(deck, ds[k]) == b;
        assert(ds.contains(ds[k]));
    }
}

/// Whether a hand with a board holds no rank more than four times.
fn fits_with(hand: &[Card], board: &[Card]) -> (b: bool)
    ensures
        b == ranks_at_most_four(hand@ + board@),
{
    let mut all = vstd::slice::slice_to_vec(hand);
    let mut rest = vstd::slice::slice_to_vec(board);
    all.append(&mut rest);
    ranks_fit(all.as_slice())
}

/// Evaluates every player's hand on every five-card board that the deck can deal, and
/// records each result under the board's packed number and the player's key (a later
/// result for the same board and key replaces an earlier one). Gives `None` where some
/// player's cards with some board hold a rank more than four times, which the evaluation
/// cannot rank.
pub fn evaluate_all(players: &Vec<Player>, deck: &Vec<Card>) -> (r: Option<ResultsManager>)
    ensures
        r is Some <==> playable(players@, deck@),
        r matches Some(m) ==> all_boards_played(m@),
        r matches Some(m) ==> covers_all(m@, players@, deck@),
        r matches Some(m) ==> entries_traced(m@, players@, deck@),
        r matches Some(m) ==> boards_traced(m@, deck@),
        r matches Some(m) ==> (valid_table(players@, deck@) ==> exact_results(
            m@,
            players@,
            deck@,
        )),
{
    let mut combinations: Vec<Vec<usize>> = Vec::new();
    let mut curr: Vec<usize> = Vec::new();
    comb(&mut curr, 0, deck.len(), 5, &mut combinations);
    let ghost ds = deals(deck@);
    assert(views(combinations@) == ds) by {
        assert(views(Seq::<Vec<usize>>::empty()) =~= Seq::<Seq<usize>>::empty());
    }
    proof {
        lemma_combos_sound(Seq::empty(), 0, deck@.len() as int, 5);
        lemma_combos_distinct(Seq::empty(), 0, deck@.len() as int, 5);
        lemma_start(players@, deck@);
    }
    let mut results = ResultsManager::new();
    let mut i: usize = 0;
    while i < combinations.len()
        invariant
            i <= combinations@.len(),
            deck@.len() <= usize::MAX,
            views(combinations@) == ds,
            ds == deals(deck@),
            deals_ok(deck@),
            rows_covered(results@, players@, deck@, i as int, 0),
            traced(results@, players@, deck@, i as int, 0),
            all_boards_played(results@),
        decreases combinations@.len() - i,
    {
        let ghost c = ds[i as int];
        let idx = &combinations[i];
        assert(idx@ == c);
        assert(increasing_extension(ds[i as int], Seq::empty(), 0, deck@.len() as int, 5));
        let mut cards: Vec<Card> = Vec::new();
        let mut m: usize = 0;
        while m < idx.len()
            invariant
                m <= idx@.len(),
                idx@ == c,
                increasing_extension(c, Seq::empty(), 0, deck@.len() as int, 5),
                cards@ == cards_at(deck@, c.take(m as int)),
            decreases idx@.len() - m,
        {
            assert(c.take(m + 1) == c.take(m as int).push(c[m as int]));
            cards.push(deck[idx[m]]);
            assert(cards@ =~= cards_at(deck@, c.take(m + 1)));
            m = m + 1;
        }
        assert(c.take(c.len() as int) == c);
        let sorted = sort_cards_desc(cards.as_slice());
        proof {
            lemma_sort_counts(cards@);
            assert(ds.contains(c));
        }
        let board_key = encode_board(sorted.as_slice());
        let mut j: usize = 0;
        while j < players.len()
            invariant
                j <= players@.len(),
                i < ds.len(),
                c == ds[i as int],
                ds.contains(c),
                sorted@ == sort_by_rank_desc(cards_at(deck@, c)),
                sorted@.len() == 5,
                board_key == board_of(deck@, c),
                ds == deals(deck@),
                deals_ok(deck@),
                deck@.len() <= usize::MAX,
                rows_covered(results@, players@, deck@, i as int, j as int),
                traced(results@, players@, deck@, i as int, j as int),
                all_boards_played(results@),
            decreases players@.len() - j,
        {
            let player = &players[j];
            if !fits_with(&player.hand, sorted.as_slice()) {
                assert(!playable(players@, deck@)) by {
                    assert(deals(deck@).contains(c));
                    assert(players@[j as int] == *player);
                }
                return None;
            }
            let result = eval(&player.hand, &sorted);
            let ghost before = results@;
            results.insert(board_key, player.player_key, result);
            assert(result == result_on(players@[j as int], deck@, c));
            proof {
                lemma_record_step(before, results@, players@, deck@, i as int, j as int);
            }
            j = j + 1;
        }
        proof {
            lemma_next_row(results@, players@, deck@, i as int);
        }
        i = i + 1;
    }
    proof {
        assert(ds.len() == views(combinations@).len());
        lemma_finish_rows(results@, players@, deck@);
        lemma_finish_traced(results@, players@, deck@);
    }
    Some(results)
}

} // verus!
