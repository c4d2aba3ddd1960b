use vstd::prelude::*;
use vstd::relations::injective_on;

use crate::card::{Card, Player};
use crate::hand::EvalResult;
use crate::results::{card_numbers, matches_filter, matching_boards, tied_by, winners, won_alone};
use crate::simulate::{
    board_of, boards_traced, cards_at, covers_all, deals, entries_traced, exact_results,
    lemma_board_of_holds, lemma_board_of_injective, result_on, valid_table, writes_at,
};

verus! {

/// The keys of the players whose score on the deal is the highest.
pub open spec fn top_keys(players: Seq<Player>, deck: Seq<Card>, c: Seq<usize>) -> Set<u8> {
    Set::new(
        |q: u8|
            exists|j: int|
                #![trigger players[j]]
                0 <= j < players.len() && players[j].player_key == q && forall|jj: int|
                    0 <= jj < players.len() ==> result_on(#[trigger] players[jj], deck, c).score
                        <= result_on(players[j], deck, c).score,
    )
}

/// Holds of the deals that hold every card of the partial board.
pub open spec fn holds_board(deck: Seq<Card>, board: Seq<Card>) -> spec_fn(Seq<usize>) -> bool {
    |c: Seq<usize>| forall|k: int| 0 <= k < board.len() ==> cards_at(deck, c).contains(#[trigger] board[k])
}

/// Holds of the deals on which exactly the players with keys `w` have the highest score.
pub open spec fn topped_by(players: Seq<Player>, deck: Seq<Card>, w: Set<u8>) -> spec_fn(Seq<usize>) -> bool {
    |c: Seq<usize>| top_keys(players, deck, c) == w
}

/// What `evaluate_all` gives for a table of distinct cards and keys.
pub open spec fn evaluated(t: Map<u64, Map<u8, EvalResult>>, players: Seq<Player>, deck: Seq<Card>) -> bool {
    &&& covers_all(t, players, deck)
    &&& entries_traced(t, players, deck)
    &&& boards_traced(t, deck)
    &&& exact_results(t, players, deck)
}

/// The stored board of a deal holds a result for exactly the players' keys, and its
/// winners are the players with the highest score on the deal.
proof fn lemma_row(t: Map<u64, Map<u8, EvalResult>>, players: Seq<Player>, deck: Seq<Card>, c: Seq<usize>)
    requires
        evaluated(t, players, deck),
        valid_table(players, deck),
        deck.len() <= usize::MAX,
        players.len() > 0,
        deals(deck).contains(c),
    ensures
        t.contains_key(board_of(deck, c)),
        winners(t[board_of(deck, c)]) == top_keys(players, deck, c),
{
    let b = board_of(deck, c);
    let r = t[b];
    assert(t.contains_key(b) && r.contains_key(players[0].player_key));
    assert forall|q: u8| #[trigger] r.contains_key(q) implies exists|j: int|
        0 <= j < players.len() && #[trigger] players[j].player_key == q by {
        let (k, jj) = choose|k: int, jj: int|
            #![trigger deals(deck)[k], players[jj]]
            {
                &&& writes_at(players, deck, k, jj, b, q)
                &&& t[b][q] == result_on(players[jj], deck, deals(deck)[k])
                &&& forall|k2: int, jj2: int|
                    #[trigger] writes_at(players, deck, k2, jj2, b, q) ==> crate::simulate::no_later(
                        k2,
                        jj2,
                        k,
                        jj,
                    )
            };
        assert(players[jj].player_key == q);
    }
    assert forall|j: int| 0 <= j < players.len() implies r.contains_key(#[trigger] players[j].player_key)
        && r[players[j].player_key] == result_on(players[j], deck, c) by {
        assert(deals(deck).contains(c) && players[j] == players[j]);
    }
    assert forall|q: u8| winners(r).contains(q) <==> #[trigger] top_keys(players, deck, c).contains(q) by {
        if winners(r).contains(q) {
            let j = choose|j: int| 0 <= j < players.len() && #[trigger] players[j].player_key == q;
            assert forall|jj: int| 0 <= jj < players.len() implies result_on(#[trigger] players[jj], deck, c).score
                <= result_on(players[j], deck, c).score by {
                assert(r.contains_key(players[jj].player_key));
            }
        }
        if top_keys(players, deck, c).contains(q) {
            let j = choose|j: int|
                #![trigger players[j]]
                0 <= j < players.len() && players[j].player_key == q && forall|jj: int|
                    0 <= jj < players.len() ==> result_on(#[trigger] players[jj], deck, c).score
                        <= result_on(players[j], deck, c).score;
            assert(r.contains_key(q));
            assert forall|q2: u8| #[trigger] r.contains_key(q2) implies r[q2].score <= r[q].score by {
                let jj = choose|jj: int| 0 <= jj < players.len() && #[trigger] players[jj].player_key == q2;
                assert(r[q2] == result_on(players[jj], deck, c));
            }
            assert(winners(r).contains(q));
        }
    }
    assert(winners(r) =~= top_keys(players, deck, c));
}

/// The stored boards are exactly the packed boards of the deals, one for each deal.
proof fn lemma_boards_are_deals(t: Map<u64, Map<u8, EvalResult>>, players: Seq<Player>, deck: Seq<Card>)
    requires
        evaluated(t, players, deck),
        valid_table(players, deck),
        deck.len() <= usize::MAX,
        players.len() > 0,
    ensures
        t.dom() == deals(deck).to_set().map(|c: Seq<usize>| board_of(deck, c)),
        injective_on(|c: Seq<usize>| board_of(deck, c), deals(deck).to_set()),
        deals(deck).to_set().finite(),
{
    let bof = |c: Seq<usize>| board_of(deck, c);
    let ds = deals(deck).to_set();
    assert forall|b: u64| t.dom().contains(b) <==> #[trigger] ds.map(bof).contains(b) by {
        if t.dom().contains(b) {
            let c = choose|c: Seq<usize>| #[trigger] deals(deck).contains(c) && board_of(deck, c) == b;
            assert(ds.contains(c) && bof(c) == b);
        }
        if ds.map(bof).contains(b) {
            let c = choose|c: Seq<usize>| ds.contains(c) && b == bof(c);
            assert(deals(deck).contains(c) && players[0] == players[0]);
        }
    }
    assert(t.dom() =~= ds.map(bof));
    assert forall|c1: Seq<usize>, c2: Seq<usize>|
        ds.contains(c1) && ds.contains(c2) && #[trigger] bof(c1) == #[trigger] bof(c2) implies c1 == c2 by {
        lemma_board_of_injective(deck, c1, c2);
    }
    vstd::seq_lib::seq_to_set_is_finite(deals(deck));
}

/// Counting the stored boards that pass a test counts the deals that pass the matching test.
proof fn lemma_count_deals(
    t: Map<u64, Map<u8, EvalResult>>,
    players: Seq<Player>,
    deck: Seq<Card>,
    p: spec_fn(Seq<usize>) -> bool,
    q: spec_fn(u64) -> bool,
)
    requires
        evaluated(t, players, deck),
        valid_table(players, deck),
        deck.len() <= usize::MAX,
        players.len() > 0,
        forall|c: Seq<usize>| #[trigger] deals(deck).contains(c) ==> q(board_of(deck, c)) == p(c),
    ensures
        t.dom().filter(q).len() == deals(deck).to_set().filter(p).len(),
{
    lemma_boards_are_deals(t, players, deck);
    let bof = |c: Seq<usize>| board_of(deck, c);
    let ds = deals(deck).to_set();
    let x = ds.filter(p);
    let y = t.dom().filter(q);
    assert forall|b: u64| #[trigger] x.map(bof).contains(b) <==> y.contains(b) by {
        if x.map(bof).contains(b) {
            let c = choose|c: Seq<usize>| x.contains(c) && b == bof(c);
            assert(deals(deck).contains(c));
            assert(ds.map(bof).contains(b));
        }
        if y.contains(b) {
            assert(ds.map(bof).contains(b));
            let c = choose|c: Seq<usize>| ds.contains(c) && b == bof(c);
            assert(deals(deck).contains(c));
            assert(x.contains(c));
        }
    }
    assert(x.map(bof) =~= y);
    vstd::set_lib::lemma_set_subset_finite(ds, x);
    assert(injective_on(bof, x)) by {
        assert forall|c1: Seq<usize>, c2: Seq<usize>|
            x.contains(c1) && x.contains(c2) && #[trigger] bof(c1) == #[trigger] bof(c2) implies c1 == c2 by {
            assert(ds.contains(c1) && ds.contains(c2));
        }
    }
    vstd::set_lib::lemma_map_size(x, y, bof);
}

/// For the results of a table of distinct cards and keys, the counts that `agg` makes for a
/// partial board are counts of deals: the boards it counts are the deals that hold every card
/// of the partial board; those that a player wins alone are those deals on which that player
/// alone has the highest score; and those that a group of players shares are those deals on
/// which exactly that group has the highest score.
pub proof fn lemma_counts_are_deals(
    t: Map<u64, Map<u8, EvalResult>>,
    players: Seq<Player>,
    deck: Seq<Card>,
    board: Seq<Card>,
    p: u8,
    w: Set<u8>,
)
    requires
        evaluated(t, players, deck),
        valid_table(players, deck),
        deck.len() <= usize::MAX,
        players.len() > 0,
    ensures
        matching_boards(t, card_numbers(board)).len() == deals(deck).to_set().filter(
            holds_board(deck, board),
        ).len(),
        matching_boards(t, card_numbers(board)).filter(won_alone(t, p)).len() == deals(
            deck,
        ).to_set().filter(holds_board(deck, board)).filter(topped_by(players, deck, set![p])).len(),
        matching_boards(t, card_numbers(board)).filter(tied_by(t, w)).len() == deals(
            deck,
        ).to_set().filter(holds_board(deck, board)).filter(topped_by(players, deck, w)).len(),
{
    let f = card_numbers(board);
    let hb = holds_board(deck, board);
    assert forall|c: Seq<usize>| #[trigger] deals(deck).contains(c) implies matches_filter(f)(
        board_of(deck, c),
    ) == hb(c) by {
        lemma_board_of_holds(deck, c, board[0], board);
    }
    lemma_count_deals(t, players, deck, hb, matches_filter(f));
    let alone_p = |c: Seq<usize>| hb(c) && topped_by(players, deck, set![p])(c);
    let alone_q = |b: u64| matches_filter(f)(b) && won_alone(t, p)(b);
    assert forall|c: Seq<usize>| #[trigger] deals(deck).contains(c) implies alone_q(board_of(deck, c))
        == alone_p(c) by {
        lemma_row(t, players, deck, c);
    }
    lemma_count_deals(t, players, deck, alone_p, alone_q);
    assert(matching_boards(t, f).filter(won_alone(t, p)) =~= t.dom().filter(alone_q));
    assert(deals(deck).to_set().filter(hb).filter(topped_by(players, deck, set![p])) =~= deals(
        deck,
    ).to_set().filter(alone_p));
    let tie_p = |c: Seq<usize>| hb(c) && topped_by(players, deck, w)(c);
    let tie_q = |b: u64| matches_filter(f)(b) && tied_by(t, w)(b);
    assert forall|c: Seq<usize>| #[trigger] deals(deck).contains(c) implies tie_q(board_of(deck, c))
        == tie_p(c) by {
        lemma_row(t, players, deck, c);
    }
    lemma_count_deals(t, players, deck, tie_p, tie_q);
    assert(matching_boards(t, f).filter(tied_by(t, w)) =~= t.dom().filter(tie_q));
    assert(deals(deck).to_set().filter(hb).filter(topped_by(players, deck, w)) =~= deals(
        deck,
    ).to_set().filter(tie_p));
}

} // verus!
