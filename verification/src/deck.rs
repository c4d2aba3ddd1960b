use vstd::prelude::*;
use rand::seq::SliceRandom;
use vstd::string::StringSliceAdditionalSpecFns;

use crate::card::{Card, Player, Rank, Suit, card_number, lemma_rank_value_roundtrip, parse_card,
    rank_with_value, suit_with_value};
use crate::tracker::{contains_card, not_among};

verus! {

broadcast use Seq::lemma_filter_push;

/// The thread's random generator of the `rand` crate.
#[verifier::external_type_specification]
#[verifier::external_body]
pub struct ExThreadRng(rand::rngs::ThreadRng);

/// The card at position `i` of a fresh deck: ranks from the Two up, the four suits in turn
/// within each rank.
pub open spec fn deck_card(i: int) -> Card {
    Card { rank: rank_with_value(i / 4), suit: suit_with_value(i % 4) }
}

/// The fresh deck holds every card exactly once: the card at position `i` is the one whose
/// number (as `encode_card` gives it) is `i`, and every card has a number below 52.
pub proof fn lemma_deck_card_numbers(c: Card, i: int)
    ensures
        card_number(c) < 52,
        deck_card(card_number(c) as int) == c,
        0 <= i < 52 ==> card_number(deck_card(i)) == i,
{
    lemma_rank_value_roundtrip(c.rank, i / 4);
    let n = card_number(c) as int;
    assert(n / 4 == c.rank.value() && n % 4 == c.suit.value()) by (nonlinear_arith)
        requires
            n == c.rank.value() * 4 + c.suit.value(),
            c.suit.value() < 4,
    ;
    if 0 <= i < 52 {
        assert(0 <= i / 4 < 13 && 0 <= i % 4 < 4 && i == (i / 4) * 4 + i % 4) by (nonlinear_arith)
            requires
                0 <= i < 52,
        ;
    }
}

/// The 52 cards, ranks from the Two up, each rank in the four suits in turn.
pub fn full_deck() -> (r: Vec<Card>)
    ensures
        r@.len() == 52,
        forall|i: int| 0 <= i < 52 ==> #[trigger] r@[i] == deck_card(i),
{
    let mut out: Vec<Card> = Vec::new();
    let mut rank: u8 = 0;
    while rank < 13
        invariant
            rank <= 13,
            out@.len() == 4 * rank,
            forall|i: int| 0 <= i < out@.len() ==> #[trigger] out@[i] == deck_card(i),
        decreases 13 - rank,
    {
        let mut suit: u8 = 0;
        while suit < 4
            invariant
                rank < 13,
                suit <= 4,
                out@.len() == 4 * rank + suit,
                forall|i: int| 0 <= i < out@.len() ==> #[trigger] out@[i] == deck_card(i),
            decreases 4 - suit,
        {
            let ghost i = out@.len() as int;
            assert(i / 4 == rank as int && i % 4 == suit as int);
            out.push(Card { rank: Rank::from_index(rank), suit: Suit::from_index(suit) });
            suit = suit + 1;
        }
        rank = rank + 1;
    }
    out
}

/// The cards, in order, that do not occur in `used`.
pub fn remaining_cards(cards: &[Card], used: &[Card]) -> (r: Vec<Card>)
    ensures
        r@ == cards@.filter(not_among(used@)),
{
    let mut out: Vec<Card> = Vec::new();
    let mut i: usize = 0;
    while i < cards.len()
        invariant
            i <= cards@.len(),
            out@ == cards@.take(i as int).filter(not_among(used@)),
        decreases cards@.len() - i,
    {
        assert(cards@.take(i + 1) == cards@.take(i as int).push(cards@[i as int]));
        if !contains_card(used, &cards[i]) {
            out.push(cards[i]);
        }
        i = i + 1;
    }
    assert(cards@.take(cards@.len() as int) == cards@);
    out
}

/// Each of `r` is an element of `cards`, no two taken from the same position.
pub open spec fn picked_at_distinct_positions(r: Seq<Card>, cards: Seq<Card>) -> bool {
    exists|pos: Seq<int>|
        {
            &&& pos.len() == r.len()
            &&& pos.no_duplicates()
            &&& forall|i: int|
                0 <= i < pos.len() ==> 0 <= #[trigger] pos[i] < cards.len() && r[i] == cards[pos[i]]
        }
}

/// Calls `SliceRandom::choose_multiple` on the cards and copies out the chosen ones. As its
/// source shows, it picks `min(amount, len)` elements at distinct positions of the slice, in
/// random order; which ones is left to chance and is not stated.
#[verifier::external_body]
fn choose_cards(cards: &[Card], rng: &mut rand::rngs::ThreadRng, amount: usize) -> (r: Vec<Card>)
    ensures
        r@.len() == (if amount <= cards@.len() {
            amount as int
        } else {
            cards@.len() as int
        }),
        picked_at_distinct_positions(r@, cards@),
{
    cards.choose_multiple(rng, amount).copied().collect()
}

/// Calls `SliceRandom::choose` on the cards: `None` for an empty slice, else one of its
/// elements, picked at random (which one is not stated).
#[verifier::external_body]
fn choose_card(cards: &[Card], rng: &mut rand::rngs::ThreadRng) -> (r: Option<Card>)
    ensures
        r is None <==> cards@.len() == 0,
        r matches Some(c) ==> cards@.contains(c),
{
    cards.choose(rng).copied()
}

/// Two cards drawn at random, at different positions, from the cards not yet used.
pub fn random_hand(all_cards: &[Card], used: &[Card], rng: &mut rand::rngs::ThreadRng) -> (r: [Card; 2])
    requires
        all_cards@.filter(not_among(used@)).len() >= 2,
    ensures
        picked_at_distinct_positions(r@, all_cards@.filter(not_among(used@))),
{
    let available = remaining_cards(all_cards, used);
    let picked = choose_cards(available.as_slice(), rng, 2);
    let r = [picked[0], picked[1]];
    assert(r@ =~= picked@);
    r
}

/// A card drawn at random from the cards that are not on the board.
pub fn random_board_card(all_cards: &[Card], board: &[Card], rng: &mut rand::rngs::ThreadRng) -> (r: Card)
    requires
        all_cards@.filter(not_among(board@)).len() > 0,
    ensures
        all_cards@.filter(not_among(board@)).contains(r),
{
    let available = remaining_cards(all_cards, board);
    match choose_card(available.as_slice(), rng) {
        Some(c) => c,
        None => available[0],
    }
}

/// Whether no card of the list is among `used`.
fn none_used(cards: &[Card], used: &[Card]) -> (r: bool)
    ensures
        r == (forall|i: int| 0 <= i < cards@.len() ==> !used@.contains(#[trigger] cards@[i])),
{
    let mut i: usize = 0;
    while i < cards.len()
        invariant
            i <= cards@.len(),
            forall|k: int| 0 <= k < i ==> !used@.contains(#[trigger] cards@[k]),
        decreases cards@.len() - i,
    {
        if contains_card(used, &cards[i]) {
            return false;
        }
        i = i + 1;
    }
    true
}

/// The player that two input texts describe, if both are cards and neither is among `used`.
pub fn player_from_input(hand: [&str; 2], player_key: u8, used: &[Card]) -> (r: Option<Player>)
    ensures
        match r {
            Some(p) => {
                &&& parse_card(hand@[0]@) == Some(p.hand@[0])
                &&& parse_card(hand@[1]@) == Some(p.hand@[1])
                &&& p.player_key == player_key
                &&& !used@.contains(p.hand@[0])
                &&& !used@.contains(p.hand@[1])
            },
            None => match (parse_card(hand@[0]@), parse_card(hand@[1]@)) {
                (Some(a), Some(b)) => used@.contains(a) || used@.contains(b),
                _ => true,
            },
        },
{
    match Player::initiate(hand, player_key) {
        Some(p) => {
            if none_used(&p.hand, used) {
                Some(p)
            } else {
                None
            }
        },
        None => None,
    }
}

/// A board holds each card at most once and none of the players' cards.
pub open spec fn board_ok(board: Seq<Card>, used: Seq<Card>) -> bool {
    &&& board.no_duplicates()
    &&& forall|i: int| 0 <= i < board.len() ==> !used.contains(#[trigger] board[i])
}

/// Putting on a card that is neither on the board nor among `used` (as `try_add_card` does
/// when it accepts one), or taking the last card off, keeps a board sound.
pub proof fn lemma_board_ok_push_pop(board: Seq<Card>, used: Seq<Card>, c: Card)
    requires
        board_ok(board, used),
    ensures
        !board.contains(c) && !used.contains(c) ==> board_ok(board.push(c), used),
        board.len() > 0 ==> board_ok(board.drop_last(), used),
{
    if !board.contains(c) && !used.contains(c) {
        let nb = board.push(c);
        assert forall|i: int, j: int| 0 <= i < nb.len() && 0 <= j < nb.len() && i != j implies nb[i]
            != nb[j] by {
            if i == board.len() {
                assert(board.contains(nb[j]));
            } else if j == board.len() {
                assert(board.contains(nb[i]));
            }
        }
        assert forall|i: int| 0 <= i < nb.len() implies !used.contains(#[trigger] nb[i]) by {
            if i < board.len() {
                assert(nb[i] == board[i]);
            }
        }
    }
    if board.len() > 0 {
        let nb = board.drop_last();
        assert forall|i: int, j: int| 0 <= i < nb.len() && 0 <= j < nb.len() && i != j implies nb[i]
            != nb[j] by {
            assert(nb[i] == board[i] && nb[j] == board[j]);
        }
        assert forall|i: int| 0 <= i < nb.len() implies !used.contains(#[trigger] nb[i]) by {
            assert(nb[i] == board[i]);
        }
    }
}

/// Puts the card that `text` names on the board, unless it is not a card, is on the board
/// already, or is in a player's hand. Returns whether the board changed.
pub fn try_add_card(board: &mut Vec<Card>, text: &str, used: &[Card]) -> (r: bool)
    ensures
        r == (match parse_card(text@) {
            Some(c) => !old(board)@.contains(c) && !used@.contains(c),
            None => false,
        }),
        r ==> final(board)@ == old(board)@.push(parse_card(text@)->0),
        !r ==> final(board)@ == old(board)@,
{
    match Card::from_str(text) {
        Some(c) => {
            if contains_card(board.as_slice(), &c) || contains_card(used, &c) {
                false
            } else {
                board.push(c);
                true
            }
        },
        None => false,
    }
}

/// The value of a string of decimal digit bytes.
pub open spec fn digits_value(s: Seq<u8>) -> int
    decreases s.len(),
{
    if s.len() == 0 {
        0
    } else {
        digits_value(s.drop_last()) * 10 + (s.last() - 48)
    }
}

/// The bytes are all decimal digits.
pub open spec fn all_digits(s: Seq<u8>) -> bool {
    forall|i: int| 0 <= i < s.len() ==> 48 <= #[trigger] s[i] <= 57
}

/// The number that `u8::from_str` reads from these bytes, if any: an optional `+`, then
/// one or more decimal digits whose value is at most 255.
pub open spec fn parse_u8(s: Seq<u8>) -> Option<int> {
    let d = if s.len() > 0 && s[0] == 43 {
        s.drop_first()
    } else {
        s
    };
    if d.len() > 0 && all_digits(d) && digits_value(d) <= 255 {
        Some(digits_value(d))
    } else {
        None
    }
}

proof fn lemma_digits_grow(d: Seq<u8>, k: int)
    requires
        all_digits(d),
        0 <= k <= d.len(),
    ensures
        digits_value(d) >= digits_value(d.take(k)),
        digits_value(d.take(k)) >= 0,
    decreases d.len(),
{
    if d.len() > 0 {
        assert forall|i: int| 0 <= i < d.drop_last().len() implies 48 <= #[trigger] d.drop_last()[i]
            <= 57 by {
            assert(d.drop_last()[i] == d[i]);
        }
        if k == d.len() {
            assert(d.take(k) =~= d);
            lemma_digits_grow(d.drop_last(), k - 1);
        } else {
            assert(d.take(k) =~= d.drop_last().take(k));
            lemma_digits_grow(d.drop_last(), k);
        }
    } else {
        assert(d.take(k) =~= d);
    }
}

/// Reads the number of players: a number from 1 to 23 (two hole cards each, with five
/// cards left for the board), written as `u8::from_str` reads it.
#[verifier::rlimit(30)]
pub fn parse_player_count(input: &str) -> (r: Option<u8>)
    ensures
        match parse_u8(input.spec_bytes()) {
            Some(n) => if 1 <= n <= 23 {
                r == Some(n as u8)
            } else {
                r is None
            },
            None => r is None,
        },
{
    let bytes = input.as_bytes();
    let ghost all = bytes@;
    let mut start: usize = 0;
    if bytes.len() > 0 && bytes[0] == 43 {
        start = 1;
    }
    let ghost d = all.subrange(start as int, all.len() as int);
    assert(d =~= if all.len() > 0 && all[0] == 43 {
        all.drop_first()
    } else {
        all
    });
    if start >= bytes.len() {
        return None;
    }
    let mut value: u32 = 0;
    let mut i: usize = start;
    while i < bytes.len()
        invariant
            start <= i <= bytes@.len(),
            bytes@ == all,
            all == input.spec_bytes(),
            d == all.subrange(start as int, all.len() as int),
            d == (if all.len() > 0 && all[0] == 43 {
                all.drop_first()
            } else {
                all
            }),
            all_digits(d.take(i - start)),
            value == digits_value(d.take(i - start)),
            value <= 255,
        decreases bytes@.len() - i,
    {
        let ghost k = i - start;
        assert(d.take(k + 1) =~= d.take(k).push(bytes@[i as int]));
        assert(d.take(k + 1).drop_last() =~= d.take(k));
        let c = bytes[i];
        if c < 48 || c > 57 {
            assert(!all_digits(d)) by {
                assert(d[k] == c);
            }
            return None;
        }
        let next = value * 10 + (c - 48) as u32;
        if next > 255 {
            proof {
                assert(digits_value(d.take(k + 1)) == next);
                assert(all_digits(d.take(k + 1)));
                if all_digits(d) {
                    lemma_digits_grow(d, k + 1);
                }
            }
            return None;
        }
        value = next;
        i = i + 1;
    }
    assert(d.take(i - start) =~= d);
    if value >= 1 && value <= 23 {
        Some(value as u8)
    } else {
        None
    }
}

/// The bytes are a number in decimal as `to_string` writes one: digits, with no leading
/// zero unless the number is zero itself.
pub open spec fn canonical_decimal(s: Seq<u8>) -> bool {
    &&& s.len() > 0
    &&& all_digits(s)
    &&& (s.len() == 1 || s[0] != 48)
}

/// The number that the input names, where it is some player's key plus one.
pub open spec fn names_player(s: Seq<u8>, players: Seq<Player>) -> bool {
    &&& canonical_decimal(s)
    &&& exists|j: int| 0 <= j < players.len() && #[trigger] players[j].player_key + 1 == digits_value(s)
}

/// The player whose hand breakdown the input asks for: where the input is written as the
/// number of some player (the key plus one), the position that number minus one names.
pub fn chosen_player(input: &str, players: &Vec<Player>) -> (r: Option<usize>)
    requires
        forall|j: int| 0 <= j < players@.len() ==> #[trigger] players@[j].player_key < 255,
    ensures
        r == (if names_player(input.spec_bytes(), players@) {
            Some((digits_value(input.spec_bytes()) - 1) as usize)
        } else {
            None
        }),
{
    let bytes = input.as_bytes();
    let ghost d = bytes@;
    if bytes.len() == 0 {
        return None;
    }
    let mut value: u32 = 0;
    let mut i: usize = 0;
    while i < bytes.len()
        invariant
            i <= bytes@.len(),
            bytes@ == d,
            d == input.spec_bytes(),
            all_digits(d.take(i as int)),
            value == digits_value(d.take(i as int)),
            value <= 255,
            forall|k: int| 0 <= k < players@.len() ==> #[trigger] players@[k].player_key < 255,
        decreases bytes@.len() - i,
    {
        assert(d.take(i + 1) =~= d.take(i as int).push(bytes@[i as int]));
        assert(d.take(i + 1).drop_last() =~= d.take(i as int));
        let c = bytes[i];
        if c < 48 || c > 57 {
            assert(!all_digits(d)) by {
                assert(d[i as int] == c);
            }
            return None;
        }
        let next = value * 10 + (c - 48) as u32;
        if next > 255 {
            proof {
                assert(digits_value(d.take(i + 1)) == next);
                assert(all_digits(d.take(i + 1)));
                if all_digits(d) {
                    lemma_digits_grow(d, i + 1);
                }
                assert(!names_player(d, players@));
            }
            return None;
        }
        value = next;
        i = i + 1;
    }
    assert(d.take(i as int) =~= d);
    if bytes.len() > 1 && bytes[0] == 48 {
        return None;
    }
    let mut j: usize = 0;
    while j < players.len()
        invariant
            j <= players@.len(),
            value == digits_value(d),
            canonical_decimal(d),
            d == input.spec_bytes(),
            forall|k: int| 0 <= k < j ==> #[trigger] players@[k].player_key + 1 != value,
            forall|k: int| 0 <= k < players@.len() ==> #[trigger] players@[k].player_key < 255,
        decreases players@.len() - j,
    {
        if players[j].player_key as u32 + 1 == value {
            assert(value >= 1);
            return Some((value - 1) as usize);
        }
        j = j + 1;
    }
    None
}

} // verus!
