# poker_equity

A Texas hold'em equity calculator. Given each player's two hole cards, it evaluates
every player's best hand on every five-card board that the remaining deck can deal,
and then, for a partial board, counts how often each player wins alone, how often
groups of players share the pot, and which hand categories each player makes.

The library under `src/` is verified with Verus:

- `card` — suits, ranks, cards and players; reading cards from input, showing them,
  and packing them into numbers.
- `tracker` — counting ranks and groups of equal ranks among a set of cards.
- `seqs`, `straight` — sequence lemmas, and finding the highest straight.
- `hand` — evaluating the best five-card hand and its score.
- `invariance` — the evaluation does not depend on the order of the cards or on the
  names of the suits.
- `monotone` — one more card never lowers the score, and no part of the cards beats
  all of them.
- `combos` — listing the increasing choices of positions.
- `results` — storing results per board and player, and aggregating them.
- `deck` — the deck, drawing random cards, and the input rules of a session.
- `simulate` — evaluating every hand on every board the deck deals.
- `equity` — the counts over stored boards are counts of deals: the deals that hold a
  partial board, and those on which a player, or a group of players, scores highest.

`app/` is the interactive terminal program around the library.
