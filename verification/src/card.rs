use vstd::prelude::*;
use vstd::string::StringExecFns;

verus! {

/// The four suits. Their order here fixes their index (0 to 3).
#[derive(Clone, Copy, PartialEq, Eq, Structural, Debug, Hash)]
pub enum Suit {
    Spades,
    Clubs,
    Hearts,
    Diamonds,
}

/// The thirteen ranks, from lowest to highest. Their order fixes their value (0 to 12).
#[derive(Clone, Copy, PartialEq, Eq, Structural, Debug, Hash)]
pub enum Rank {
    Two,
    Three,
    Four,
    Five,
    Six,
    Seven,
    Eight,
    Nine,
    Ten,
    Jack,
    Queen,
    King,
    Ace,
}

/// The categories of a made hand, from weakest to strongest.
#[derive(Clone, Copy, PartialEq, Eq, Structural, Debug, Hash)]
pub enum HandType {
    HighCard,
    Pair,
    TwoPair,
    ThreeOfAKind,
    Straight,
    Flush,
    FullHouse,
    FourOfAKind,
    StraightFlush,
    RoyalFlush,
}

/// A playing card.
#[derive(Clone, Copy, PartialEq, Eq, Structural, Debug, Hash)]
pub struct Card {
    pub rank: Rank,
    pub suit: Suit,
}

impl Suit {
    pub open spec fn value(self) -> nat {
        match self {
            Suit::Spades => 0,
            Suit::Clubs => 1,
            Suit::Hearts => 2,
            Suit::Diamonds => 3,
        }
    }

    /// The index of the suit (0 to 3).
    pub fn index(&self) -> (r: u8)
        ensures
            r == self.value(),
            r < 4,
    {
        match self {
            Suit::Spades => 0,
            Suit::Clubs => 1,
            Suit::Hearts => 2,
            Suit::Diamonds => 3,
        }
    }

    /// The suit whose index is `i`.
    pub fn from_index(i: u8) -> (s: Suit)
        requires
            i < 4,
        ensures
            s.value() == i,
            s == suit_with_value(i as int),
    {
        if i == 0 {
            Suit::Spades
        } else if i == 1 {
            Suit::Clubs
        } else if i == 2 {
            Suit::Hearts
        } else {
            Suit::Diamonds
        }
    }
}

/// The suit whose index is `v` (indices from 3 up stand for Diamonds).
pub open spec fn suit_with_value(v: int) -> Suit {
    if v <= 0 {
        Suit::Spades
    } else if v == 1 {
        Suit::Clubs
    } else if v == 2 {
        Suit::Hearts
    } else {
        Suit::Diamonds
    }
}

/// The rank whose value is `v` (values from 12 up stand for the Ace).
pub open spec fn rank_with_value(v: int) -> Rank {
    if v <= 0 {
        Rank::Two
    } else if v == 1 {
        Rank::Three
    } else if v == 2 {
        Rank::Four
    } else if v == 3 {
        Rank::Five
    } else if v == 4 {
        Rank::Six
    } else if v == 5 {
        Rank::Seven
    } else if v == 6 {
        Rank::Eight
    } else if v == 7 {
        Rank::Nine
    } else if v == 8 {
        Rank::Ten
    } else if v == 9 {
        Rank::Jack
    } else if v == 10 {
        Rank::Queen
    } else if v == 11 {
        Rank::King
    } else {
        Rank::Ace
    }
}

impl Rank {
    pub open spec fn value(self) -> nat {
        match self {
            Rank::Two => 0,
            Rank::Three => 1,
            Rank::Four => 2,
            Rank::Five => 3,
            Rank::Six => 4,
            Rank::Seven => 5,
            Rank::Eight => 6,
            Rank::Nine => 7,
            Rank::Ten => 8,
            Rank::Jack => 9,
            Rank::Queen => 10,
            Rank::King => 11,
            Rank::Ace => 12,
        }
    }

    /// The value of the rank (0 for Two up to 12 for Ace).
    pub fn index(&self) -> (r: u8)
        ensures
            r == self.value(),
            r < 13,
    {
        match self {
            Rank::Two => 0,
            Rank::Three => 1,
            Rank::Four => 2,
            Rank::Five => 3,
            Rank::Six => 4,
            Rank::Seven => 5,
            Rank::Eight => 6,
            Rank::Nine => 7,
            Rank::Ten => 8,
            Rank::Jack => 9,
            Rank::Queen => 10,
            Rank::King => 11,
            Rank::Ace => 12,
        }
    }

    /// The rank whose value is `v`.
    pub fn from_index(v: u8) -> (r: Rank)
        requires
            v < 13,
        ensures
            r.value() == v,
            r == rank_with_value(v as int),
    {
        if v == 0 {
            Rank::Two
        } else if v == 1 {
            Rank::Three
        } else if v == 2 {
            Rank::Four
        } else if v == 3 {
            Rank::Five
        } else if v == 4 {
            Rank::Six
        } else if v == 5 {
            Rank::Seven
        } else if v == 6 {
            Rank::Eight
        } else if v == 7 {
            Rank::Nine
        } else if v == 8 {
            Rank::Ten
        } else if v == 9 {
            Rank::Jack
        } else if v == 10 {
            Rank::Queen
        } else if v == 11 {
            Rank::King
        } else {
            Rank::Ace
        }
    }
}

/// Each rank is the rank of its own value, and the value of a rank below 13 names it.
pub proof fn lemma_rank_value_roundtrip(r: Rank, v: int)
    ensures
        rank_with_value(r.value() as int) == r,
        0 <= v < 13 ==> rank_with_value(v).value() == v,
        r.value() < 13,
{
}

impl HandType {
    pub open spec fn value(self) -> nat {
        match self {
            HandType::HighCard => 0,
            HandType::Pair => 1,
            HandType::TwoPair => 2,
            HandType::ThreeOfAKind => 3,
            HandType::Straight => 4,
            HandType::Flush => 5,
            HandType::FullHouse => 6,
            HandType::FourOfAKind => 7,
            HandType::StraightFlush => 8,
            HandType::RoyalFlush => 9,
        }
    }

    /// The strength of the category (0 for a high card up to 9 for a royal flush).
    pub fn index(&self) -> (r: u8)
        ensures
            r == self.value(),
            r < 10,
    {
        match self {
            HandType::HighCard => 0,
            HandType::Pair => 1,
            HandType::TwoPair => 2,
            HandType::ThreeOfAKind => 3,
            HandType::Straight => 4,
            HandType::Flush => 5,
            HandType::FullHouse => 6,
            HandType::FourOfAKind => 7,
            HandType::StraightFlush => 8,
            HandType::RoyalFlush => 9,
        }
    }

    /// The category whose strength is `v`.
    pub fn from_index(v: u8) -> (h: HandType)
        requires
            v < 10,
        ensures
            h.value() == v,
    {
        if v == 0 {
            HandType::HighCard
        } else if v == 1 {
            HandType::Pair
        } else if v == 2 {
            HandType::TwoPair
        } else if v == 3 {
            HandType::ThreeOfAKind
        } else if v == 4 {
            HandType::Straight
        } else if v == 5 {
            HandType::Flush
        } else if v == 6 {
            HandType::FullHouse
        } else if v == 7 {
            HandType::FourOfAKind
        } else if v == 8 {
            HandType::StraightFlush
        } else {
            HandType::RoyalFlush
        }
    }

    /// The name under which the category is shown.
    pub fn to_string(&self) -> (s: String)
        ensures
            s@ == hand_type_name(*self),
    {
        let name = match self {
            HandType::HighCard => "High Card",
            HandType::Pair => "Pair",
            HandType::TwoPair => "Two Pair",
            HandType::ThreeOfAKind => "Three of a Kind",
            HandType::Straight => "Straight",
            HandType::Flush => "Flush",
            HandType::FullHouse => "Full House",
            HandType::FourOfAKind => "Four of a Kind",
            HandType::StraightFlush => "Straight Flush",
            HandType::RoyalFlush => "Royal Flush",
        };
        String::from_str(name)
    }
}

/// The name of each hand category.
pub open spec fn hand_type_name(h: HandType) -> Seq<char> {
    match h {
        HandType::HighCard => "High Card"@,
        HandType::Pair => "Pair"@,
        HandType::TwoPair => "Two Pair"@,
        HandType::ThreeOfAKind => "Three of a Kind"@,
        HandType::Straight => "Straight"@,
        HandType::Flush => "Flush"@,
        HandType::FullHouse => "Full House"@,
        HandType::FourOfAKind => "Four of a Kind"@,
        HandType::StraightFlush => "Straight Flush"@,
        HandType::RoyalFlush => "Royal Flush"@,
    }
}

/// How a rank is shown.
pub open spec fn value_symbol(r: Rank) -> Seq<char> {
    match r {
        Rank::Two => "2"@,
        Rank::Three => "3"@,
        Rank::Four => "4"@,
        Rank::Five => "5"@,
        Rank::Six => "6"@,
        Rank::Seven => "7"@,
        Rank::Eight => "8"@,
        Rank::Nine => "9"@,
        Rank::Ten => "T"@,
        Rank::Jack => "J"@,
        Rank::Queen => "Q"@,
        Rank::King => "K"@,
        Rank::Ace => "A"@,
    }
}

/// The symbol of a suit.
pub open spec fn suit_symbol(s: Suit) -> Seq<char> {
    match s {
        Suit::Spades => "\u{2660}"@,
        Suit::Clubs => "\u{2663}"@,
        Suit::Hearts => "\u{2665}"@,
        Suit::Diamonds => "\u{2666}"@,
    }
}

/// The terminal colour in which a suit is shown.
pub open spec fn suit_color(s: Suit) -> Seq<char> {
    match s {
        Suit::Spades => "\x1b[90m"@,
        Suit::Clubs => "\x1b[32m"@,
        Suit::Hearts => "\x1b[31m"@,
        Suit::Diamonds => "\x1b[34m"@,
    }
}

/// How a card is shown: in its suit's colour, the suit symbol then the rank, then the
/// colour reset.
pub open spec fn card_text(c: Card) -> Seq<char> {
    suit_color(c.suit) + suit_symbol(c.suit) + value_symbol(c.rank) + "\x1b[0m"@
}

fn value_str(r: Rank) -> (s: &'static str)
    ensures
        s@ == value_symbol(r),
{
    match r {
        Rank::Two => "2",
        Rank::Three => "3",
        Rank::Four => "4",
        Rank::Five => "5",
        Rank::Six => "6",
        Rank::Seven => "7",
        Rank::Eight => "8",
        Rank::Nine => "9",
        Rank::Ten => "T",
        Rank::Jack => "J",
        Rank::Queen => "Q",
        Rank::King => "K",
        Rank::Ace => "A",
    }
}

fn suit_str(s: Suit) -> (r: &'static str)
    ensures
        r@ == suit_symbol(s),
{
    match s {
        Suit::Spades => "\u{2660}",
        Suit::Clubs => "\u{2663}",
        Suit::Hearts => "\u{2665}",
        Suit::Diamonds => "\u{2666}",
    }
}

fn color_str(s: Suit) -> (r: &'static str)
    ensures
        r@ == suit_color(s),
{
    match s {
        Suit::Spades => "\x1b[90m",
        Suit::Clubs => "\x1b[32m",
        Suit::Hearts => "\x1b[31m",
        Suit::Diamonds => "\x1b[34m",
    }
}

/// The rank that a lower-case input character names (the Ace as `a` or as `1`).
pub open spec fn rank_of_char(c: char) -> Option<Rank> {
    if c == '2' {
        Some(Rank::Two)
    } else if c == '3' {
        Some(Rank::Three)
    } else if c == '4' {
        Some(Rank::Four)
    } else if c == '5' {
        Some(Rank::Five)
    } else if c == '6' {
        Some(Rank::Six)
    } else if c == '7' {
        Some(Rank::Seven)
    } else if c == '8' {
        Some(Rank::Eight)
    } else if c == '9' {
        Some(Rank::Nine)
    } else if c == 't' {
        Some(Rank::Ten)
    } else if c == 'j' {
        Some(Rank::Jack)
    } else if c == 'q' {
        Some(Rank::Queen)
    } else if c == 'k' {
        Some(Rank::King)
    } else if c == 'a' || c == '1' {
        Some(Rank::Ace)
    } else {
        None
    }
}

/// The suit that a lower-case input character names.
pub open spec fn suit_of_char(c: char) -> Option<Suit> {
    if c == 'c' {
        Some(Suit::Clubs)
    } else if c == 'd' {
        Some(Suit::Diamonds)
    } else if c == 'h' {
        Some(Suit::Hearts)
    } else if c == 's' {
        Some(Suit::Spades)
    } else {
        None
    }
}

/// The character that names a rank in input.
pub open spec fn rank_char(r: Rank) -> char {
    match r {
        Rank::Two => '2',
        Rank::Three => '3',
        Rank::Four => '4',
        Rank::Five => '5',
        Rank::Six => '6',
        Rank::Seven => '7',
        Rank::Eight => '8',
        Rank::Nine => '9',
        Rank::Ten => 't',
        Rank::Jack => 'j',
        Rank::Queen => 'q',
        Rank::King => 'k',
        Rank::Ace => 'a',
    }
}

/// The character that names a suit in input.
pub open spec fn suit_char(s: Suit) -> char {
    match s {
        Suit::Spades => 's',
        Suit::Clubs => 'c',
        Suit::Hearts => 'h',
        Suit::Diamonds => 'd',
    }
}

/// The two-character input code of a card, such as "ah" for the Ace of Hearts.
pub open spec fn card_code(c: Card) -> Seq<char> {
    seq![rank_char(c.rank), suit_char(c.suit)]
}

/// What an input text names: its first character is the rank, its second the suit;
/// anything after them is not read.
pub open spec fn parse_card(s: Seq<char>) -> Option<Card> {
    if s.len() < 2 {
        None
    } else {
        match (rank_of_char(s[0]), suit_of_char(s[1])) {
            (Some(r), Some(su)) => Some(Card { rank: r, suit: su }),
            _ => None,
        }
    }
}

/// The number that stands for a card: four times the rank's value plus the suit's index.
pub open spec fn card_number(c: Card) -> nat {
    c.rank.value() * 4 + c.suit.value()
}

/// The 6-bit codes of the cards packed into one integer, card `i` in bits `6i` to `6i + 5`.
pub open spec fn board_number(cards: Seq<Card>) -> u64
    decreases cards.len(),
{
    if cards.len() == 0 {
        0
    } else {
        let k = (cards.len() - 1) as int;
        (board_number(cards.drop_last()) | ((card_number(cards.last()) as u64) << ((6 * k) as u64))) as u64
    }
}

/// Reading a card's own code gives back the card.
pub proof fn lemma_parse_card_code(c: Card)
    ensures
        parse_card(card_code(c)) == Some(c),
{
}

/// A text that reads as a card starts with that card's code, or, for an Ace, with `1` and
/// the suit's character: two texts name one card only where they differ past the second
/// character or spell the Ace both ways.
pub proof fn lemma_parse_card_unique(s: Seq<char>, c: Card)
    requires
        parse_card(s) == Some(c),
    ensures
        s.take(2) == card_code(c) || (c.rank == Rank::Ace && s.take(2) == seq!['1', suit_char(c.suit)]),
{
    assert(suit_char(c.suit) == s[1]);
    if s[0] == '1' {
        assert(s.take(2) =~= seq!['1', suit_char(c.suit)]);
    } else {
        assert(rank_char(c.rank) == s[0]);
        assert(s.take(2) =~= card_code(c));
    }
}

/// A card's number is below 52 and no two cards share one.
pub proof fn lemma_card_number_injective(a: Card, b: Card)
    ensures
        card_number(a) < 52,
        card_number(a) == card_number(b) ==> a == b,
{
}

proof fn lemma_board_number_bound(cards: Seq<Card>)
    requires
        cards.len() <= 10,
    ensures
        board_number(cards) < (1u64 << ((6 * cards.len()) as u64)),
    decreases cards.len(),
{
    if cards.len() > 0 {
        let k = (cards.len() - 1) as int;
        lemma_board_number_bound(cards.drop_last());
        let a = board_number(cards.drop_last());
        let e = card_number(cards.last()) as u64;
        let sh = (6 * k) as u64;
        assert(e < 64);
        assert(sh <= 54);
        assert(a < (1u64 << sh) && e < 64 && sh <= 54 ==> (a | (e << sh)) < (1u64 << (
        (sh + 6) as u64))) by (bit_vector);
    } else {
        assert(0u64 < (1u64 << 0u64)) by (bit_vector);
    }
}

/// Each card's number can be read back from its 6-bit slot of the packed board (for up to
/// ten cards, all of whose slots fit in 64 bits).
pub proof fn lemma_board_number_slot(cards: Seq<Card>, i: int)
    requires
        cards.len() <= 10,
        0 <= i < cards.len(),
    ensures
        (board_number(cards) >> ((6 * i) as u64)) & 63 == card_number(cards[i]),
    decreases cards.len(),
{
    let k = (cards.len() - 1) as int;
    let a = board_number(cards.drop_last());
    let e = card_number(cards.last()) as u64;
    let sh = (6 * k) as u64;
    let t = (6 * i) as u64;
    assert(e < 64);
    if i < k {
        lemma_board_number_slot(cards.drop_last(), i);
        assert(e < 64 && t + 6 <= sh && sh <= 54 ==> ((a | (e << sh)) >> t) & 63 == (a >> t) & 63)
            by (bit_vector);
    } else {
        lemma_board_number_bound(cards.drop_last());
        assert(a < (1u64 << sh) && e < 64 && sh <= 54 ==> ((a | (e << sh)) >> sh) & 63 == e)
            by (bit_vector);
    }
}

fn rank_from_char(c: char) -> (r: Option<Rank>)
    ensures
        r == rank_of_char(c),
{
    if c == '2' {
        Some(Rank::Two)
    } else if c == '3' {
        Some(Rank::Three)
    } else if c == '4' {
        Some(Rank::Four)
    } else if c == '5' {
        Some(Rank::Five)
    } else if c == '6' {
        Some(Rank::Six)
    } else if c == '7' {
        Some(Rank::Seven)
    } else if c == '8' {
        Some(Rank::Eight)
    } else if c == '9' {
        Some(Rank::Nine)
    } else if c == 't' {
        Some(Rank::Ten)
    } else if c == 'j' {
        Some(Rank::Jack)
    } else if c == 'q' {
        Some(Rank::Queen)
    } else if c == 'k' {
        Some(Rank::King)
    } else if c == 'a' || c == '1' {
        Some(Rank::Ace)
    } else {
        None
    }
}

fn suit_from_char(c: char) -> (r: Option<Suit>)
    ensures
        r == suit_of_char(c),
{
    if c == 'c' {
        Some(Suit::Clubs)
    } else if c == 'd' {
        Some(Suit::Diamonds)
    } else if c == 'h' {
        Some(Suit::Hearts)
    } else if c == 's' {
        Some(Suit::Spades)
    } else {
        None
    }
}

impl Card {
    /// The card as shown: coloured suit symbol and rank.
    pub fn to_string(&self) -> (r: String)
        ensures
            r@ == card_text(*self),
    {
        let mut out = String::from_str(color_str(self.suit));
        out.append(suit_str(self.suit));
        out.append(value_str(self.rank));
        out.append("\x1b[0m");
        out
    }

    /// Reads a card from its input code: a rank character (`2`-`9`, `t`, `j`, `q`, `k`, and
    /// `a` or `1` for the Ace) then a suit character (`c`, `d`, `h`, `s`). Further characters
    /// are ignored.
    pub fn from_str(s: &str) -> (r: Option<Card>)
        ensures
            r == parse_card(s@),
    {
        let mut chars = s.chars();
        let first = chars.next();
        let second = chars.next();
        match (first, second) {
            (Some(a), Some(b)) => {
                assert(s@.len() >= 2);
                match (rank_from_char(a), suit_from_char(b)) {
                    (Some(rank), Some(suit)) => Some(Card { rank, suit }),
                    _ => None,
                }
            },
            _ => None,
        }
    }

    /// Reads every text of the list as a card; `None` as soon as one is not a card.
    pub fn from_list(l: &[&str]) -> (r: Option<Vec<Card>>)
        ensures
            match r {
                Some(v) => v@.len() == l@.len() && forall|i: int|
                    0 <= i < l@.len() ==> parse_card(#[trigger] l@[i]@) == Some(v@[i]),
                None => exists|i: int| 0 <= i < l@.len() && (#[trigger] parse_card(l@[i]@)) is None,
            },
    {
        let mut out: Vec<Card> = Vec::new();
        let mut i: usize = 0;
        while i < l.len()
            invariant
                i <= l@.len(),
                out@.len() == i,
                forall|j: int| 0 <= j < i ==> parse_card(#[trigger] l@[j]@) == Some(out@[j]),
            decreases l@.len() - i,
        {
            match Card::from_str(l[i]) {
                Some(c) => out.push(c),
                None => return None,
            }
            i = i + 1;
        }
        Some(out)
    }
}

/// A player: two hole cards and the key that names the player.
pub struct Player {
    pub hand: [Card; 2],
    pub player_key: u8,
}

impl Player {
    /// A player holding the two cards that the texts name; `None` where one is not a card.
    pub fn initiate(hand: [&str; 2], player_key: u8) -> (r: Option<Player>)
        ensures
            match r {
                Some(p) => {
                    &&& parse_card(hand@[0]@) == Some(p.hand@[0])
                    &&& parse_card(hand@[1]@) == Some(p.hand@[1])
                    &&& p.player_key == player_key
                },
                None => parse_card(hand@[0]@) is None || parse_card(hand@[1]@) is None,
            },
    {
        if let Some(cards) = Card::from_list(&hand) {
            assert(parse_card(hand@[0]@) == Some(cards@[0]));
            assert(parse_card(hand@[1]@) == Some(cards@[1]));
            return Some(Player { hand: [cards[0], cards[1]], player_key });
        }
        None
    }
}

/// The number that stands for a card, below 52 and different for different cards.
pub fn encode_card(card: &Card) -> (r: u64)
    ensures
        r == card_number(*card),
        r < 52,
{
    (card.rank.index() as u64) * 4 + (card.suit.index() as u64)
}

/// Packs the cards' numbers in 6-bit slots, the first card in the lowest slot.
pub fn encode_board(cards: &[Card]) -> (r: u64)
    requires
        cards@.len() <= 11,
    ensures
        r == board_number(cards@),
{
    let mut acc: u64 = 0;
    let mut i: usize = 0;
    while i < cards.len()
        invariant
            i <= cards@.len(),
            cards@.len() <= 11,
            acc == board_number(cards@.take(i as int)),
        decreases cards@.len() - i,
    {
        let code = encode_card(&cards[i]);
        assert(cards@.take(i + 1).drop_last() == cards@.take(i as int));
        acc = acc | (code << ((i * 6) as u64));
        i = i + 1;
    }
    assert(cards@.take(cards@.len() as int) == cards@);
    acc
}

/// The lower-case form of an ASCII letter; other characters stay as they are.
pub open spec fn ascii_lower(ch: char) -> char {
    if 65 <= (ch as u32) <= 90 {
        ((ch as u32) + 32) as char
    } else {
        ch
    }
}

/// A rank is shown as one character whose lower-case form is the character that names the
/// rank in input, so the rank shown reads back as the same rank.
pub proof fn lemma_rank_shown_reads_back(r: Rank)
    ensures
        value_symbol(r).len() == 1,
        ascii_lower(value_symbol(r)[0]) == rank_char(r),
        rank_of_char(ascii_lower(value_symbol(r)[0])) == Some(r),
{
    match r {
        Rank::Two => reveal_strlit("2"),
        Rank::Three => reveal_strlit("3"),
        Rank::Four => reveal_strlit("4"),
        Rank::Five => reveal_strlit("5"),
        Rank::Six => reveal_strlit("6"),
        Rank::Seven => reveal_strlit("7"),
        Rank::Eight => reveal_strlit("8"),
        Rank::Nine => reveal_strlit("9"),
        Rank::Ten => reveal_strlit("T"),
        Rank::Jack => reveal_strlit("J"),
        Rank::Queen => reveal_strlit("Q"),
        Rank::King => reveal_strlit("K"),
        Rank::Ace => reveal_strlit("A"),
    }
}

/// Each suit is shown in a colour code of five characters and a symbol of one character,
/// and different suits have different symbols.
proof fn lemma_suit_shown(su: Suit)
    ensures
        suit_color(su).len() == 5,
        suit_symbol(su).len() == 1,
        suit_symbol(su)[0] == (if su == Suit::Spades {
            '\u{2660}'
        } else if su == Suit::Clubs {
            '\u{2663}'
        } else if su == Suit::Hearts {
            '\u{2665}'
        } else {
            '\u{2666}'
        }),
{
    match su {
        Suit::Spades => {
            reveal_strlit("\x1b[90m");
            reveal_strlit("\u{2660}");
        },
        Suit::Clubs => {
            reveal_strlit("\x1b[32m");
            reveal_strlit("\u{2663}");
        },
        Suit::Hearts => {
            reveal_strlit("\x1b[31m");
            reveal_strlit("\u{2665}");
        },
        Suit::Diamonds => {
            reveal_strlit("\x1b[34m");
            reveal_strlit("\u{2666}");
        },
    }
}

/// How a card is shown tells the card: the text has eleven characters, the sixth of which is
/// the suit's symbol and the seventh the rank, which read back (lower-cased, with the suit's
/// input character) as the same card; different cards are shown differently.
pub proof fn lemma_card_shown_reads_back(c: Card, d: Card)
    ensures
        card_text(c).len() == 11,
        card_text(c)[5] == suit_symbol(c.suit)[0],
        parse_card(seq![ascii_lower(card_text(c)[6]), suit_char(c.suit)]) == Some(c),
        card_text(c) == card_text(d) ==> c == d,
{
    lemma_rank_shown_reads_back(c.rank);
    lemma_rank_shown_reads_back(d.rank);
    lemma_suit_shown(c.suit);
    lemma_suit_shown(d.suit);
    reveal_strlit("\x1b[0m");
    let tc = card_text(c);
    let td = card_text(d);
    assert(tc[5] == suit_symbol(c.suit)[0]);
    assert(tc[6] == value_symbol(c.rank)[0]);
    assert(td[5] == suit_symbol(d.suit)[0]);
    assert(td[6] == value_symbol(d.rank)[0]);
    assert(seq![ascii_lower(tc[6]), suit_char(c.suit)][0] == rank_char(c.rank));
    if tc == td {
        assert(rank_of_char(rank_char(c.rank)) == Some(c.rank));
        assert(c.suit == d.suit);
        assert(c.rank == d.rank);
    }
}

/// Different hand categories have different names, and a full house is named "Full House".
pub proof fn lemma_hand_type_names(a: HandType, b: HandType)
    ensures
        hand_type_name(a) == hand_type_name(b) ==> a == b,
        hand_type_name(HandType::FullHouse) == "Full House"@,
{
    reveal_strlit("High Card");
    reveal_strlit("Pair");
    reveal_strlit("Two Pair");
    reveal_strlit("Three of a Kind");
    reveal_strlit("Straight");
    reveal_strlit("Flush");
    reveal_strlit("Full House");
    reveal_strlit("Four of a Kind");
    reveal_strlit("Straight Flush");
    reveal_strlit("Royal Flush");
    let na = hand_type_name(a);
    let nb = hand_type_name(b);
    if na == nb {
        assert(na.len() == nb.len());
        assert(na[0] == nb[0]);
        if na.len() > 5 {
            assert(na[5] == nb[5]);
        }
    }
}

} // verus!
