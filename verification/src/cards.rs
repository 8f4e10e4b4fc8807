use vstd::prelude::*;

verus! {

/// Card face value, `Two` lowest through `Ace` highest.
#[derive(Clone, Copy, PartialEq, Eq, Structural, Debug, Hash, PartialOrd, Ord)]
pub enum Value {
    Two,
    Three,
    Four,
    Five,
    Six,
    Seven,
    Eight,
    Nine,
    Ten,
    Jack,
    Queen,
    King,
    Ace,
}

/// Card suit. The enumeration order Clubs < Diamonds < Hearts < Spades is
/// load-bearing: it is the tie-break between cards of equal value, and the
/// order in which canonical labels are handed out.
#[derive(Clone, Copy, PartialEq, Eq, Structural, Debug, Hash, PartialOrd, Ord)]
pub enum Suit {
    Clubs,
    Diamonds,
    Hearts,
    Spades,
}

/// Face value as a number: 2 for `Two` up to 14 for `Ace`.
pub open spec fn value_index(v: Value) -> int {
    match v {
        Value::Two => 2,
        Value::Three => 3,
        Value::Four => 4,
        Value::Five => 5,
        Value::Six => 6,
        Value::Seven => 7,
        Value::Eight => 8,
        Value::Nine => 9,
        Value::Ten => 10,
        Value::Jack => 11,
        Value::Queen => 12,
        Value::King => 13,
        Value::Ace => 14,
    }
}

/// Position of a suit in the fixed enumeration order: 0 to 3.
pub open spec fn suit_index(s: Suit) -> int {
    match s {
        Suit::Clubs => 0,
        Suit::Diamonds => 1,
        Suit::Hearts => 2,
        Suit::Spades => 3,
    }
}

/// The suit at a given position of the enumeration order.
pub open spec fn spec_suit_from_index(i: int) -> Suit {
    if i == 0 {
        Suit::Clubs
    } else if i == 1 {
        Suit::Diamonds
    } else if i == 2 {
        Suit::Hearts
    } else {
        Suit::Spades
    }
}

/// The value whose numeric face value is `i` (2 to 14).
pub open spec fn spec_value_from_index(i: int) -> Value {
    if i == 2 {
        Value::Two
    } else if i == 3 {
        Value::Three
    } else if i == 4 {
        Value::Four
    } else if i == 5 {
        Value::Five
    } else if i == 6 {
        Value::Six
    } else if i == 7 {
        Value::Seven
    } else if i == 8 {
        Value::Eight
    } else if i == 9 {
        Value::Nine
    } else if i == 10 {
        Value::Ten
    } else if i == 11 {
        Value::Jack
    } else if i == 12 {
        Value::Queen
    } else if i == 13 {
        Value::King
    } else {
        Value::Ace
    }
}

pub fn value_index_of(v: Value) -> (r: u8)
    ensures
        r as int == value_index(v),
{
    match v {
        Value::Two => 2,
        Value::Three => 3,
        Value::Four => 4,
        Value::Five => 5,
        Value::Six => 6,
        Value::Seven => 7,
        Value::Eight => 8,
        Value::Nine => 9,
        Value::Ten => 10,
        Value::Jack => 11,
        Value::Queen => 12,
        Value::King => 13,
        Value::Ace => 14,
    }
}

pub fn suit_index_of(s: Suit) -> (r: u8)
    ensures
        r as int == suit_index(s),
{
    match s {
        Suit::Clubs => 0,
        Suit::Diamonds => 1,
        Suit::Hearts => 2,
        Suit::Spades => 3,
    }
}

pub fn suit_from_index(i: u8) -> (s: Suit)
    requires
        i < 4,
    ensures
        s == spec_suit_from_index(i as int),
        suit_index(s) == i as int,
{
    if i == 0 {
        Suit::Clubs
    } else if i == 1 {
        Suit::Diamonds
    } else if i == 2 {
        Suit::Hearts
    } else {
        Suit::Spades
    }
}

pub fn value_from_index(i: u8) -> (v: Value)
    requires
        2 <= i <= 14,
    ensures
        v == spec_value_from_index(i as int),
        value_index(v) == i as int,
{
    if i == 2 {
        Value::Two
    } else if i == 3 {
        Value::Three
    } else if i == 4 {
        Value::Four
    } else if i == 5 {
        Value::Five
    } else if i == 6 {
        Value::Six
    } else if i == 7 {
        Value::Seven
    } else if i == 8 {
        Value::Eight
    } else if i == 9 {
        Value::Nine
    } else if i == 10 {
        Value::Ten
    } else if i == 11 {
        Value::Jack
    } else if i == 12 {
        Value::Queen
    } else if i == 13 {
        Value::King
    } else {
        Value::Ace
    }
}

/// A playing card: a face value paired with a suit.
#[derive(Clone, Copy, PartialEq, Eq, Structural, Debug, Hash, PartialOrd, Ord)]
pub struct Card {
    pub value: Value,
    pub suit: Suit,
}

impl Value {
    /// Build the card with this value and the given suit.
    pub fn of(self, suit: Suit) -> (c: Card)
        ensures
            c == (Card { value: self, suit: suit }),
    {
        Card { value: self, suit }
    }

    /// One- or two-character label for this value.
    pub fn shorthand(self) -> (r: &'static str)
        ensures
            r@ == value_label(self),
    {
        match self {
            Value::Two => {
                proof {
                    reveal_strlit("2");
                }
                "2"
            },
            Value::Three => {
                proof {
                    reveal_strlit("3");
                }
                "3"
            },
            Value::Four => {
                proof {
                    reveal_strlit("4");
                }
                "4"
            },
            Value::Five => {
                proof {
                    reveal_strlit("5");
                }
                "5"
            },
            Value::Six => {
                proof {
                    reveal_strlit("6");
                }
                "6"
            },
            Value::Seven => {
                proof {
                    reveal_strlit("7");
                }
                "7"
            },
            Value::Eight => {
                proof {
                    reveal_strlit("8");
                }
                "8"
            },
            Value::Nine => {
                proof {
                    reveal_strlit("9");
                }
                "9"
            },
            Value::Ten => {
                proof {
                    reveal_strlit("10");
                }
                "10"
            },
            Value::Jack => {
                proof {
                    reveal_strlit("J");
                }
                "J"
            },
            Value::Queen => {
                proof {
                    reveal_strlit("Q");
                }
                "Q"
            },
            Value::King => {
                proof {
                    reveal_strlit("K");
                }
                "K"
            },
            Value::Ace => {
                proof {
                    reveal_strlit("A");
                }
                "A"
            },
        }
    }
}

/// The label each value's shorthand returns.
pub open spec fn value_label(v: Value) -> Seq<char> {
    match v {
        Value::Two => seq!['2'],
        Value::Three => seq!['3'],
        Value::Four => seq!['4'],
        Value::Five => seq!['5'],
        Value::Six => seq!['6'],
        Value::Seven => seq!['7'],
        Value::Eight => seq!['8'],
        Value::Nine => seq!['9'],
        Value::Ten => seq!['1', '0'],
        Value::Jack => seq!['J'],
        Value::Queen => seq!['Q'],
        Value::King => seq!['K'],
        Value::Ace => seq!['A'],
    }
}

/// The label each suit's shorthand returns.
pub open spec fn suit_label(s: Suit) -> Seq<char> {
    match s {
        Suit::Clubs => seq!['C'],
        Suit::Diamonds => seq!['D'],
        Suit::Hearts => seq!['H'],
        Suit::Spades => seq!['S'],
    }
}

impl Suit {
    /// One-character label for this suit.
    pub fn shorthand(self) -> (r: &'static str)
        ensures
            r@ == suit_label(self),
    {
        match self {
            Suit::Clubs => {
                proof {
                    reveal_strlit("C");
                }
                "C"
            },
            Suit::Diamonds => {
                proof {
                    reveal_strlit("D");
                }
                "D"
            },
            Suit::Hearts => {
                proof {
                    reveal_strlit("H");
                }
                "H"
            },
            Suit::Spades => {
                proof {
                    reveal_strlit("S");
                }
                "S"
            },
        }
    }
}

/// Card order: by value first, then by suit. This is the order every sort in
/// the library uses, and the order under which the canonical form is minimal.
pub open spec fn card_le(a: Card, b: Card) -> bool {
    value_index(a.value) < value_index(b.value) || (value_index(a.value) == value_index(b.value)
        && suit_index(a.suit) <= suit_index(b.suit))
}

/// `card_le` as a first-class relation, for vstd's sorting vocabulary.
pub open spec fn card_order() -> spec_fn(Card, Card) -> bool {
    |a: Card, b: Card| card_le(a, b)
}

pub proof fn lemma_card_order_total()
    ensures
        vstd::relations::total_ordering(card_order()),
{
}

/// Compare two cards under the card order.
pub fn card_le_exec(a: &Card, b: &Card) -> (r: bool)
    ensures
        r == card_le(*a, *b),
{
    let av = value_index_of(a.value);
    let bv = value_index_of(b.value);
    if av < bv {
        true
    } else if av == bv {
        suit_index_of(a.suit) <= suit_index_of(b.suit)
    } else {
        false
    }
}

/// All 52 cards, sorted by the card order, without duplicates: the four suits
/// of each value in suit order, values ascending.
pub fn canonical_deck() -> (deck: Vec<Card>)
    ensures
        deck@.len() == 52,
        forall|i: int|
            0 <= i < 52 ==> deck@[i] == (Card {
                value: spec_value_from_index(2 + i / 4),
                suit: spec_suit_from_index(i % 4),
            }),
        vstd::relations::sorted_by(deck@, card_order()),
        deck@.no_duplicates(),
{
    let mut deck: Vec<Card> = Vec::new();
    let mut vi: u8 = 2;
    while vi <= 14
        invariant
            2 <= vi <= 15,
            deck@.len() == 4 * (vi - 2),
            forall|i: int|
                0 <= i < deck@.len() ==> deck@[i] == (Card {
                    value: spec_value_from_index(2 + i / 4),
                    suit: spec_suit_from_index(i % 4),
                }),
        decreases 15 - vi,
    {
        let v = value_from_index(vi);
        let mut si: u8 = 0;
        while si < 4
            invariant
                si <= 4,
                2 <= vi <= 14,
                v == spec_value_from_index(vi as int),
                deck@.len() == 4 * (vi - 2) + si,
                forall|i: int|
                    0 <= i < deck@.len() ==> deck@[i] == (Card {
                        value: spec_value_from_index(2 + i / 4),
                        suit: spec_suit_from_index(i % 4),
                    }),
            decreases 4 - si,
        {
            let s = suit_from_index(si);
            deck.push(Card { value: v, suit: s });
            si = si + 1;
        }
        vi = vi + 1;
    }
    proof {
        assert forall|i: int, j: int| 0 <= i < j < 52 implies card_le(deck@[i], deck@[j])
            && deck@[i] != deck@[j] by {
            assert(2 <= 2 + i / 4 <= 14);
            assert(2 <= 2 + j / 4 <= 14);
            assert(0 <= i % 4 < 4);
            assert(0 <= j % 4 < 4);
            assert(value_index(deck@[i].value) == 2 + i / 4);
            assert(value_index(deck@[j].value) == 2 + j / 4);
            assert(suit_index(deck@[i].suit) == i % 4);
            assert(suit_index(deck@[j].suit) == j % 4);
            assert(i / 4 < j / 4 || (i / 4 == j / 4 && i % 4 < j % 4)) by (nonlinear_arith)
                requires
                    0 <= i < j < 52,
            ;
        }
        assert forall|i: int, j: int|
            0 <= i < deck@.len() && 0 <= j < deck@.len() && i != j implies deck@[i] != deck@[j] by {
            if i < j {
                assert(card_le(deck@[i], deck@[j]) && deck@[i] != deck@[j]);
            } else {
                assert(card_le(deck@[j], deck@[i]) && deck@[j] != deck@[i]);
            }
        }
    }
    deck
}

} // verus!
