use suit_canon::permute_suits;
use suit_canon::sort_hand;
use suit_canon::suit_map::SuitMap;
use suit_canon::Card;
use suit_canon::Suit;
use suit_canon::Value;

use Suit::{Clubs, Diamonds, Hearts, Spades};
use Value::{Ace, Jack, King, Nine, Queen, Seven, Two};

fn sample_cards() -> Vec<Card> {
    vec![
        Two.of(Clubs),
        Seven.of(Diamonds),
        Seven.of(Hearts),
        Nine.of(Spades),
        Jack.of(Clubs),
        Queen.of(Clubs),
        Ace.of(Hearts),
    ]
}

fn suit_counts(cards: &[Card]) -> [usize; 4] {
    let mut counts = [0usize; 4];
    for card in cards {
        let idx = match card.suit {
            Clubs => 0,
            Diamonds => 1,
            Hearts => 2,
            Spades => 3,
        };
        counts[idx] += 1;
    }
    counts
}

fn value_counts(cards: &[Card]) -> Vec<(Value, usize)> {
    let mut counts: Vec<(Value, usize)> = Vec::new();
    for card in cards {
        match counts.iter_mut().find(|(v, _)| *v == card.value) {
            Some(entry) => entry.1 += 1,
            None => counts.push((card.value, 1)),
        }
    }
    counts.sort();
    counts
}

#[test]
fn test_permute_suits_counts() {
    // A permutation preserves value counts and maps each suit's count to the
    // count of its image suit.
    let cards = sample_cards();
    let permutation = SuitMap::new(Hearts, Diamonds, Spades, Clubs);
    let permuted = permute_suits(cards.clone(), permutation);

    assert_eq!(value_counts(&cards), value_counts(&permuted));

    let before = suit_counts(&cards);
    let after = suit_counts(&permuted);
    // Clubs -> Hearts, Diamonds -> Diamonds, Hearts -> Spades, Spades -> Clubs
    assert_eq!(before[0], after[2]);
    assert_eq!(before[1], after[1]);
    assert_eq!(before[2], after[3]);
    assert_eq!(before[3], after[0]);
}

#[test]
fn test_permute_suits_cyclic() {
    // A permutation of four suits is cyclic with period at most 4.
    let original_cards = sample_cards();
    let permutation = SuitMap::new(Diamonds, Hearts, Spades, Clubs);
    let mut cards = original_cards.clone();
    let mut good = false;

    for _ in 0..4 {
        cards = permute_suits(cards, permutation);
        if cards == original_cards {
            good = true;
            break;
        }
    }

    if !good {
        panic!("cards were not restored after 4 permutations");
    }
}

#[test]
fn test_permute_suits_identity() {
    let cards = sample_cards();
    let identity = SuitMap::new(Clubs, Diamonds, Hearts, Spades);
    assert_eq!(permute_suits(cards.clone(), identity), cards);
}

#[test]
fn test_sort_hand_segments() {
    let mut hand = vec![
        Ace.of(Spades),
        Two.of(Clubs),
        King.of(Hearts),
        Seven.of(Diamonds),
        Two.of(Diamonds),
    ];
    sort_hand(&mut hand);
    // private segment sorted among itself, shared segment among itself
    assert_eq!(
        hand,
        vec![
            Two.of(Clubs),
            Ace.of(Spades),
            Two.of(Diamonds),
            Seven.of(Diamonds),
            King.of(Hearts),
        ]
    );
}

#[test]
fn test_suit_map_map() {
    let map = SuitMap::new(1u32, 2, 3, 4);
    let doubled = map.map(|x| x * 2);
    assert_eq!(doubled, SuitMap::new(2u32, 4, 6, 8));
}

#[test]
fn test_suit_map_accessors() {
    let mut map = SuitMap::new_copied(0u32);
    map.set(Hearts, 7);
    assert_eq!(*map.get(Hearts), 7);
    assert_eq!(*map.get(Clubs), 0);
    let pairs = map.iter();
    assert_eq!(
        pairs,
        vec![(Clubs, 0), (Diamonds, 0), (Hearts, 7), (Spades, 0)]
    );
}
