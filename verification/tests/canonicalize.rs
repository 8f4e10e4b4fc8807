use suit_canon::canonicalize_hand;
use suit_canon::permute_suits;
use suit_canon::sort_hand;
use suit_canon::suit_map::SuitMap;
use suit_canon::Card;
use suit_canon::Suit;
use suit_canon::Value;

use Suit::{Clubs, Diamonds, Hearts, Spades};
use Value::{Ace, Five, Four, King, Queen, Three, Two};

fn all_suit_permutations() -> Vec<SuitMap<Suit>> {
    let suits = [Clubs, Diamonds, Hearts, Spades];
    let mut perms = Vec::new();
    for &a in &suits {
        for &b in &suits {
            for &c in &suits {
                for &d in &suits {
                    let distinct = a != b && a != c && a != d && b != c && b != d && c != d;
                    if distinct {
                        perms.push(SuitMap::new(a, b, c, d));
                    }
                }
            }
        }
    }
    assert_eq!(perms.len(), 24);
    perms
}

#[test]
fn test_canonicalize_hand_perverse_case_one() {
    // Ensure that the hole ambiguity can be resolved by the first card of the table.
    let hand = vec![
        Two.of(Clubs),
        Two.of(Spades),
        Three.of(Spades),
        Four.of(Spades),
        Five.of(Spades),
    ];
    let canonical = canonicalize_hand(hand.clone());

    assert_eq!(
        canonical,
        vec![
            Two.of(Clubs),
            Two.of(Diamonds),
            Three.of(Clubs),
            Four.of(Clubs),
            Five.of(Clubs),
        ]
    );
}

#[test]
fn test_canonicalize_hand_perverse_case_two() {
    // Ensure that the hole ambiguity is resolved when the table
    // has an intersecting pair only later in the ordering.
    let hand = vec![
        Two.of(Spades),
        Two.of(Clubs),
        Two.of(Hearts),
        Three.of(Spades),
        Three.of(Diamonds),
    ];
    let canonical = canonicalize_hand(hand.clone());

    assert_eq!(
        canonical,
        vec![
            Two.of(Clubs),
            Two.of(Diamonds),
            Two.of(Hearts),
            Three.of(Clubs),
            Three.of(Spades),
        ]
    );
}

#[test]
fn test_canonicalize_hand_perverse_case_three() {
    // Ensure that the hole ambiguity is resolved when the table
    // has multiple ambiguous groups before an intersection.
    let hand = vec![
        Two.of(Spades),
        Two.of(Clubs),
        Three.of(Spades),
        Three.of(Clubs),
        Four.of(Spades),
        Four.of(Clubs),
        Five.of(Spades),
    ];
    let canonical = canonicalize_hand(hand.clone());

    assert_eq!(
        canonical,
        vec![
            Two.of(Clubs),
            Two.of(Diamonds),
            Three.of(Clubs),
            Three.of(Diamonds),
            Four.of(Clubs),
            Four.of(Diamonds),
            Five.of(Clubs)
        ]
    );
}

#[test]
fn test_canonicalize_hand_trips_on_board() {
    // A pocket pair whose resolution comes from a rank group on the board.
    let hand = vec![
        Two.of(Clubs),
        Two.of(Spades),
        Three.of(Clubs),
        Three.of(Spades),
        Three.of(Diamonds),
    ];
    let canonical = canonicalize_hand(hand.clone());

    assert_eq!(
        canonical,
        vec![
            Two.of(Clubs),
            Two.of(Diamonds),
            Three.of(Clubs),
            Three.of(Diamonds),
            Three.of(Hearts),
        ]
    );
}

fn sample_hands() -> Vec<Vec<Card>> {
    vec![
        // private cards only
        vec![Ace.of(Spades), King.of(Hearts)],
        vec![Queen.of(Hearts), Queen.of(Diamonds)],
        // flop
        vec![
            Two.of(Clubs),
            Two.of(Spades),
            Three.of(Spades),
            Four.of(Spades),
            Five.of(Spades),
        ],
        vec![
            Two.of(Spades),
            Two.of(Clubs),
            Two.of(Hearts),
            Three.of(Spades),
            Three.of(Diamonds),
        ],
        // turn
        vec![
            Ace.of(Hearts),
            King.of(Hearts),
            Queen.of(Hearts),
            Three.of(Diamonds),
            Three.of(Clubs),
            Two.of(Spades),
        ],
        // river, chained ambiguity
        vec![
            Two.of(Spades),
            Two.of(Clubs),
            Three.of(Spades),
            Three.of(Clubs),
            Four.of(Spades),
            Four.of(Clubs),
            Five.of(Spades),
        ],
        // only one suit in play
        vec![
            Ace.of(Spades),
            King.of(Spades),
            Queen.of(Spades),
            Four.of(Spades),
            Two.of(Spades),
        ],
    ]
}

#[test]
fn test_canonicalize_hand_deterministic() {
    for hand in sample_hands() {
        let once = canonicalize_hand(hand.clone());
        let again = canonicalize_hand(hand.clone());
        assert_eq!(once, again);
    }
}

#[test]
fn test_canonicalize_hand_idempotent() {
    for hand in sample_hands() {
        let len = hand.len();
        let canonical = canonicalize_hand(hand);
        let canonical2 = canonicalize_hand(canonical.clone());
        assert_eq!(canonical.len(), len);
        assert_eq!(canonical, canonical2);
    }
}

#[test]
fn test_canonicalize_hand_lexicographic_minimum() {
    for hand in sample_hands() {
        let canonical = canonicalize_hand(hand);
        for permutation in all_suit_permutations() {
            let mut permuted = permute_suits(canonical.clone(), permutation);
            sort_hand(&mut permuted);
            assert!(canonical <= permuted);
        }
    }
}

#[test]
fn test_canonicalize_hand_preserves_shape() {
    for hand in sample_hands() {
        let canonical = canonicalize_hand(hand.clone());
        assert_eq!(canonical.len(), hand.len());
        let mut original_values: Vec<Value> = hand[0..2].iter().map(|c| c.value).collect();
        let mut canonical_values: Vec<Value> = canonical[0..2].iter().map(|c| c.value).collect();
        original_values.sort();
        canonical_values.sort();
        assert_eq!(original_values, canonical_values);
        let mut original_board: Vec<Value> = hand[2..].iter().map(|c| c.value).collect();
        let mut canonical_board: Vec<Value> = canonical[2..].iter().map(|c| c.value).collect();
        original_board.sort();
        canonical_board.sort();
        assert_eq!(original_board, canonical_board);
    }
}

#[test]
fn test_canonicalize_hand_first_card_is_clubs() {
    for hand in sample_hands() {
        let canonical = canonicalize_hand(hand);
        assert_eq!(canonical[0].suit, Clubs);
    }
}
