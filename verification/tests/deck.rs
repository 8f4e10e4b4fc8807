use suit_canon::cards::canonical_deck;
use suit_canon::Card;
use suit_canon::Suit;
use suit_canon::Value;

#[test]
fn canonical_deck_sorted() {
    assert!(canonical_deck().is_sorted());
}

#[test]
fn canonical_deck_no_duplicates() {
    // As long as canonical_deck is sorted, this will remove all duplicates.
    let deduped = {
        let mut owned = canonical_deck().to_vec();
        owned.dedup();
        owned
    };
    assert!(deduped.len() == canonical_deck().len());
}

#[test]
fn canonical_deck_endpoints() {
    let deck = canonical_deck();
    assert_eq!(deck.len(), 52);
    assert_eq!(deck[0], Card { value: Value::Two, suit: Suit::Clubs });
    assert_eq!(deck[1], Card { value: Value::Two, suit: Suit::Diamonds });
    assert_eq!(deck[51], Card { value: Value::Ace, suit: Suit::Spades });
}

#[test]
fn value_and_suit_shorthand_labels() {
    assert_eq!(Value::Two.shorthand(), "2");
    assert_eq!(Value::Ten.shorthand(), "10");
    assert_eq!(Value::Jack.shorthand(), "J");
    assert_eq!(Value::Queen.shorthand(), "Q");
    assert_eq!(Value::King.shorthand(), "K");
    assert_eq!(Value::Ace.shorthand(), "A");
    assert_eq!(Suit::Clubs.shorthand(), "C");
    assert_eq!(Suit::Diamonds.shorthand(), "D");
    assert_eq!(Suit::Hearts.shorthand(), "H");
    assert_eq!(Suit::Spades.shorthand(), "S");
}
