use lib_blackjack::{
    double_allowed, dp_key, pair_rank, split_allowed, Card, CardMap, Deck, HandValue,
};

#[test]
fn double_is_for_two_card_hands_without_a_natural() {
    assert!(double_allowed(&Deck::from_cards(&[Card::Four, Card::Six])));
    assert!(double_allowed(&Deck::from_cards(&[Card::Nine, Card::Nine])));
    assert!(double_allowed(&Deck::from_cards(&[Card::Ace, Card::Nine])));
    assert!(!double_allowed(&Deck::from_cards(&[Card::Ace, Card::Ten])));
    assert!(!double_allowed(&Deck::from_cards(&[Card::Two, Card::Three, Card::Four])));
    assert!(!double_allowed(&Deck::from_cards(&[Card::Five])));
}

#[test]
fn split_is_for_pairs_only() {
    assert_eq!(pair_rank(&Deck::from_cards(&[Card::Nine, Card::Nine])), Some(Card::Nine));
    assert_eq!(pair_rank(&Deck::from_cards(&[Card::Ace, Card::Ace])), Some(Card::Ace));
    assert_eq!(pair_rank(&Deck::from_cards(&[Card::Four, Card::Six])), None);
    assert_eq!(pair_rank(&Deck::from_cards(&[Card::Nine, Card::Nine, Card::Nine])), None);
    assert_eq!(pair_rank(&Deck::from_cards(&[Card::Ace, Card::Ten])), None);
    assert!(split_allowed(&Deck::from_cards(&[Card::Ten, Card::Ten])));
    assert!(!split_allowed(&Deck::from_cards(&[Card::Ten])));
}

#[test]
fn a_natural_may_neither_double_nor_split() {
    let natural = Deck::from_cards(&[Card::Ace, Card::Ten]);
    assert!(natural.is_blackjack());
    assert!(!double_allowed(&natural));
    assert!(!split_allowed(&natural));
}

#[test]
fn card_map_starts_empty() {
    let m: CardMap<i64> = CardMap::new();
    for i in 0..10 {
        assert!(m.get(Card::from_index(i).unwrap()).is_none());
    }
    assert!(m.iter().is_empty());
}

#[test]
fn card_map_set_and_get() {
    let mut m: CardMap<i64> = CardMap::new();
    m.set(Card::Five, 40);
    m.set(Card::Ace, -3);
    m.set(Card::Five, 41);
    assert_eq!(*m.get(Card::Five), Some(41));
    assert_eq!(*m.get(Card::Ace), Some(-3));
    assert_eq!(*m.get(Card::Ten), None);
}

#[test]
fn card_map_iterates_present_entries_in_rank_order() {
    let mut m: CardMap<u32> = CardMap::new();
    m.set(Card::Nine, 9);
    m.set(Card::Two, 2);
    m.set(Card::Ten, 10);
    assert_eq!(m.iter(), vec![(Card::Two, 2), (Card::Nine, 9), (Card::Ten, 10)]);
}

#[test]
fn card_map_fill_populates_every_rank() {
    let mut m: CardMap<i64> = CardMap::new();
    m.fill(7);
    assert_eq!(m.iter().len(), 10);
    for i in 0..10 {
        assert_eq!(*m.get(Card::from_index(i).unwrap()), Some(7));
    }
}

#[test]
fn card_map_holds_floats_for_expected_values() {
    let mut m: CardMap<f64> = CardMap::new();
    m.set(Card::Six, 1.213);
    assert_eq!(*m.get(Card::Six), Some(1.213));
    assert_eq!(*m.get(Card::Five), None);
}

#[test]
fn dp_keys_follow_the_processing_order() {
    // Hard totals above ten first, then soft totals, then small hard totals.
    assert!(dp_key(HandValue::Hard(21)) < dp_key(HandValue::Hard(11)));
    assert!(dp_key(HandValue::Hard(11)) < dp_key(HandValue::Soft(21)));
    assert!(dp_key(HandValue::Soft(21)) < dp_key(HandValue::Soft(12)));
    assert!(dp_key(HandValue::Soft(11)) < dp_key(HandValue::Hard(10)));
    assert!(dp_key(HandValue::Hard(10)) < dp_key(HandValue::Hard(2)));
}
