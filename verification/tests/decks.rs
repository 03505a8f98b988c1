use lib_blackjack::{Card, Deck, HandValue};

const ALL_RANKS: [Card; 10] = [
    Card::Ace,
    Card::Two,
    Card::Three,
    Card::Four,
    Card::Five,
    Card::Six,
    Card::Seven,
    Card::Eight,
    Card::Nine,
    Card::Ten,
];

#[test]
fn empty_deck() {
    let d = Deck::new();
    assert_eq!(d.get_count(), 0);
    for c in ALL_RANKS {
        assert_eq!(d.get_count_of_card(c), 0);
    }
}

#[test]
fn standard_shoe_counts() {
    let d = Deck::generate(1);
    assert_eq!(d.get_count(), 52);
    for c in ALL_RANKS {
        let want = if c == Card::Ten { 16 } else { 4 };
        assert_eq!(d.get_count_of_card(c), want);
    }
    let two = Deck::generate(2);
    assert_eq!(two.get_count(), 104);
    assert_eq!(two.get_count_of_card(Card::Ten), 32);
    assert_eq!(two.get_count_of_card(Card::Ace), 8);
}

#[test]
fn add_and_remove_cards() {
    let mut d = Deck::new();
    d.add_cards(&[Card::Nine, Card::Nine, Card::Two]);
    assert_eq!(d.get_count(), 3);
    assert_eq!(d.get_count_of_card(Card::Nine), 2);
    assert_eq!(d.get_count_of_card(Card::Two), 1);
    d.remove_cards(&[Card::Nine]);
    assert_eq!(d.get_count(), 2);
    assert_eq!(d.get_count_of_card(Card::Nine), 1);
}

#[test]
fn removing_then_adding_a_card_restores_the_shoe() {
    let shoe = Deck::generate(1);
    for c in ALL_RANKS {
        let less = shoe.minus_card(c).unwrap();
        assert_eq!(less.get_count(), 51);
        let back = less.plus_card(c);
        assert_eq!(back, shoe);
    }
}

#[test]
fn removing_an_exhausted_rank_fails() {
    let d = Deck::from_cards(&[Card::Nine, Card::Nine]);
    assert!(d.minus_card(Card::Nine).is_some());
    assert!(d.minus_card(Card::Ace).is_none());
    let none_left = d.minus_card(Card::Nine).unwrap().minus_card(Card::Nine).unwrap();
    assert!(none_left.minus_card(Card::Nine).is_none());
}

#[test]
fn deck_difference_undoes_deck_sum() {
    let a = Deck::from_cards(&[Card::Ace, Card::Five, Card::Five]);
    let b = Deck::from_cards(&[Card::Five, Card::Ten]);
    let sum = a.plus_deck(&b);
    assert_eq!(sum.get_count(), 5);
    assert_eq!(sum.get_count_of_card(Card::Five), 3);
    assert_eq!(sum.minus_deck(&b).unwrap(), a);
    assert_eq!(sum.minus_deck(&a).unwrap(), b);
}

#[test]
fn deck_difference_fails_when_not_covered() {
    let a = Deck::from_cards(&[Card::Ace, Card::Five]);
    let b = Deck::from_cards(&[Card::Five, Card::Five]);
    assert!(a.minus_deck(&b).is_none());
    assert!(b.minus_deck(&a).is_none());
    assert!(a.minus_deck(&a).unwrap().get_count() == 0);
}

#[test]
fn subset_check() {
    let a = Deck::from_cards(&[Card::Five, Card::Ten]);
    let b = Deck::from_cards(&[Card::Five, Card::Five, Card::Ten]);
    assert!(a.is_subset(&b));
    assert!(!b.is_subset(&a));
    assert!(Deck::new().is_subset(&a));
    assert!(a.is_subset(&a));
}

#[test]
fn blackjack_detection() {
    assert!(Deck::from_cards(&[Card::Ace, Card::Ten]).is_blackjack());
    assert!(!Deck::from_cards(&[Card::Ace, Card::Nine]).is_blackjack());
    assert!(!Deck::from_cards(&[Card::Ace, Card::Ace]).is_blackjack());
    assert!(!Deck::from_cards(&[Card::Ten, Card::Ten]).is_blackjack());
    assert!(!Deck::from_cards(&[Card::Ace, Card::Ten, Card::Ten]).is_blackjack());
}

#[test]
fn deck_iterator_yields_each_copy_in_rank_order() {
    let d = Deck::from_cards(&[Card::Ten, Card::Two, Card::Nine, Card::Nine]);
    let mut it = d.iter();
    let mut seen = Vec::new();
    while let Some(c) = it.next() {
        seen.push(c);
    }
    assert_eq!(seen, vec![Card::Two, Card::Nine, Card::Nine, Card::Ten]);
    assert!(it.next().is_none());
    assert!(it.next().is_none());
}

#[test]
fn rank_iterator_yields_each_present_rank_once() {
    let d = Deck::from_cards(&[Card::Ten, Card::Two, Card::Nine, Card::Nine]);
    let mut it = d.rank_iter();
    let mut seen = Vec::new();
    while let Some(c) = it.next() {
        seen.push(c);
    }
    assert_eq!(seen, vec![Card::Two, Card::Nine, Card::Ten]);
    assert!(it.next().is_none());
    let mut empty = Deck::new().rank_iter();
    assert!(empty.next().is_none());
}

#[test]
fn histogram_matches_counts() {
    let d = Deck::from_cards(&[Card::Ace, Card::Nine, Card::Nine]);
    let counts = d.to_counts();
    assert_eq!(counts, [1, 0, 0, 0, 0, 0, 0, 0, 2, 0]);
}

#[test]
fn hand_value_of_multi_ace_decks() {
    assert_eq!(Deck::from_cards(&[Card::Ace]).get_hand_value(), HandValue::Soft(11));
    assert_eq!(Deck::from_cards(&[Card::Ace, Card::Ace, Card::Ace]).get_hand_value(), HandValue::Soft(13));
    assert_eq!(
        Deck::from_cards(&[Card::Ace, Card::Ace, Card::Ten, Card::Nine]).get_hand_value(),
        HandValue::Hard(21)
    );
    assert_eq!(Deck::from_cards(&[Card::Ten, Card::Seven, Card::Five]).get_hand_value(), HandValue::Hard(22));
}
