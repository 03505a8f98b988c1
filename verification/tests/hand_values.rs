use lib_blackjack::{Card, Deck, HandValue};

#[test]
fn card_indexing_round_trip() {
    for i in 0..10 {
        let c = Card::from_index(i).unwrap();
        assert_eq!(c.index(), i);
    }
    assert!(Card::from_index(10).is_none());
    assert_eq!(Card::Ace.index(), 0);
    assert_eq!(Card::Ten.index(), 9);
}

#[test]
fn hard_addition() {
    assert_eq!(HandValue::Hard(5).add_card(Card::Three), HandValue::Hard(8));
    assert_eq!(HandValue::Hard(12).add_card(Card::Ten), HandValue::Hard(22));
}

#[test]
fn ace_promotes_small_hard_totals() {
    assert_eq!(HandValue::Hard(5).add_card(Card::Ace), HandValue::Soft(16));
    assert_eq!(HandValue::Hard(10).add_card(Card::Ace), HandValue::Soft(21));
    assert_eq!(HandValue::Hard(11).add_card(Card::Ace), HandValue::Hard(12));
}

#[test]
fn soft_totals_demote_instead_of_busting() {
    assert_eq!(HandValue::Soft(16).add_card(Card::Ten), HandValue::Hard(16));
    assert_eq!(HandValue::Soft(21).add_card(Card::Ten), HandValue::Hard(21));
    assert_eq!(HandValue::Soft(17).add_card(Card::Four), HandValue::Soft(21));
}

#[test]
fn addition_is_order_independent() {
    let orders: [[Card; 3]; 3] = [
        [Card::Ace, Card::Four, Card::Ten],
        [Card::Ten, Card::Four, Card::Ace],
        [Card::Four, Card::Ten, Card::Ace],
    ];
    let mut results = Vec::new();
    for order in orders.iter() {
        let mut v = HandValue::Hard(0);
        for c in order.iter() {
            v = v.add_card(*c);
        }
        results.push(v);
    }
    assert_eq!(results[0], results[1]);
    assert_eq!(results[1], results[2]);
    assert_eq!(results[0], HandValue::Hard(15));
}

#[test]
fn totals_read_back() {
    assert_eq!(HandValue::Soft(18).total(), 18);
    assert_eq!(HandValue::Hard(4).total(), 4);
}

#[test]
fn natural_order_puts_soft_below_hard() {
    assert!(HandValue::Soft(21).le(HandValue::Hard(4)));
    assert!(!HandValue::Hard(4).le(HandValue::Soft(21)));
    assert!(HandValue::Hard(4).le(HandValue::Hard(10)));
    assert!(HandValue::Soft(12).le(HandValue::Soft(18)));
    assert!(!HandValue::Soft(18).le(HandValue::Soft(12)));
}

#[test]
fn deck_value_matches_repeated_addition() {
    let hands: [&[Card]; 4] = [
        &[Card::Four, Card::Six],
        &[Card::Ace, Card::Ten],
        &[Card::Ace, Card::Ace],
        &[Card::Ace, Card::Ten, Card::Ten],
    ];
    let expected = [
        HandValue::Hard(10),
        HandValue::Soft(21),
        HandValue::Soft(12),
        HandValue::Hard(21),
    ];
    for (cards, want) in hands.iter().zip(expected.iter()) {
        let mut folded = HandValue::Hard(0);
        for c in cards.iter() {
            folded = folded.add_card(*c);
        }
        assert_eq!(folded, *want);
        assert_eq!(Deck::from_cards(cards).get_hand_value(), *want);
    }
}
