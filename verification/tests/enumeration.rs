use lib_blackjack::{generate_all_hands, hands_in_dp_order, Card, Deck};

const ALL_RANKS: [Card; 10] = [
    Card::Ace,
    Card::Two,
    Card::Three,
    Card::Four,
    Card::Five,
    Card::Six,
    Card::Seven,
    Card::Eight,
    Card::Nine,
    Card::Ten,
];

/// `b` is `a` plus exactly one card.
fn is_one_card_extension(b: &Deck, a: &Deck) -> bool {
    if b.get_count() != a.get_count() + 1 {
        return false;
    }
    ALL_RANKS
        .iter()
        .all(|&c| {
            let d = b.get_count_of_card(c) as i64 - a.get_count_of_card(c) as i64;
            d == 0 || d == 1
        })
}

#[test]
fn small_shoe_enumerates_exactly_the_live_hands() {
    // One eight, three nines, two tens: 23 nonempty submultisets, of which
    // 8 keep a total at or below 21.
    let shoe = Deck::from_cards(&[Card::Eight, Card::Nine, Card::Nine, Card::Nine, Card::Ten, Card::Ten]);
    let hands = generate_all_hands(&shoe);
    assert_eq!(hands.len(), 8);
    for h in hands.iter() {
        assert!(h.is_subset(&shoe));
        assert!(h.get_count() >= 1);
        assert!(h.get_hand_value().total() <= 21);
    }
    for (i, a) in hands.iter().enumerate() {
        for b in hands.iter().skip(i + 1) {
            assert_ne!(a, b);
        }
    }
    assert!(hands.contains(&Deck::from_cards(&[Card::Nine, Card::Nine])));
    assert!(hands.contains(&Deck::from_cards(&[Card::Eight])));
    assert!(hands.contains(&Deck::from_cards(&[Card::Nine, Card::Ten])));
    assert!(hands.contains(&Deck::from_cards(&[Card::Ten, Card::Ten])));
    assert!(!hands.contains(&Deck::from_cards(&[Card::Nine, Card::Nine, Card::Nine])));
}

#[test]
fn singleton_hands_are_recorded() {
    let shoe = Deck::from_cards(&[Card::Eight, Card::Nine, Card::Ten]);
    let hands = generate_all_hands(&shoe);
    for c in [Card::Eight, Card::Nine, Card::Ten] {
        assert!(hands.contains(&Deck::from_cards(&[c])));
    }
}

#[test]
fn shoe_without_aces_yields_no_ace_hands() {
    let shoe = Deck::from_cards(&[Card::Eight, Card::Nine, Card::Nine, Card::Nine, Card::Ten, Card::Ten]);
    for h in generate_all_hands(&shoe) {
        assert_eq!(h.get_count_of_card(Card::Ace), 0);
    }
}

#[test]
fn ace_hands_take_the_soft_value() {
    let shoe = Deck::from_cards(&[Card::Ace, Card::Ace, Card::Ten]);
    let hands = generate_all_hands(&shoe);
    assert!(hands.contains(&Deck::from_cards(&[Card::Ace])));
    assert!(hands.contains(&Deck::from_cards(&[Card::Ace, Card::Ace])));
    assert!(hands.contains(&Deck::from_cards(&[Card::Ace, Card::Ten])));
    assert!(hands.contains(&Deck::from_cards(&[Card::Ace, Card::Ace, Card::Ten])));
    assert_eq!(hands.len(), 5);
}

#[test]
fn full_deck_enumeration_matches_on_both_paths() {
    let shoe = Deck::generate(1);
    let dfs = generate_all_hands(&shoe);
    let ordered = hands_in_dp_order(&shoe);
    assert_eq!(dfs.len(), ordered.len());
    let ordered_set: std::collections::HashSet<Deck> = ordered.into_iter().collect();
    assert_eq!(ordered_set.len(), dfs.len());
    for h in dfs.iter() {
        assert!(ordered_set.contains(h));
    }
}

#[test]
fn dp_order_processes_extensions_first() {
    let shoe = Deck::from_cards(&[
        Card::Ace,
        Card::Ace,
        Card::Six,
        Card::Nine,
        Card::Nine,
        Card::Ten,
        Card::Ten,
    ]);
    let hands = hands_in_dp_order(&shoe);
    for (i, a) in hands.iter().enumerate() {
        for (j, b) in hands.iter().enumerate() {
            if is_one_card_extension(b, a) {
                assert!(
                    j < i,
                    "extension must be filled before the hand that reaches it"
                );
            }
        }
    }
}
