//! Card ranks and the soft/hard hand value they add up to.

use vstd::prelude::*;

verus! {

/// A card rank. Aces are counted as 1 or 11 by the hand-value rule below;
/// tens, jacks, queens and kings all collapse onto `Ten`.
#[derive(Copy, Clone, Debug, PartialEq, Eq, Structural, Hash)]
pub enum Card {
    Ace,
    Two,
    Three,
    Four,
    Five,
    Six,
    Seven,
    Eight,
    Nine,
    Ten,
}

impl Card {
    /// Zero-based slot of this rank in a ten-slot counter.
    pub open spec fn idx(self) -> int {
        match self {
            Card::Ace => 0,
            Card::Two => 1,
            Card::Three => 2,
            Card::Four => 3,
            Card::Five => 4,
            Card::Six => 5,
            Card::Seven => 6,
            Card::Eight => 7,
            Card::Nine => 8,
            Card::Ten => 9,
        }
    }

    /// Face value of the rank when the ace counts low: `Ace` is 1, `Ten` is 10.
    pub open spec fn face(self) -> int {
        self.idx() + 1
    }

    /// Zero-based slot of this rank, as a machine integer.
    pub fn index(self) -> (i: usize)
        ensures
            i == self.idx(),
    {
        match self {
            Card::Ace => 0,
            Card::Two => 1,
            Card::Three => 2,
            Card::Four => 3,
            Card::Five => 4,
            Card::Six => 5,
            Card::Seven => 6,
            Card::Eight => 7,
            Card::Nine => 8,
            Card::Ten => 9,
        }
    }

    /// The rank sitting at slot `i`; `None` when `i` is not a slot.
    pub fn from_index(i: usize) -> (c: Option<Card>)
        ensures
            i < 10 <==> c is Some,
            c matches Some(card) ==> card.idx() == i,
    {
        match i {
            0 => Some(Card::Ace),
            1 => Some(Card::Two),
            2 => Some(Card::Three),
            3 => Some(Card::Four),
            4 => Some(Card::Five),
            5 => Some(Card::Six),
            6 => Some(Card::Seven),
            7 => Some(Card::Eight),
            8 => Some(Card::Nine),
            9 => Some(Card::Ten),
            _ => None,
        }
    }
}

/// The rank sitting at slot `i`, as a spec-level function; slots outside
/// the counter all map to `Ten`.
pub open spec fn card_at(i: int) -> Card {
    if i == 0 {
        Card::Ace
    } else if i == 1 {
        Card::Two
    } else if i == 2 {
        Card::Three
    } else if i == 3 {
        Card::Four
    } else if i == 4 {
        Card::Five
    } else if i == 5 {
        Card::Six
    } else if i == 6 {
        Card::Seven
    } else if i == 7 {
        Card::Eight
    } else if i == 8 {
        Card::Nine
    } else {
        Card::Ten
    }
}

/// The rank sitting at slot `i`, for callers that know `i` is in range.
pub fn card_of(i: usize) -> (c: Card)
    requires
        i < 10,
    ensures
        c.idx() == i,
        c == card_at(i as int),
{
    match Card::from_index(i) {
        Some(c) => c,
        None => {
            assert(false);
            Card::Ace
        },
    }
}

/// The mathematical content of a `HandValue`: whether an ace is currently
/// counted as 11, and the running total.
pub ghost struct HvModel {
    pub soft: bool,
    pub total: int,
}

/// The card-addition rule of blackjack hand values, over the model.
/// A soft total that would pass 21 demotes its ace from 11 to 1; a hard
/// total at or below 10 promotes a new ace to 11.
pub open spec fn hv_add_model(m: HvModel, c: Card) -> HvModel {
    if m.soft {
        if m.total + c.face() > 21 {
            (HvModel { soft: false, total: m.total + c.face() - 10 })
        } else {
            (HvModel { soft: true, total: m.total + c.face() })
        }
    } else {
        if c == Card::Ace && m.total <= 10 {
            (HvModel { soft: true, total: m.total + 11 })
        } else {
            (HvModel { soft: false, total: m.total + c.face() })
        }
    }
}

/// A busted value: a hard total past 21. Soft totals never bust, since the
/// ace can always fall back to 1.
pub open spec fn busted(m: HvModel) -> bool {
    !m.soft && m.total > 21
}

/// The best-for-player evaluation of a multiset of cards with `aces` aces
/// and low-ace total `hard`: one ace counts as 11 exactly when that keeps
/// the total at or below 21.
pub open spec fn best_value(aces: int, hard: int) -> HvModel {
    if aces > 0 && hard + 10 <= 21 {
        (HvModel { soft: true, total: hard + 10 })
    } else {
        (HvModel { soft: false, total: hard })
    }
}

/// The value of the empty hand.
pub open spec fn start_model() -> HvModel {
    HvModel { soft: false, total: 0 }
}

/// Adding one card to a best-for-player evaluation gives the
/// best-for-player evaluation of the grown multiset.
pub proof fn lemma_best_value_add(aces: int, hard: int, c: Card)
    requires
        aces >= 0,
        hard >= 0,
    ensures
        hv_add_model(best_value(aces, hard), c) == best_value(
            aces + if c == Card::Ace { 1int } else { 0int },
            hard + c.face(),
        ),
{
}

/// Adding two cards to any value gives the same result in either order.
pub proof fn lemma_hv_add_commutes(m: HvModel, x: Card, y: Card)
    ensures
        hv_add_model(hv_add_model(m, x), y) == hv_add_model(hv_add_model(m, y), x),
{
}

/// The value reached by adding the cards of `s` in order, starting from the
/// empty hand.
pub open spec fn fold_model(s: Seq<Card>) -> HvModel {
    s.fold_left(start_model(), |m: HvModel, c: Card| hv_add_model(m, c))
}

/// Number of aces among the cards of `s`.
pub open spec fn ace_count(s: Seq<Card>) -> int
    decreases s.len(),
{
    if s.len() == 0 {
        0
    } else {
        ace_count(s.drop_last()) + if s.last() == Card::Ace {
            1int
        } else {
            0int
        }
    }
}

/// Sum of the low-ace face values of the cards of `s`.
pub open spec fn face_total(s: Seq<Card>) -> int
    decreases s.len(),
{
    if s.len() == 0 {
        0
    } else {
        face_total(s.drop_last()) + s.last().face()
    }
}

pub proof fn lemma_card_measures_nonneg(s: Seq<Card>)
    ensures
        ace_count(s) >= 0,
        face_total(s) >= ace_count(s),
    decreases s.len(),
{
    if s.len() > 0 {
        lemma_card_measures_nonneg(s.drop_last());
    }
}

/// Repeated addition from the empty hand computes the best-for-player
/// evaluation of the multiset of cards added.
pub proof fn lemma_fold_value(s: Seq<Card>)
    ensures
        fold_model(s) == best_value(ace_count(s), face_total(s)),
    decreases s.len(),
{
    let f = |m: HvModel, c: Card| hv_add_model(m, c);
    if s.len() == 0 {
    } else {
        lemma_fold_value(s.drop_last());
        lemma_card_measures_nonneg(s.drop_last());
        lemma_best_value_add(ace_count(s.drop_last()), face_total(s.drop_last()), s.last());
        assert(s.fold_left(start_model(), f) == f(s.drop_last().fold_left(start_model(), f), s.last()));
    }
}

/// Hand-value addition is order-independent: two deal orders of the same
/// multiset of cards reach the same value.
pub proof fn lemma_value_order_independent(s1: Seq<Card>, s2: Seq<Card>)
    requires
        s1.to_multiset() == s2.to_multiset(),
    ensures
        fold_model(s1) == fold_model(s2),
{
    let f = |m: HvModel, c: Card| hv_add_model(m, c);
    assert(vstd::seq_lib::commutative_foldl(f)) by {
        assert forall|x: Card, y: Card, v: HvModel| #[trigger] f(f(v, x), y) == f(f(v, y), x) by {
            lemma_hv_add_commutes(v, x, y);
        }
    }
    vstd::seq_lib::lemma_fold_left_permutation(s1, s2, f, start_model());
}

/// A hand total, tagged `Soft` when an ace is currently counted as 11.
#[derive(Copy, Clone, Debug, PartialEq, Eq, Structural, Hash)]
pub enum HandValue {
    Hard(u32),
    Soft(u32),
}

impl HandValue {
    /// The model this value denotes.
    pub open spec fn model(self) -> HvModel {
        match self {
            HandValue::Hard(x) => HvModel { soft: false, total: x as int },
            HandValue::Soft(x) => HvModel { soft: true, total: x as int },
        }
    }

    /// The numeric total, soft or hard.
    pub fn total(self) -> (t: u32)
        ensures
            t == self.model().total,
    {
        match self {
            HandValue::Hard(x) => x,
            HandValue::Soft(x) => x,
        }
    }

    /// Card addition, as the rules of blackjack state it.
    pub fn add_card(self, c: Card) -> (r: HandValue)
        requires
            self.model().total + 21 <= u32::MAX,
        ensures
            r.model() == hv_add_model(self.model(), c),
    {
        let face: u32 = (c.index() + 1) as u32;
        match self {
            HandValue::Soft(x) => {
                if x + face > 21 {
                    HandValue::Hard(x + face - 10)
                } else {
                    HandValue::Soft(x + face)
                }
            },
            HandValue::Hard(x) => {
                if face == 1 && x <= 10 {
                    HandValue::Soft(x + 11)
                } else {
                    HandValue::Hard(x + face)
                }
            },
        }
    }

    /// The natural order of values: any soft value sorts below any hard
    /// value; within a kind, by total.
    pub open spec fn le_spec(self, other: HandValue) -> bool {
        match (self, other) {
            (HandValue::Soft(_), HandValue::Hard(_)) => true,
            (HandValue::Hard(_), HandValue::Soft(_)) => false,
            _ => self.model().total <= other.model().total,
        }
    }

    pub fn le(self, other: HandValue) -> (r: bool)
        ensures
            r == self.le_spec(other),
    {
        match (self, other) {
            (HandValue::Soft(_), HandValue::Hard(_)) => true,
            (HandValue::Hard(_), HandValue::Soft(_)) => false,
            (HandValue::Hard(x), HandValue::Hard(y)) => x <= y,
            (HandValue::Soft(x), HandValue::Soft(y)) => x <= y,
        }
    }
}

} // verus!
