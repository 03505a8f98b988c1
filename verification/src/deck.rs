//! Ten-slot card multisets: the shoe, and every player hand.

use vstd::prelude::*;

use crate::cards::{
    ace_count, best_value, busted, card_at, card_of, face_total, fold_model, lemma_fold_value,
    Card, HandValue, HvModel,
};

verus! {

/// Number of cards in a ten-slot counter.
pub open spec fn sum_counts(s: Seq<usize>) -> int
    decreases s.len(),
{
    if s.len() == 0 {
        0
    } else {
        sum_counts(s.drop_last()) + s.last()
    }
}

/// Low-ace total of a ten-slot counter: each slot weighted by its face
/// value, the slot of rank `i` weighing `i + 1`.
pub open spec fn hard_total(s: Seq<usize>) -> int
    decreases s.len(),
{
    if s.len() == 0 {
        0
    } else {
        hard_total(s.drop_last()) + (s.len() as int) * s.last()
    }
}

/// `a` is a submultiset of `b`, slot by slot.
pub open spec fn counts_le(a: Seq<usize>, b: Seq<usize>) -> bool {
    forall|i: int| 0 <= i < 10 ==> a[i] <= b[i]
}

pub proof fn lemma_sum_nonneg(s: Seq<usize>)
    ensures
        sum_counts(s) >= 0,
        hard_total(s) >= sum_counts(s),
    decreases s.len(),
{
    if s.len() > 0 {
        lemma_sum_nonneg(s.drop_last());
        assert((s.len() as int) * s.last() >= s.last()) by (nonlinear_arith)
            requires
                s.len() >= 1,
                s.last() >= 0,
        ;
    }
}

pub proof fn lemma_elem_le_sum(s: Seq<usize>, i: int)
    requires
        0 <= i < s.len(),
    ensures
        s[i] <= sum_counts(s),
    decreases s.len(),
{
    lemma_sum_nonneg(s.drop_last());
    if i < s.len() - 1 {
        lemma_elem_le_sum(s.drop_last(), i);
    }
}

pub proof fn lemma_sum_update(s: Seq<usize>, i: int, v: usize)
    requires
        0 <= i < s.len(),
    ensures
        sum_counts(s.update(i, v)) == sum_counts(s) - s[i] + v,
        hard_total(s.update(i, v)) == hard_total(s) + (i + 1) * (v - s[i]),
    decreases s.len(),
{
    let t = s.update(i, v);
    if i == s.len() - 1 {
        assert(t.drop_last() =~= s.drop_last());
        assert((s.len() as int) * (v - s[i]) == (s.len() as int) * v - (s.len() as int) * s[i])
            by (nonlinear_arith);
    } else {
        assert(t.drop_last() =~= s.drop_last().update(i, v));
        lemma_sum_update(s.drop_last(), i, v);
    }
}

pub proof fn lemma_sum_const(s: Seq<usize>, v: usize)
    requires
        forall|i: int| 0 <= i < s.len() ==> s[i] == v,
    ensures
        sum_counts(s) == s.len() * v,
    decreases s.len(),
{
    if s.len() > 0 {
        lemma_sum_const(s.drop_last(), v);
        assert((s.len() as int) * v == (s.len() - 1) * v + v) by (nonlinear_arith);
    }
}

pub proof fn lemma_hard_zero(s: Seq<usize>)
    requires
        forall|i: int| 0 <= i < s.len() ==> s[i] == 0,
    ensures
        hard_total(s) == 0,
        sum_counts(s) == 0,
    decreases s.len(),
{
    if s.len() > 0 {
        lemma_hard_zero(s.drop_last());
    }
}

pub proof fn lemma_sum_pointwise_le(a: Seq<usize>, b: Seq<usize>)
    requires
        a.len() == b.len(),
        forall|i: int| 0 <= i < a.len() ==> a[i] <= b[i],
    ensures
        sum_counts(a) <= sum_counts(b),
        hard_total(a) <= hard_total(b),
    decreases a.len(),
{
    if a.len() > 0 {
        lemma_sum_pointwise_le(a.drop_last(), b.drop_last());
        assert(a.last() <= b.last());
        assert((a.len() as int) * a.last() <= (a.len() as int) * b.last()) by (nonlinear_arith)
            requires
                a.len() >= 1,
                a.last() <= b.last(),
        ;
    }
}

/// A strictly larger multiset has a strictly larger low-ace total.
pub proof fn lemma_hard_strict_lt(a: Seq<usize>, b: Seq<usize>, j: int)
    requires
        a.len() == b.len(),
        forall|i: int| 0 <= i < a.len() ==> a[i] <= b[i],
        0 <= j < a.len(),
        a[j] < b[j],
    ensures
        hard_total(a) < hard_total(b),
    decreases a.len(),
{
    if j == a.len() - 1 {
        lemma_sum_pointwise_le(a.drop_last(), b.drop_last());
        assert((a.len() as int) * a.last() < (a.len() as int) * b.last()) by (nonlinear_arith)
            requires
                a.len() >= 1,
                a.last() < b.last(),
        ;
    } else {
        lemma_hard_strict_lt(a.drop_last(), b.drop_last(), j);
        assert(a.last() <= b.last());
        assert((a.len() as int) * a.last() <= (a.len() as int) * b.last()) by (nonlinear_arith)
            requires
                a.len() >= 1,
                a.last() <= b.last(),
        ;
    }
}

pub proof fn lemma_sum_pointwise_add(a: Seq<usize>, b: Seq<usize>, c: Seq<usize>)
    requires
        a.len() == b.len(),
        b.len() == c.len(),
        forall|i: int| 0 <= i < a.len() ==> c[i] == a[i] + b[i],
    ensures
        sum_counts(c) == sum_counts(a) + sum_counts(b),
    decreases a.len(),
{
    if a.len() > 0 {
        lemma_sum_pointwise_add(a.drop_last(), b.drop_last(), c.drop_last());
    }
}

/// Number of cards of slot `i` in a sequence of cards.
pub open spec fn rank_count(s: Seq<Card>, i: int) -> int
    decreases s.len(),
{
    if s.len() == 0 {
        0
    } else {
        rank_count(s.drop_last(), i) + if s.last().idx() == i {
            1int
        } else {
            0int
        }
    }
}

/// No card is worth more than ten, so a hand's low-ace total is at most
/// ten times its card count.
pub proof fn lemma_hard_le_ten_sum(s: Seq<usize>)
    requires
        s.len() <= 10,
    ensures
        hard_total(s) <= 10 * sum_counts(s),
    decreases s.len(),
{
    if s.len() > 0 {
        lemma_hard_le_ten_sum(s.drop_last());
        assert((s.len() as int) * s.last() <= 10 * s.last()) by (nonlinear_arith)
            requires
                0 < s.len() <= 10,
                s.last() >= 0,
        ;
    }
}

pub proof fn lemma_hard_prefix_le(s: Seq<usize>, k: int)
    requires
        0 <= k <= s.len(),
    ensures
        hard_total(s.take(k)) <= hard_total(s),
    decreases s.len(),
{
    if k == s.len() {
        assert(s.take(k) =~= s);
    } else {
        assert(s.drop_last().take(k) =~= s.take(k));
        lemma_hard_prefix_le(s.drop_last(), k);
        assert((s.len() as int) * s.last() >= 0) by (nonlinear_arith)
            requires
                s.len() >= 1,
                s.last() >= 0,
        ;
    }
}

/// The hand value of a ten-slot counter read as a hand.
pub open spec fn counts_value(s: Seq<usize>) -> HvModel {
    best_value(s[0] as int, hard_total(s))
}

/// A counter's hand busts exactly when its low-ace total passes 21.
pub proof fn lemma_busted_iff(s: Seq<usize>)
    requires
        s.len() == 10,
    ensures
        busted(counts_value(s)) <==> hard_total(s) > 21,
{
}

pub proof fn lemma_rank_count_prefix_le(s: Seq<Card>, k: int, i: int)
    requires
        0 <= k <= s.len(),
    ensures
        rank_count(s.take(k), i) <= rank_count(s, i),
    decreases s.len(),
{
    if k == s.len() {
        assert(s.take(k) =~= s);
    } else {
        assert(s.drop_last().take(k) =~= s.take(k));
        lemma_rank_count_prefix_le(s.drop_last(), k, i);
    }
}

/// The multiset of cards held by a shoe or a hand: ten slot counts, one for
/// each rank, with the number of cards cached.
#[derive(Copy, Clone, Debug, Hash, PartialEq, Eq)]
pub struct Deck {
    cards: [usize; 10],
    card_count: usize,
}

/// A hand is a deck read as the player's cards.
pub type Hand = Deck;

impl View for Deck {
    type V = Seq<usize>;

    closed spec fn view(&self) -> Seq<usize> {
        self.cards@
    }
}

impl Deck {
    /// Number of cards held.
    pub closed spec fn total(self) -> int {
        self.card_count as int
    }

    /// The cached count agrees with the slots.
    pub open spec fn wf(self) -> bool {
        &&& self@.len() == 10
        &&& self.total() == sum_counts(self@)
    }

    /// The hand value of this multiset: the best-for-player evaluation.
    pub open spec fn value(self) -> HvModel {
        counts_value(self@)
    }

    /// The empty multiset.
    pub fn new() -> (d: Deck)
        ensures
            d.wf(),
            d.total() == 0,
            forall|i: int| 0 <= i < 10 ==> d@[i] == 0,
    {
        let d = Deck { cards: [0, 0, 0, 0, 0, 0, 0, 0, 0, 0], card_count: 0 };
        proof {
            lemma_sum_const(d@, 0);
        }
        d
    }

    /// The multiset holding exactly the cards of a slice.
    pub fn from_cards(cards: &[Card]) -> (d: Deck)
        ensures
            d.wf(),
            d.total() == cards@.len(),
            forall|i: int| 0 <= i < 10 ==> d@[i] == rank_count(cards@, i),
    {
        let n = cards.len();
        assert(cards@.len() == n);
        let mut d = Deck::new();
        d.add_cards(cards);
        d
    }

    /// A standard shoe of `deck_count` 52-card decks: four of each rank two
    /// through nine, four aces, and sixteen ten-valued cards per deck.
    pub fn generate(deck_count: usize) -> (d: Deck)
        requires
            deck_count * 52 <= usize::MAX,
        ensures
            d.wf(),
            d.total() == deck_count * 52,
            forall|i: int| 0 <= i < 9 ==> d@[i] == deck_count * 4,
            d@[9] == deck_count * 16,
    {
        proof {
            assert(deck_count * 4 <= deck_count * 52 && deck_count * 16 <= deck_count * 52)
                by (nonlinear_arith);
        }
        let base: usize = deck_count * 4;
        let mut cards: [usize; 10] = [base, base, base, base, base, base, base, base, base, base];
        proof {
            lemma_sum_const(cards@, base);
            lemma_sum_update(cards@, 9, (base * 4) as usize);
            assert(deck_count * 16 == deck_count * 4 * 4) by (nonlinear_arith);
            assert(10 * (deck_count * 4) + 10 * (deck_count * 16 - deck_count * 4)
                == deck_count * 52 + 9 * (deck_count * 16 - deck_count * 4)) by (nonlinear_arith);
        }
        cards[9] = base * 4;
        Deck { cards, card_count: deck_count * 52 }
    }

    /// How many cards of rank `card` are held.
    pub fn get_count_of_card(&self, card: Card) -> (n: usize)
        ensures
            n == self@[card.idx()],
    {
        self.cards[card.index()]
    }

    /// The ten slot counts as a plain array: the rank histogram that an
    /// outside dealer engine consumes.
    pub fn to_counts(&self) -> (a: [usize; 10])
        ensures
            a@ == self@,
    {
        self.cards
    }

    /// How many cards are held in all.
    pub fn get_count(&self) -> (n: usize)
        ensures
            n == self.total(),
    {
        self.card_count
    }

    /// Add one card, in place.
    pub fn add_card(&mut self, c: Card)
        requires
            old(self).wf(),
            old(self).total() < usize::MAX,
        ensures
            final(self).wf(),
            final(self).total() == old(self).total() + 1,
            final(self)@[c.idx()] == old(self)@[c.idx()] + 1,
            forall|i: int| 0 <= i < 10 && i != c.idx() ==> final(self)@[i] == old(self)@[i],
    {
        let i = c.index();
        proof {
            lemma_elem_le_sum(self@, i as int);
            lemma_sum_update(self@, i as int, (self@[i as int] + 1) as usize);
        }
        self.cards[i] = self.cards[i] + 1;
        self.card_count = self.card_count + 1;
    }

    /// Remove one card, in place. The caller owes a card of that rank.
    pub fn remove_card(&mut self, c: Card)
        requires
            old(self).wf(),
            old(self)@[c.idx()] >= 1,
        ensures
            final(self).wf(),
            final(self).total() == old(self).total() - 1,
            final(self)@[c.idx()] == old(self)@[c.idx()] - 1,
            forall|i: int| 0 <= i < 10 && i != c.idx() ==> final(self)@[i] == old(self)@[i],
    {
        let i = c.index();
        proof {
            lemma_elem_le_sum(self@, i as int);
            lemma_sum_update(self@, i as int, (self@[i as int] - 1) as usize);
        }
        self.cards[i] = self.cards[i] - 1;
        self.card_count = self.card_count - 1;
    }

    /// Add each card of a slice, in place.
    pub fn add_cards(&mut self, cards: &[Card])
        requires
            old(self).wf(),
            old(self).total() + cards@.len() <= usize::MAX,
        ensures
            final(self).wf(),
            final(self).total() == old(self).total() + cards@.len(),
            forall|i: int| 0 <= i < 10
                ==> final(self)@[i] == old(self)@[i] + rank_count(cards@, i),
    {
        let ghost s = cards@;
        let mut k: usize = 0;
        while k < cards.len()
            invariant
                k <= s.len(),
                cards@ == s,
                self.wf(),
                self.total() == old(self).total() + k,
                old(self).total() + s.len() <= usize::MAX,
                forall|i: int| 0 <= i < 10
                    ==> self@[i] == old(self)@[i] + rank_count(s.take(k as int), i),
            decreases s.len() - k,
        {
            let c = cards[k];
            proof {
                assert(s.take(k + 1).drop_last() =~= s.take(k as int));
                assert(s.take(k + 1).last() == c);
                assert forall|i: int| 0 <= i < 10 implies rank_count(s.take(k + 1), i)
                    == rank_count(s.take(k as int), i) + if c.idx() == i { 1int } else { 0int } by {
                }
            }
            self.add_card(c);
            k += 1;
        }
        proof {
            assert(s.take(s.len() as int) =~= s);
        }
    }

    /// Remove each card of a slice, in place. The caller owes every card
    /// named, rank by rank.
    pub fn remove_cards(&mut self, cards: &[Card])
        requires
            old(self).wf(),
            forall|i: int| 0 <= i < 10 ==> rank_count(cards@, i) <= old(self)@[i],
        ensures
            final(self).wf(),
            final(self).total() == old(self).total() - cards@.len(),
            forall|i: int| 0 <= i < 10
                ==> final(self)@[i] == old(self)@[i] - rank_count(cards@, i),
    {
        let ghost s = cards@;
        let mut k: usize = 0;
        while k < cards.len()
            invariant
                k <= s.len(),
                cards@ == s,
                self.wf(),
                self.total() == old(self).total() - k,
                forall|i: int| 0 <= i < 10 ==> rank_count(s, i) <= old(self)@[i],
                forall|i: int| 0 <= i < 10
                    ==> self@[i] == old(self)@[i] - rank_count(s.take(k as int), i),
            decreases s.len() - k,
        {
            let c = cards[k];
            proof {
                assert(s.take(k + 1).drop_last() =~= s.take(k as int));
                assert(s.take(k + 1).last() == c);
                lemma_rank_count_prefix_le(s, k + 1, c.idx());
                assert(self@[c.idx()] >= 1);
            }
            self.remove_card(c);
            k += 1;
        }
        proof {
            assert(s.take(s.len() as int) =~= s);
        }
    }

    /// The multiset grown by one card.
    pub fn plus_card(&self, c: Card) -> (d: Deck)
        requires
            self.wf(),
            self.total() < usize::MAX,
        ensures
            d.wf(),
            d.total() == self.total() + 1,
            d@ == self@.update(c.idx(), (self@[c.idx()] + 1) as usize),
    {
        proof {
            lemma_elem_le_sum(self@, c.idx());
        }
        let mut d = *self;
        d.add_card(c);
        proof {
            assert(d@ =~= self@.update(c.idx(), (self@[c.idx()] + 1) as usize));
        }
        d
    }

    /// The multiset less one card of rank `c`; `None` when none is left.
    pub fn minus_card(&self, c: Card) -> (r: Option<Deck>)
        requires
            self.wf(),
        ensures
            r is Some <==> self@[c.idx()] >= 1,
            r matches Some(d) ==> {
                &&& d.wf()
                &&& d.total() == self.total() - 1
                &&& d@ == self@.update(c.idx(), (self@[c.idx()] - 1) as usize)
            },
    {
        if self.cards[c.index()] == 0 {
            None
        } else {
            let mut d = *self;
            d.remove_card(c);
            proof {
                assert(d@ =~= self@.update(c.idx(), (self@[c.idx()] - 1) as usize));
            }
            Some(d)
        }
    }

    /// Multiset difference; `None` when any slot of `rhs` exceeds ours.
    pub fn minus_deck(&self, rhs: &Deck) -> (r: Option<Deck>)
        requires
            self.wf(),
            rhs.wf(),
        ensures
            r is Some <==> counts_le(rhs@, self@),
            r matches Some(d) ==> {
                &&& d.wf()
                &&& d.total() == self.total() - rhs.total()
                &&& forall|i: int| 0 <= i < 10 ==> d@[i] == self@[i] - rhs@[i]
            },
    {
        let mut out: [usize; 10] = [0, 0, 0, 0, 0, 0, 0, 0, 0, 0];
        let mut i: usize = 0;
        while i < 10
            invariant
                i <= 10,
                out@.len() == 10,
                self.wf(),
                rhs.wf(),
                forall|j: int| 0 <= j < i ==> rhs@[j] <= self@[j],
                forall|j: int| 0 <= j < i ==> out@[j] == self@[j] - rhs@[j],
                forall|j: int| i <= j < 10 ==> out@[j] == 0,
            decreases 10 - i,
        {
            if self.cards[i] < rhs.cards[i] {
                return None;
            }
            out[i] = self.cards[i] - rhs.cards[i];
            i += 1;
        }
        proof {
            lemma_sum_pointwise_le(rhs@, self@);
            lemma_sum_pointwise_add(rhs@, out@, self@);
        }
        Some(Deck { cards: out, card_count: self.card_count - rhs.card_count })
    }

    /// Multiset sum.
    pub fn plus_deck(&self, rhs: &Deck) -> (d: Deck)
        requires
            self.wf(),
            rhs.wf(),
            self.total() + rhs.total() <= usize::MAX,
        ensures
            d.wf(),
            d.total() == self.total() + rhs.total(),
            forall|i: int| 0 <= i < 10 ==> d@[i] == self@[i] + rhs@[i],
    {
        let mut out: [usize; 10] = [0, 0, 0, 0, 0, 0, 0, 0, 0, 0];
        let mut i: usize = 0;
        while i < 10
            invariant
                i <= 10,
                out@.len() == 10,
                self.wf(),
                rhs.wf(),
                self.total() + rhs.total() <= usize::MAX,
                forall|j: int| 0 <= j < i ==> out@[j] == self@[j] + rhs@[j],
                forall|j: int| i <= j < 10 ==> out@[j] == 0,
            decreases 10 - i,
        {
            proof {
                lemma_elem_le_sum(self@, i as int);
                lemma_elem_le_sum(rhs@, i as int);
            }
            out[i] = self.cards[i] + rhs.cards[i];
            i += 1;
        }
        proof {
            lemma_sum_pointwise_add(self@, rhs@, out@);
        }
        Deck { cards: out, card_count: self.card_count + rhs.card_count }
    }

    /// An iterator over every card held, in rank order.
    pub fn iter(&self) -> (it: DeckIterator)
        ensures
            it.wf(),
            it.counts() == self@,
            it.remaining() == card_seq(self@),
    {
        let it = DeckIterator { cards: self.cards, rank: 0, count: 0 };
        proof {
            assert(it.remaining() =~= card_seq(self@));
        }
        it
    }

    /// An iterator over each rank held, once, in rank order.
    pub fn rank_iter(&self) -> (it: RankIterator)
        ensures
            it.wf(),
            it.counts() == self@,
            it.pos() == 0,
    {
        RankIterator { cards: self.cards, rank: 0 }
    }

    /// The hand value of this multiset, per the card-addition rule: the
    /// largest total at or below 21 that the aces allow, else the least
    /// bust.
    pub fn get_hand_value(&self) -> (v: HandValue)
        requires
            self.wf(),
            10 * self.total() + 10 <= u32::MAX,
        ensures
            v.model() == self.value(),
    {
        proof {
            lemma_hard_le_ten_sum(self@);
        }
        let mut hard: usize = 0;
        let mut i: usize = 0;
        while i < 10
            invariant
                i <= 10,
                self.wf(),
                hard_total(self@) + 10 <= u32::MAX,
                hard == hard_total(self@.take(i as int)),
            decreases 10 - i,
        {
            proof {
                assert(self@.take(i + 1).drop_last() =~= self@.take(i as int));
                lemma_hard_prefix_le(self@, i + 1);
                lemma_sum_nonneg(self@.take(i as int));
            }
            hard = hard + (i + 1) * self.cards[i];
            i += 1;
        }
        proof {
            assert(self@.take(10) =~= self@);
        }
        if self.cards[0] > 0 && hard + 10 <= 21 {
            HandValue::Soft((hard + 10) as u32)
        } else {
            HandValue::Hard(hard as u32)
        }
    }

    /// A natural: exactly two cards, one ace and one ten.
    pub fn is_blackjack(&self) -> (r: bool)
        requires
            self.wf(),
        ensures
            r == is_blackjack_spec(self@),
    {
        self.cards[0] == 1 && self.cards[9] == 1 && self.card_count == 2
    }

    /// Whether every rank of `self` is covered by `other`.
    pub fn is_subset(&self, other: &Self) -> (r: bool)
        ensures
            r == counts_le(self@, other@),
    {
        let mut i: usize = 0;
        while i < 10
            invariant
                i <= 10,
                forall|j: int| 0 <= j < i ==> self@[j] <= other@[j],
            decreases 10 - i,
        {
            if self.cards[i] > other.cards[i] {
                return false;
            }
            i += 1;
        }
        true
    }
}

/// The first slot at or after `k` that still holds a card; 10 when none is
/// left.
pub open spec fn next_rank(s: Seq<usize>, k: int) -> int
    decreases 10 - k,
{
    if !(0 <= k < 10) {
        10
    } else if s[k] > 0 {
        k
    } else {
        next_rank(s, k + 1)
    }
}

/// Yields each rank that the deck holds, once, in rank order.
pub struct RankIterator {
    cards: [usize; 10],
    rank: usize,
}

impl RankIterator {
    /// The slot counts this iterator walks.
    pub closed spec fn counts(self) -> Seq<usize> {
        self.cards@
    }

    /// The slot the next search starts from.
    pub closed spec fn pos(self) -> int {
        self.rank as int
    }

    pub open spec fn wf(self) -> bool {
        self.counts().len() == 10 && 0 <= self.pos() <= 10
    }

    /// The next rank the deck holds, in rank order; `None` once all ranks
    /// below every later slot are gone.
    pub fn next(&mut self) -> (r: Option<Card>)
        requires
            old(self).wf(),
        ensures
            final(self).wf(),
            final(self).counts() == old(self).counts(),
            r is Some <==> next_rank(old(self).counts(), old(self).pos()) < 10,
            r matches Some(c) ==> {
                &&& c.idx() == next_rank(old(self).counts(), old(self).pos())
                &&& final(self).pos() == c.idx() + 1
            },
            r is None ==> final(self).pos() == 10,
    {
        let ghost start = self.pos();
        let mut k = self.rank;
        while k < 10 && self.cards[k] == 0
            invariant
                self.wf(),
                start <= k <= 10,
                next_rank(self.counts(), start) == next_rank(self.counts(), k as int),
            decreases 10 - k,
        {
            k += 1;
        }
        if k >= 10 {
            self.rank = 10;
            None
        } else {
            self.rank = k + 1;
            Some(card_of(k))
        }
    }
}

/// Yields every card of the deck: each rank as many times as the deck holds
/// it, in rank order.
pub struct DeckIterator {
    cards: [usize; 10],
    rank: usize,
    count: usize,
}

/// The cards of slots `k` and later, in rank order, each repeated as often
/// as its slot holds.
pub open spec fn card_seq_from(s: Seq<usize>, k: int) -> Seq<Card>
    decreases 10 - k,
{
    if !(0 <= k < 10) {
        Seq::empty()
    } else {
        Seq::new(s[k] as nat, |j: int| card_at(k)) + card_seq_from(s, k + 1)
    }
}

/// All the cards of a ten-slot counter, in rank order.
pub open spec fn card_seq(s: Seq<usize>) -> Seq<Card> {
    card_seq_from(s, 0)
}

impl DeckIterator {
    /// The slot counts this iterator walks.
    pub closed spec fn counts(self) -> Seq<usize> {
        self.cards@
    }

    pub closed spec fn pos_rank(self) -> int {
        self.rank as int
    }

    pub closed spec fn pos_count(self) -> int {
        self.count as int
    }

    pub open spec fn wf(self) -> bool {
        &&& self.counts().len() == 10
        &&& 0 <= self.pos_rank() <= 10
        &&& self.pos_rank() < 10 ==> (self.pos_count() == 0 || self.pos_count() < self.counts()[
            self.pos_rank()
        ])
    }

    /// The cards not yet yielded.
    pub open spec fn remaining(self) -> Seq<Card> {
        if self.pos_rank() < 10 {
            Seq::new(
                (self.counts()[self.pos_rank()] - self.pos_count()) as nat,
                |j: int| card_at(self.pos_rank()),
            ) + card_seq_from(self.counts(), self.pos_rank() + 1)
        } else {
            Seq::empty()
        }
    }

    /// The next card of the deck, in rank order; `None` once every card has
    /// been yielded.
    pub fn next(&mut self) -> (r: Option<Card>)
        requires
            old(self).wf(),
        ensures
            final(self).wf(),
            final(self).counts() == old(self).counts(),
            old(self).remaining().len() > 0 ==> {
                &&& r == Some(old(self).remaining()[0])
                &&& final(self).remaining() == old(self).remaining().drop_first()
            },
            old(self).remaining().len() == 0 ==> r is None && final(self).remaining().len() == 0,
    {
        let ghost orig = *self;
        while self.rank < 10 && self.cards[self.rank] == 0
            invariant
                self.wf(),
                self.counts() == orig.counts(),
                orig.wf(),
                self.remaining() == orig.remaining(),
                self.pos_rank() < 10 ==> self.pos_count() == 0 || self.counts()[self.pos_rank()]
                    > 0,
            decreases 10 - self.pos_rank(),
        {
            proof {
                let s = self.counts();
                let k = self.pos_rank();
                assert(Seq::new((s[k] - 0) as nat, |j: int| card_at(k)) =~= Seq::<Card>::empty());
                if k + 1 < 10 {
                    assert(self.remaining() =~= Seq::new(
                        (s[k + 1] - 0) as nat,
                        |j: int| card_at(k + 1),
                    ) + card_seq_from(s, k + 2));
                } else {
                    assert(self.remaining() =~= Seq::<Card>::empty());
                }
            }
            self.rank += 1;
            self.count = 0;
        }
        if self.rank >= 10 {
            return None;
        }
        let ret = card_of(self.rank);
        proof {
            assert(self.remaining().len() > 0);
            assert(self.remaining()[0] == card_at(self.pos_rank()));
        }
        self.count += 1;
        let ghost mid = *self;
        if self.count == self.cards[self.rank] {
            self.rank += 1;
            self.count = 0;
            proof {
                let s = mid.counts();
                let k = mid.pos_rank();
                assert(Seq::new((s[k] - s[k]) as nat, |j: int| card_at(k)) =~= Seq::<
                    Card,
                >::empty());
                if k + 1 < 10 {
                    assert(self.remaining() =~= Seq::new(
                        (s[k + 1] - 0) as nat,
                        |j: int| card_at(k + 1),
                    ) + card_seq_from(s, k + 2));
                    assert(mid.remaining() =~= self.remaining());
                } else {
                    assert(mid.remaining() =~= Seq::<Card>::empty());
                }
            }
        }
        proof {
            assert(self.remaining() =~= orig.remaining().drop_first());
        }
        Some(ret)
    }
}

proof fn lemma_card_measures_concat(a: Seq<Card>, b: Seq<Card>)
    ensures
        face_total(a + b) == face_total(a) + face_total(b),
        ace_count(a + b) == ace_count(a) + ace_count(b),
    decreases b.len(),
{
    if b.len() == 0 {
        assert(a + b =~= a);
    } else {
        assert((a + b).drop_last() =~= a + b.drop_last());
        lemma_card_measures_concat(a, b.drop_last());
    }
}

proof fn lemma_card_measures_repeat(n: nat, k: int)
    requires
        0 <= k < 10,
    ensures
        face_total(Seq::new(n, |j: int| card_at(k))) == n * (k + 1),
        ace_count(Seq::new(n, |j: int| card_at(k))) == if k == 0 {
            n as int
        } else {
            0int
        },
    decreases n,
{
    let s = Seq::new(n, |j: int| card_at(k));
    if n > 0 {
        assert(s.drop_last() =~= Seq::new((n - 1) as nat, |j: int| card_at(k)));
        lemma_card_measures_repeat((n - 1) as nat, k);
        assert(s.last().face() == k + 1);
        let m = n as int;
        assert(m * (k + 1) == (m - 1) * (k + 1) + (k + 1)) by (nonlinear_arith);
        assert((n - 1) as nat as int == m - 1);
    }
}

proof fn lemma_card_seq_measures(s: Seq<usize>, k: int)
    requires
        s.len() == 10,
        0 <= k <= 10,
    ensures
        face_total(card_seq_from(s, k)) == hard_total(s) - hard_total(s.take(k)),
        ace_count(card_seq_from(s, k)) == if k == 0 {
            s[0] as int
        } else {
            0int
        },
        card_seq_from(s, k).len() == sum_counts(s) - sum_counts(s.take(k)),
    decreases 10 - k,
{
    if k == 10 {
        assert(s.take(10) =~= s);
    } else {
        let rep = Seq::new(s[k] as nat, |j: int| card_at(k));
        lemma_card_measures_repeat(s[k] as nat, k);
        lemma_card_measures_concat(rep, card_seq_from(s, k + 1));
        lemma_card_seq_measures(s, k + 1);
        assert(s.take(k + 1).drop_last() =~= s.take(k));
        assert(hard_total(s.take(k + 1)) == hard_total(s.take(k)) + (k + 1) * s[k]);
        assert(sum_counts(s.take(k + 1)) == sum_counts(s.take(k)) + s[k]);
    }
}

/// Dealing out every card that a hand holds and adding them up from the
/// empty hand reaches exactly the hand's value. Together with
/// the order-independence of addition, this pins the value of
/// any deal order of the hand.
pub proof fn lemma_deck_fold_value(s: Seq<usize>)
    requires
        s.len() == 10,
    ensures
        fold_model(card_seq(s)) == counts_value(s),
        card_seq(s).len() == sum_counts(s),
{
    lemma_card_seq_measures(s, 0);
    assert(s.take(0) =~= Seq::empty());
    lemma_fold_value(card_seq(s));
}

/// Two cards of rank one and ten, and nothing else.
pub open spec fn is_blackjack_spec(s: Seq<usize>) -> bool {
    s[0] == 1 && s[9] == 1 && sum_counts(s) == 2
}

/// Round trip: taking one card of rank `c` out of a shoe and putting it
/// back restores the shoe. The two updates are the views that `minus_card`
/// and `plus_card` leave behind.
pub proof fn lemma_card_round_trip(s: Seq<usize>, c: Card)
    requires
        s.len() == 10,
        s[c.idx()] >= 1,
    ensures
        ({
            let removed = s.update(c.idx(), (s[c.idx()] - 1) as usize);
            removed.update(c.idx(), (removed[c.idx()] + 1) as usize) == s
        }),
{
    let removed = s.update(c.idx(), (s[c.idx()] - 1) as usize);
    assert(removed.update(c.idx(), (removed[c.idx()] + 1) as usize) =~= s);
}

/// Multiset difference undoes multiset sum: when `ab` holds `a + b` slot by
/// slot and `r` holds `ab - b` slot by slot, `r` is `a` again.
pub proof fn lemma_deck_sum_difference(a: Seq<usize>, b: Seq<usize>, ab: Seq<usize>, r: Seq<usize>)
    requires
        a.len() == 10,
        r.len() == 10,
        forall|i: int| 0 <= i < 10 ==> ab[i] == a[i] + b[i],
        forall|i: int| 0 <= i < 10 ==> r[i] == ab[i] - b[i],
    ensures
        r == a,
{
    assert(r =~= a);
}

} // verus!
