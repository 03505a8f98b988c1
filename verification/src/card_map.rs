//! A ten-slot table of optional values keyed by card rank.

use vstd::prelude::*;

use crate::cards::{card_at, card_of, Card};

verus! {

/// A fixed table with one optional slot per rank. An empty slot means "no
/// value recorded", which is distinct from any recorded value.
#[derive(Clone, Debug, PartialEq, Eq)]
pub struct CardMap<T> {
    slots: [Option<T>; 10],
}

impl<T> View for CardMap<T> {
    type V = Seq<Option<T>>;

    closed spec fn view(&self) -> Seq<Option<T>> {
        self.slots@
    }
}

/// The recorded entries of a prefix of the table, in rank order.
pub open spec fn entries_of<T>(s: Seq<Option<T>>) -> Seq<(Card, T)>
    decreases s.len(),
{
    if s.len() == 0 {
        Seq::empty()
    } else {
        match s.last() {
            Some(v) => entries_of(s.drop_last()).push((card_at(s.len() - 1), v)),
            None => entries_of(s.drop_last()),
        }
    }
}

impl<T> CardMap<T> {
    /// A table with every slot empty.
    pub fn new() -> (m: CardMap<T>)
        ensures
            m@.len() == 10,
            forall|i: int| 0 <= i < 10 ==> m@[i] is None,
    {
        CardMap { slots: [None, None, None, None, None, None, None, None, None, None] }
    }

    /// Record `val` for `card`, replacing any earlier value.
    pub fn set(&mut self, card: Card, val: T)
        requires
            old(self)@.len() == 10,
        ensures
            final(self)@ == old(self)@.update(card.idx(), Some(val)),
    {
        self.slots[card.index()] = Some(val);
    }

    /// The slot of `card`: the recorded value, or `None`.
    pub fn get(&self, card: Card) -> (r: &Option<T>)
        requires
            self@.len() == 10,
        ensures
            *r == self@[card.idx()],
    {
        vstd::array::array_index_get(&self.slots, card.index())
    }
}

impl<T: Copy> CardMap<T> {
    /// Record `val` for every rank.
    pub fn fill(&mut self, val: T)
        ensures
            final(self)@.len() == 10,
            forall|i: int| 0 <= i < 10 ==> final(self)@[i] == Some(val),
    {
        self.slots = [Some(val); 10];
    }

    /// The recorded entries, in rank order.
    pub fn iter(&self) -> (r: Vec<(Card, T)>)
        requires
            self@.len() == 10,
        ensures
            r@ == entries_of(self@),
    {
        let mut out: Vec<(Card, T)> = Vec::new();
        let mut i: usize = 0;
        while i < 10
            invariant
                i <= 10,
                self@.len() == 10,
                out@ == entries_of(self@.take(i as int)),
            decreases 10 - i,
        {
            proof {
                assert(self@.take(i + 1).drop_last() =~= self@.take(i as int));
            }
            let c = card_of(i);
            match self.get(c) {
                Some(v) => {
                    out.push((c, *v));
                },
                None => {},
            }
            i += 1;
        }
        proof {
            assert(self@.take(10) =~= self@);
        }
        out
    }
}

} // verus!
