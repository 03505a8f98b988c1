//! Exact expected-value analysis for blackjack hands drawn from a finite shoe.
//!
//! The shoe and every player hand are ten-slot rank multisets; this crate
//! verifies the rank arithmetic, the soft/hard hand-value rule, the
//! enumeration of all reachable hands, and the ordering that lets a dynamic
//! program fill per-hand expected values bottom-up.

use vstd::prelude::*;

pub mod card_map;
pub mod cards;
pub mod deck;
pub mod hands;

pub use cards::Card;
pub use cards::HandValue;
pub use deck::Deck;
pub use deck::DeckIterator;
pub use deck::Hand;
pub use deck::RankIterator;
pub use card_map::CardMap;
pub use hands::double_allowed;
pub use hands::dp_key;
pub use hands::generate_all_hands;
pub use hands::hands_in_dp_order;
pub use hands::pair_rank;
pub use hands::split_allowed;

verus! {

} // verus!
