//! Poker hand evaluation: a card model, a classifier for five-card hands and
//! a selector of the best five-card hand within a pool of five to seven cards,
//! with the table state that a game round runs on.
use vstd::prelude::*;

pub mod best;
pub mod card;
pub mod game;
pub mod hand;
pub mod kicker;

pub use best::{best_hand, winners, InvalidPoolSize};
pub use card::{compare, get_next_card_type, get_next_face_character, is_same_suit, rank_successor};
pub use card::{Card, CardType, FaceCharacter, Suit};
pub use game::{is_fold_command, is_fold_text, new_deck, Chip, Config, Game, Player, Round};
pub use hand::{classify, compare_hands, compare_tiebreaks, evaluate, rank_hand};
pub use hand::{EvaluatedHand, HandRank};

verus! {

} // verus!
