//! The rule engine of a single-player pattern-matching card game: a
//! deck of 81 four-attribute cards, a tableau the player sees, a
//! three-slot selection toggled one position at a time, the predicate
//! deciding whether three cards form a valid set, and the operations
//! that resolve a completed selection against tableau and deck.

pub mod board;
pub mod card;
pub mod deck;
pub mod selection;

pub use board::Board;
pub use card::all_same_or_different;
pub use card::is_set;
pub use card::Card;
pub use deck::Deck;
pub use selection::CardSelection;
pub use selection::FullError;
