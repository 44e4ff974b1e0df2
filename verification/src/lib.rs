//! A turn-based word-construction game.
//!
//! Players submit candidate words built only from the letters of a fixed
//! starting string; each accepted word scores its length, and scores
//! accumulate per player. The engine also keeps an append-only log of
//! accepted submissions and the set of words already used. A separate
//! `AllowedWords` lexicon offers a standalone membership collection.

pub mod game;
pub mod letters;
pub mod lexicon;

pub use game::GameError;
pub use game::Player;
pub use game::ScoreBoard;
pub use game::WordGame;
pub use letters::is_all_char_present_in_start_string;
pub use letters::is_only_lower_case_elements;
pub use lexicon::AllowedWords;
pub use lexicon::ValidWords;
