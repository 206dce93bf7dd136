use vstd::prelude::*;

pub mod board;
pub mod difficulty;
pub mod helpers;
pub mod score;
pub mod states;

pub use board::Board;
pub use difficulty::Difficulty;
pub use helpers::random_two_or_four;
pub use score::{format_score, parse_score};
pub use states::{App, Page, SettingsDir};

verus! {

/// A direction a move command slides the tiles in.
#[derive(Clone, Copy, PartialEq, Eq, Structural, Debug)]
pub enum MoveDir {
    Left,
    Right,
    Up,
    Down,
}

} // verus!
