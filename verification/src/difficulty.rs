use vstd::prelude::*;

verus! {

/// Difficulty level of a game. Each level fixes the tile value that,
/// once reached, latches the `won` flag of a board. The ordering is
/// total, `Easy` lowest; stepping up or down saturates at the endpoints.
#[derive(Clone, Copy, PartialEq, Eq, Structural, Debug)]
pub enum Difficulty {
    Easy,
    Normal,
    Hard,
    VeryHard,
    Insane,
}

impl Difficulty {
    /// The tile value that wins the game at this difficulty.
    pub open spec fn win_value_spec(self) -> u32 {
        match self {
            Difficulty::Easy => 512,
            Difficulty::Normal => 1024,
            Difficulty::Hard => 2048,
            Difficulty::VeryHard => 4096,
            Difficulty::Insane => 8192,
        }
    }

    /// One step harder, saturating at `Insane`.
    pub open spec fn up_spec(self) -> Difficulty {
        match self {
            Difficulty::Easy => Difficulty::Normal,
            Difficulty::Normal => Difficulty::Hard,
            Difficulty::Hard => Difficulty::VeryHard,
            Difficulty::VeryHard => Difficulty::Insane,
            Difficulty::Insane => Difficulty::Insane,
        }
    }

    /// One step easier, saturating at `Easy`.
    pub open spec fn down_spec(self) -> Difficulty {
        match self {
            Difficulty::Easy => Difficulty::Easy,
            Difficulty::Normal => Difficulty::Easy,
            Difficulty::Hard => Difficulty::Normal,
            Difficulty::VeryHard => Difficulty::Hard,
            Difficulty::Insane => Difficulty::VeryHard,
        }
    }

    pub fn win_value(self) -> (v: u32)
        ensures
            v == self.win_value_spec(),
    {
        match self {
            Difficulty::Easy => 512,
            Difficulty::Normal => 1024,
            Difficulty::Hard => 2048,
            Difficulty::VeryHard => 4096,
            Difficulty::Insane => 8192,
        }
    }

    pub fn up(self) -> (d: Difficulty)
        ensures
            d == self.up_spec(),
    {
        match self {
            Difficulty::Easy => Difficulty::Normal,
            Difficulty::Normal => Difficulty::Hard,
            Difficulty::Hard => Difficulty::VeryHard,
            Difficulty::VeryHard => Difficulty::Insane,
            Difficulty::Insane => Difficulty::Insane,
        }
    }

    pub fn down(self) -> (d: Difficulty)
        ensures
            d == self.down_spec(),
    {
        match self {
            Difficulty::Easy => Difficulty::Easy,
            Difficulty::Normal => Difficulty::Easy,
            Difficulty::Hard => Difficulty::Normal,
            Difficulty::VeryHard => Difficulty::Hard,
            Difficulty::Insane => Difficulty::VeryHard,
        }
    }
}

/// Stepping the difficulty saturates: `up` at the hardest level and
/// `down` at the easiest level are both no-ops.
pub proof fn lemma_difficulty_saturation()
    ensures
        Difficulty::Insane.up_spec() == Difficulty::Insane,
        Difficulty::Easy.down_spec() == Difficulty::Easy,
{
}

} // verus!
