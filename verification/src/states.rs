use vstd::prelude::*;

use crate::board::count_empty;
use crate::board::game_over_spec;
use crate::board::move_effective;
use crate::board::move_gain;
use crate::board::moved_grid;
use crate::board::Board;
use crate::difficulty::Difficulty;
use crate::MoveDir;

verus! {

/// The page the front-end shows.
#[derive(Clone, Copy, PartialEq, Eq, Structural, Debug)]
pub enum Page {
    Game,
    Settings,
    GameOver,
}

/// Which way a settings command steps the difficulty.
#[derive(Clone, Copy, PartialEq, Eq, Structural, Debug)]
pub enum SettingsDir {
    Up,
    Down,
}

/// The session: the running board, the page shown, the difficulty, and the
/// best score ever observed.
pub struct App {
    pub board: Board,
    pub page: Page,
    pub difficulty: Difficulty,
    pub highest_score: u64,
}

impl App {
    /// Session invariant: a well-formed board whose win value is the
    /// difficulty's, and a best score no less than this game's.
    pub open spec fn wf(self) -> bool {
        &&& self.board.wf()
        &&& self.board.win_value == self.difficulty.win_value_spec()
        &&& self.highest_score >= self.board.score
    }

    /// A fresh session: a new board of the given size (4 when unspecified)
    /// at the default difficulty, the Game page, and the stored best score.
    pub fn new(size: Option<usize>, highest_score: u64) -> (app: App)
        ensures
            app.wf(),
            app.page == Page::Game,
            app.difficulty == Difficulty::Normal,
            app.highest_score == highest_score,
            app.board.size == Board::clamp_size(
                match size {
                    Some(s) => s,
                    None => 4usize,
                },
            ),
            app.board.score == 0,
            !app.board.won,
            count_empty(app.board.cells@) == app.board.size * app.board.size - 2,
            forall|t: int|
                0 <= t < app.board.cells@.len() ==> #[trigger] app.board.cells@[t] == 0
                    || app.board.cells@[t] == 2 || app.board.cells@[t] == 4,
    {
        let difficulty = Difficulty::Normal;
        let w = difficulty.win_value();
        let n: usize = match size {
            Some(s) => s,
            None => 4,
        };
        let board = Board::new(n, w);
        App { board, page: Page::Game, difficulty, highest_score }
    }

    /// The NewGame command: replaces the board, keeping its size, the
    /// difficulty and the best score, and returns to the Game page.
    pub fn new_game(&mut self)
        requires
            old(self).wf(),
        ensures
            final(self).wf(),
            final(self).page == Page::Game,
            final(self).difficulty == old(self).difficulty,
            final(self).highest_score == old(self).highest_score,
            final(self).board.size == old(self).board.size,
            final(self).board.score == 0,
            !final(self).board.won,
            final(self).board.win_value == old(self).board.win_value,
            count_empty(final(self).board.cells@) == final(self).board.size * final(self).board.size
                - 2,
    {
        let n = self.board.size;
        self.board.reset(n);
        self.page = Page::Game;
    }

    /// The OpenSettings command: shows the settings overlay.
    pub fn open_settings(&mut self)
        requires
            old(self).wf(),
        ensures
            final(self).wf(),
            final(self).page == Page::Settings,
            final(self).board == old(self).board,
            final(self).difficulty == old(self).difficulty,
            final(self).highest_score == old(self).highest_score,
    {
        self.page = Page::Settings;
    }

    /// The CloseOverlay command: back to the game view.
    pub fn close_overlay(&mut self)
        requires
            old(self).wf(),
        ensures
            final(self).wf(),
            final(self).page == Page::Game,
            final(self).board == old(self).board,
            final(self).difficulty == old(self).difficulty,
            final(self).highest_score == old(self).highest_score,
    {
        self.page = Page::Game;
    }

    /// The DifficultyUp and DifficultyDown commands: steps the difficulty,
    /// saturating at the endpoints, and gives the running board the new win
    /// value at once. The `won` flag is not reassessed.
    pub fn change_difficulty(&mut self, dir: SettingsDir)
        requires
            old(self).wf(),
        ensures
            final(self).wf(),
            final(self).difficulty == match dir {
                SettingsDir::Up => old(self).difficulty.up_spec(),
                SettingsDir::Down => old(self).difficulty.down_spec(),
            },
            final(self).board.win_value == final(self).difficulty.win_value_spec(),
            final(self).board.cells == old(self).board.cells,
            final(self).board.score == old(self).board.score,
            final(self).board.won == old(self).board.won,
            final(self).board.size == old(self).board.size,
            final(self).page == old(self).page,
            final(self).highest_score == old(self).highest_score,
    {
        let d = match dir {
            SettingsDir::Up => self.difficulty.up(),
            SettingsDir::Down => self.difficulty.down(),
        };
        self.difficulty = d;
        self.board.win_value = d.win_value();
    }

    /// The Move command: forwards to the board engine, then reconciles the
    /// best score — returning the new best score exactly when it must be
    /// persisted — and shows the game-over page when the board is dead.
    ///
    /// The tile and score bounds a caller owes are the machine limits
    /// `Board::apply_move` explains.
    pub fn move_tiles(&mut self, d: MoveDir) -> (persist: Option<u64>)
        requires
            old(self).wf(),
            old(self).board.tiles_le(0x4000_0000),
            old(self).board.score <= 0x8000_0000_0000_0000,
        ensures
            final(self).wf(),
            final(self).board.tiles_le(0x8000_0000),
            final(self).difficulty == old(self).difficulty,
            final(self).board.size == old(self).board.size,
            final(self).board.win_value == old(self).board.win_value,
            final(self).board.score >= old(self).board.score,
            final(self).highest_score >= old(self).highest_score,
            !move_effective(old(self).board.cells@, old(self).board.size as int, d)
                ==> final(self).board == old(self).board,
            move_effective(old(self).board.cells@, old(self).board.size as int, d) ==> {
                let moved = moved_grid(old(self).board.cells@, old(self).board.size as int, d);
                &&& final(self).board.score == old(self).board.score + move_gain(
                    old(self).board.cells@,
                    old(self).board.size as int,
                    d,
                )
                &&& (count_empty(moved) == 0 ==> final(self).board.cells@ == moved)
                &&& (count_empty(moved) > 0 ==> {
                    &&& count_empty(final(self).board.cells@) == count_empty(moved) - 1
                    &&& exists|t: int, v: u32|
                        {
                            &&& 0 <= t < moved.len()
                            &&& moved[t] == 0
                            &&& (v == 2 || v == 4)
                            &&& final(self).board.cells@ == moved.update(t, v)
                        }
                })
                &&& final(self).board.won == (old(self).board.won || exists|t: int|
                    0 <= t < final(self).board.cells@.len()
                        && #[trigger] final(self).board.cells@[t] == old(self).board.win_value)
            },
            final(self).highest_score == if final(self).board.score > old(self).highest_score {
                final(self).board.score
            } else {
                old(self).highest_score
            },
            persist == if final(self).board.score > old(self).highest_score {
                Some(final(self).board.score)
            } else {
                None::<u64>
            },
            final(self).page == if game_over_spec(
                final(self).board.cells@,
                final(self).board.size as int,
            ) {
                Page::GameOver
            } else {
                old(self).page
            },
    {
        let _effective = self.board.move_tiles(d);
        let persist: Option<u64> = if self.board.score > self.highest_score {
            self.highest_score = self.board.score;
            Some(self.board.score)
        } else {
            None
        };
        if self.board.is_game_over() {
            self.page = Page::GameOver;
        }
        persist
    }
}

} // verus!
