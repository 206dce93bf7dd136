use game2048::App;
use game2048::Board;
use game2048::Difficulty;
use game2048::MoveDir;
use game2048::Page;
use game2048::SettingsDir;
use game2048::format_score;
use game2048::parse_score;

fn board_from(size: usize, cells: Vec<u32>, win_value: u32) -> Board {
    assert_eq!(cells.len(), size * size);
    Board { size, cells, score: 0, won: false, win_value }
}

fn count_nonzero(b: &Board) -> usize {
    b.cells.iter().filter(|&&v| v != 0).count()
}

fn is_power_of_two_ge2(v: u32) -> bool {
    v >= 2 && v & (v - 1) == 0
}

#[test]
fn s1_simple_merge_left_before_spawn() {
    let mut b = board_from(
        4,
        vec![2, 2, 0, 0, 0, 0, 0, 0, 0, 0, 0, 0, 0, 0, 0, 0],
        2048,
    );
    let effective = b.apply_move(MoveDir::Left);
    assert!(effective);
    assert_eq!(b.score, 4);
    assert_eq!(
        b.cells,
        vec![4, 0, 0, 0, 0, 0, 0, 0, 0, 0, 0, 0, 0, 0, 0, 0]
    );
}

#[test]
fn s1_simple_merge_left_with_spawn() {
    let mut b = board_from(
        4,
        vec![2, 2, 0, 0, 0, 0, 0, 0, 0, 0, 0, 0, 0, 0, 0, 0],
        2048,
    );
    let effective = b.move_tiles(MoveDir::Left);
    assert!(effective);
    assert_eq!(b.score, 4);
    assert_eq!(b.cells[0], 4);
    // exactly one fresh tile, of value 2 or 4, on one of the 15 empty cells
    assert_eq!(count_nonzero(&b), 2);
    let spawned: Vec<(usize, u32)> = b
        .cells
        .iter()
        .copied()
        .enumerate()
        .filter(|&(t, v)| t != 0 && v != 0)
        .collect();
    assert_eq!(spawned.len(), 1);
    assert!(spawned[0].1 == 2 || spawned[0].1 == 4);
}

#[test]
fn s2_no_merge_noop() {
    let before = vec![2, 4, 8, 16, 0, 0, 0, 0, 0, 0, 0, 0, 0, 0, 0, 0];
    let mut b = board_from(4, before.clone(), 2048);
    let effective = b.move_tiles(MoveDir::Left);
    assert!(!effective);
    assert_eq!(b.cells, before);
    assert_eq!(b.score, 0);
    assert_eq!(count_nonzero(&b), 4); // no spawn either
}

#[test]
fn s3_chain_merge_single_pass() {
    let mut b = board_from(
        4,
        vec![2, 2, 2, 2, 0, 0, 0, 0, 0, 0, 0, 0, 0, 0, 0, 0],
        2048,
    );
    let effective = b.apply_move(MoveDir::Left);
    assert!(effective);
    assert_eq!(
        b.cells,
        vec![4, 4, 0, 0, 0, 0, 0, 0, 0, 0, 0, 0, 0, 0, 0, 0]
    );
    assert_eq!(b.score, 8);
}

#[test]
fn s3_new_pair_does_not_recombine() {
    let mut b = board_from(
        4,
        vec![4, 4, 8, 0, 0, 0, 0, 0, 0, 0, 0, 0, 0, 0, 0, 0],
        2048,
    );
    b.apply_move(MoveDir::Left);
    assert_eq!(
        b.cells,
        vec![8, 8, 0, 0, 0, 0, 0, 0, 0, 0, 0, 0, 0, 0, 0, 0]
    );
    assert_eq!(b.score, 8);
}

#[test]
fn s4_move_down_3x3() {
    let mut b = board_from(3, vec![2, 0, 2, 2, 0, 0, 0, 0, 2], 2048);
    let effective = b.apply_move(MoveDir::Down);
    assert!(effective);
    assert_eq!(b.cells, vec![0, 0, 0, 0, 0, 0, 4, 0, 4]);
    assert_eq!(b.score, 8);
}

#[test]
fn s5_game_over() {
    let checkerboard = vec![2, 4, 2, 4, 4, 2, 4, 2, 2, 4, 2, 4, 4, 2, 4, 2];
    let b = board_from(4, checkerboard.clone(), 2048);
    assert!(b.is_game_over());

    let mut app = App::new(Some(4), 0);
    app.board = board_from(4, checkerboard.clone(), app.board.win_value);
    let persist = app.move_tiles(MoveDir::Left);
    assert_eq!(persist, None);
    assert_eq!(app.board.cells, checkerboard);
    assert_eq!(app.board.score, 0);
    assert_eq!(app.page, Page::GameOver);
}

#[test]
fn game_over_is_false_with_an_empty_cell() {
    let b = board_from(4, vec![2, 4, 2, 4, 4, 2, 4, 2, 2, 4, 2, 4, 4, 2, 4, 0], 2048);
    assert!(!b.is_game_over());
}

#[test]
fn game_over_is_false_with_an_equal_pair() {
    // full grid, one vertical pair of equal neighbors
    let b = board_from(4, vec![2, 4, 2, 4, 4, 2, 4, 2, 2, 4, 2, 4, 2, 2, 4, 8], 2048);
    assert!(!b.is_game_over());
}

#[test]
fn s6_persistence_round_trip() {
    // no stored bytes at all reads as 0
    assert_eq!(parse_score(&Vec::new()), 0);

    // reach 16, persist 16
    let mut app = App::new(Some(4), 0);
    app.board = board_from(
        4,
        vec![8, 8, 0, 0, 0, 0, 0, 0, 0, 0, 0, 0, 0, 0, 0, 0],
        app.board.win_value,
    );
    let persist = app.move_tiles(MoveDir::Left);
    assert_eq!(persist, Some(16));
    assert_eq!(app.highest_score, 16);
    let stored = format_score(16);

    // a fresh load returns 16
    let loaded = parse_score(&stored);
    assert_eq!(loaded, 16);

    // play to 8: no new persistence
    let mut app = App::new(Some(4), loaded);
    app.board = board_from(
        4,
        vec![4, 4, 0, 0, 0, 0, 0, 0, 0, 0, 0, 0, 0, 0, 0, 0],
        app.board.win_value,
    );
    assert_eq!(app.move_tiles(MoveDir::Left), None);
    assert_eq!(app.highest_score, 16);

    // play to 32: persistence writes 32
    let mut app = App::new(Some(4), 16);
    app.board = board_from(
        4,
        vec![16, 16, 0, 0, 0, 0, 0, 0, 0, 0, 0, 0, 0, 0, 0, 0],
        app.board.win_value,
    );
    assert_eq!(app.move_tiles(MoveDir::Left), Some(32));
    assert_eq!(parse_score(&format_score(32)), 32);
}

#[test]
fn format_score_writes_digits_and_newline() {
    assert_eq!(format_score(0), b"0\n".to_vec());
    assert_eq!(format_score(42), b"42\n".to_vec());
    assert_eq!(format_score(u64::MAX), b"18446744073709551615\n".to_vec());
}

#[test]
fn parse_score_tolerates_whitespace_and_rejects_junk() {
    assert_eq!(parse_score(&b" 123\n".to_vec()), 123);
    assert_eq!(parse_score(&b"\t 7 \r\n".to_vec()), 7);
    assert_eq!(parse_score(&b"007\n".to_vec()), 7);
    assert_eq!(parse_score(&b"12a\n".to_vec()), 0);
    assert_eq!(parse_score(&b"   \n".to_vec()), 0);
    assert_eq!(parse_score(&b"18446744073709551615\n".to_vec()), u64::MAX);
    // one past u64::MAX does not fit
    assert_eq!(parse_score(&b"18446744073709551616\n".to_vec()), 0);
}

#[test]
fn difficulty_saturates_and_maps_win_values() {
    assert_eq!(Difficulty::Insane.up(), Difficulty::Insane);
    assert_eq!(Difficulty::Easy.down(), Difficulty::Easy);
    assert_eq!(Difficulty::Easy.up(), Difficulty::Normal);
    assert_eq!(Difficulty::Normal.up(), Difficulty::Hard);
    assert_eq!(Difficulty::Hard.up(), Difficulty::VeryHard);
    assert_eq!(Difficulty::VeryHard.up(), Difficulty::Insane);
    assert_eq!(Difficulty::Easy.win_value(), 512);
    assert_eq!(Difficulty::Normal.win_value(), 1024);
    assert_eq!(Difficulty::Hard.win_value(), 2048);
    assert_eq!(Difficulty::VeryHard.win_value(), 4096);
    assert_eq!(Difficulty::Insane.win_value(), 8192);
}

#[test]
fn change_difficulty_updates_the_board_win_value() {
    let mut app = App::new(None, 0);
    assert_eq!(app.difficulty, Difficulty::Normal);
    assert_eq!(app.board.win_value, 1024);
    app.change_difficulty(SettingsDir::Up);
    assert_eq!(app.difficulty, Difficulty::Hard);
    assert_eq!(app.board.win_value, 2048);
    app.change_difficulty(SettingsDir::Down);
    app.change_difficulty(SettingsDir::Down);
    assert_eq!(app.difficulty, Difficulty::Easy);
    assert_eq!(app.board.win_value, 512);
    // saturation at the bottom is a no-op
    app.change_difficulty(SettingsDir::Down);
    assert_eq!(app.difficulty, Difficulty::Easy);
    assert_eq!(app.board.win_value, 512);
}

#[test]
fn new_board_is_clamped_and_holds_two_starting_tiles() {
    let b = Board::new(2, 2048);
    assert_eq!(b.size, 3);
    let b = Board::new(99, 2048);
    assert_eq!(b.size, 8);
    let b = Board::new(4, 2048);
    assert_eq!(b.size, 4);
    assert_eq!(b.cells.len(), 16);
    assert_eq!(b.score, 0);
    assert!(!b.won);
    assert_eq!(count_nonzero(&b), 2);
    assert!(b.cells.iter().all(|&v| v == 0 || v == 2 || v == 4));
}

#[test]
fn closure_every_nonzero_cell_stays_a_power_of_two() {
    let mut app = App::new(Some(4), 0);
    let dirs = [MoveDir::Left, MoveDir::Up, MoveDir::Right, MoveDir::Down];
    let mut last_score = 0u64;
    for round in 0..40 {
        app.move_tiles(dirs[round % 4]);
        assert!(app
            .board
            .cells
            .iter()
            .all(|&v| v == 0 || is_power_of_two_ge2(v)));
        // score monotonicity along the same game
        assert!(app.board.score >= last_score);
        last_score = app.board.score;
        assert!(app.highest_score >= app.board.score);
    }
}

#[test]
fn spawn_conservation_on_effective_moves() {
    // two merges: 4 nonzero before, 2 after the pass, plus 1 spawned
    let mut b = board_from(
        4,
        vec![2, 2, 4, 4, 0, 0, 0, 0, 0, 0, 0, 0, 0, 0, 0, 0],
        2048,
    );
    let before = count_nonzero(&b);
    assert!(b.move_tiles(MoveDir::Left));
    assert_eq!(count_nonzero(&b), before - 2 + 1);
    assert_eq!(b.cells[0], 4);
    assert_eq!(b.cells[1], 8);

    // a slide without merges keeps the count, plus 1 spawned
    let mut b = board_from(
        4,
        vec![0, 0, 2, 4, 0, 0, 0, 0, 0, 0, 0, 0, 0, 0, 0, 0],
        2048,
    );
    let before = count_nonzero(&b);
    assert!(b.move_tiles(MoveDir::Left));
    assert_eq!(count_nonzero(&b), before + 1);
}

#[test]
fn won_latches_when_the_win_value_is_reached() {
    let mut b = board_from(
        3,
        vec![1024, 1024, 0, 0, 0, 0, 0, 0, 0],
        2048,
    );
    assert!(b.move_tiles(MoveDir::Left));
    assert_eq!(b.cells[0], 2048);
    assert!(b.won);
}

#[test]
fn spawn_at_fills_the_kth_empty_cell() {
    let mut b = board_from(3, vec![2, 0, 0, 0, 2, 0, 0, 0, 0], 2048);
    b.spawn_at(0, 4);
    assert_eq!(b.cells, vec![2, 4, 0, 0, 2, 0, 0, 0, 0]);
    b.spawn_at(3, 2);
    assert_eq!(b.cells, vec![2, 4, 0, 0, 2, 0, 2, 0, 0]);
}

#[test]
fn spawn_random_on_a_full_grid_is_a_noop() {
    let full = vec![2, 4, 2, 4, 2, 4, 2, 4, 2];
    let mut b = board_from(3, full.clone(), 2048);
    b.spawn_random();
    assert_eq!(b.cells, full);
}

#[test]
fn new_game_keeps_size_and_best_score() {
    let mut app = App::new(Some(5), 77);
    app.board.score = 10; // pretend some progress
    app.highest_score = 77;
    app.open_settings();
    assert_eq!(app.page, Page::Settings);
    app.new_game();
    assert_eq!(app.page, Page::Game);
    assert_eq!(app.board.size, 5);
    assert_eq!(app.board.score, 0);
    assert_eq!(app.highest_score, 77);
    app.open_settings();
    app.close_overlay();
    assert_eq!(app.page, Page::Game);
}

#[test]
fn random_two_or_four_yields_only_game_tiles() {
    for _ in 0..100 {
        let v = game2048::random_two_or_four();
        assert!(v == 2 || v == 4);
    }
}
