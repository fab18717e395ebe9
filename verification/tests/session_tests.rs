use tile2048::board::{Board, Direction};
use tile2048::particle::Rgba;
use tile2048::session::{GameState, GameStatus};

fn board_from(rows: [[u32; 4]; 4]) -> Board {
    let mut cells = Vec::new();
    for r in 0..4 {
        for c in 0..4 {
            cells.push(rows[r][c]);
        }
    }
    Board { cells }
}

fn rows_of(gs: &GameState) -> [[u32; 4]; 4] {
    let mut out = [[0u32; 4]; 4];
    for r in 0..4 {
        for c in 0..4 {
            out[r][c] = gs.board.get_tile(r, c);
        }
    }
    out
}

fn occupied(gs: &GameState) -> usize {
    let mut n = 0;
    for r in 0..4 {
        for c in 0..4 {
            if gs.board.get_tile(r, c) != 0 {
                n += 1;
            }
        }
    }
    n
}

#[test]
fn new_session_is_blank_and_playing() {
    let gs = GameState::new();
    assert_eq!(gs.score, 0);
    assert_eq!(gs.status, GameStatus::Playing);
    assert!(gs.particles.is_empty());
    assert_eq!(rows_of(&gs), [[0; 4]; 4]);
}

#[test]
fn reset_seeds_two_or_three_small_tiles() {
    let mut gs = GameState::new();
    gs.score = 1234;
    gs.status = GameStatus::GameOver;
    gs.spawn_burst(0, 0, Rgba { r: 1, g: 2, b: 3, a: 255 }, 5);
    for _ in 0..50 {
        gs.reset();
        assert_eq!(gs.score, 0);
        assert_eq!(gs.status, GameStatus::Playing);
        assert!(gs.particles.is_empty());
        let n = occupied(&gs);
        assert!(n == 2 || n == 3, "reset seeded {} tiles", n);
        for r in 0..4 {
            for c in 0..4 {
                let v = gs.board.get_tile(r, c);
                assert!(v == 0 || v == 2 || v == 4);
            }
        }
    }
}

#[test]
fn step_scores_merge_and_spawns_exactly_one_tile() {
    for _ in 0..20 {
        let mut gs = GameState::new();
        gs.board = board_from([[2, 2, 0, 0], [0; 4], [0; 4], [0; 4]]);
        let r = gs.step(Direction::Left);
        assert!(r.moved);
        assert_eq!(r.delta, 4);
        assert_eq!(gs.score, 4);
        assert_eq!(gs.status, GameStatus::Playing);
        assert_eq!(gs.board.get_tile(0, 0), 4);
        // exactly one new tile of value 2 or 4 on a formerly empty cell
        assert_eq!(occupied(&gs), 2);
        let mut spawned = 0;
        for r2 in 0..4 {
            for c in 0..4 {
                if (r2, c) != (0, 0) {
                    let v = gs.board.get_tile(r2, c);
                    if v != 0 {
                        assert!(v == 2 || v == 4);
                        spawned += 1;
                    }
                }
            }
        }
        assert_eq!(spawned, 1);
    }
}

#[test]
fn step_without_movement_changes_nothing() {
    let rows = [[2, 4, 8, 16], [0; 4], [0; 4], [0; 4]];
    let mut gs = GameState::new();
    gs.board = board_from(rows);
    let r = gs.step(Direction::Left);
    assert!(!r.moved);
    assert_eq!(r.delta, 0);
    assert!(r.events.is_empty());
    assert_eq!(gs.score, 0);
    assert_eq!(gs.status, GameStatus::Playing);
    // no tile spawned on a slide that produced zero displacement
    assert_eq!(rows_of(&gs), rows);
}

#[test]
fn step_when_game_over_changes_nothing() {
    let rows = [[2, 2, 0, 0], [0; 4], [0; 4], [0; 4]];
    let mut gs = GameState::new();
    gs.board = board_from(rows);
    gs.status = GameStatus::GameOver;
    let r = gs.step(Direction::Left);
    assert!(!r.moved);
    assert_eq!(r.delta, 0);
    assert_eq!(gs.score, 0);
    assert_eq!(gs.status, GameStatus::GameOver);
    assert_eq!(rows_of(&gs), rows);
}

#[test]
fn step_reports_events_for_feedback() {
    let mut gs = GameState::new();
    gs.board = board_from([[2, 2, 4, 4], [0; 4], [0; 4], [0; 4]]);
    let r = gs.step(Direction::Left);
    assert_eq!(r.events.len(), 2);
    assert_eq!((r.events[0].row, r.events[0].col, r.events[0].value), (0, 0, 4));
    assert_eq!((r.events[1].row, r.events[1].col, r.events[1].value), (0, 1, 8));
    // the step itself does not spawn particles; the caller does
    assert!(gs.particles.is_empty());
}

#[test]
fn score_accumulates_across_turns() {
    let mut gs = GameState::new();
    gs.board = board_from([[2, 2, 0, 0], [0; 4], [0; 4], [0; 4]]);
    gs.step(Direction::Left);
    let first = gs.score;
    assert_eq!(first, 4);
    // a second slide may or may not merge, depending on the random spawn;
    // score never decreases
    gs.step(Direction::Right);
    assert!(gs.score >= first);
}
