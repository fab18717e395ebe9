use tile2048::board::{Board, Direction, MergeEvent};

fn board_from(rows: [[u32; 4]; 4]) -> Board {
    let mut cells = Vec::new();
    for r in 0..4 {
        for c in 0..4 {
            cells.push(rows[r][c]);
        }
    }
    Board { cells }
}

fn rows_of(b: &Board) -> [[u32; 4]; 4] {
    let mut out = [[0u32; 4]; 4];
    for r in 0..4 {
        for c in 0..4 {
            out[r][c] = b.get_tile(r, c);
        }
    }
    out
}

fn board_sum(b: &Board) -> u64 {
    let mut s = 0u64;
    for r in 0..4 {
        for c in 0..4 {
            s += b.get_tile(r, c) as u64;
        }
    }
    s
}

#[test]
fn slide_left_merges_and_reports() {
    // Empty board except row 0 = [2, 2, 4, 4]; slide left.
    let mut b = board_from([[2, 2, 4, 4], [0; 4], [0; 4], [0; 4]]);
    let r = b.slide(Direction::Left);
    assert_eq!(rows_of(&b), [[4, 8, 0, 0], [0; 4], [0; 4], [0; 4]]);
    assert!(r.moved);
    assert_eq!(r.delta, 12);
    assert_eq!(r.events.len(), 2);
    assert_eq!(r.events[0], MergeEvent { row: 0, col: 0, value: 4 });
    assert_eq!(r.events[1], MergeEvent { row: 0, col: 1, value: 8 });
}

#[test]
fn slide_right_merges_pair_nearest_edge() {
    // [2, 2, 2, _] sliding right: the two tiles nearest the right edge
    // combine; the far-left 2 stays unmerged and adjacent.
    let mut b = board_from([[2, 2, 2, 0], [0; 4], [0; 4], [0; 4]]);
    let r = b.slide(Direction::Right);
    assert_eq!(rows_of(&b), [[0, 0, 2, 4], [0; 4], [0; 4], [0; 4]]);
    assert!(r.moved);
    assert_eq!(r.delta, 4);
    assert_eq!(r.events.len(), 1);
    assert_eq!(r.events[0], MergeEvent { row: 0, col: 3, value: 4 });
}

#[test]
fn slide_of_four_equal_merges_twice_not_thrice() {
    let mut b = board_from([[2, 2, 2, 2], [0; 4], [0; 4], [0; 4]]);
    let r = b.slide(Direction::Left);
    assert_eq!(rows_of(&b), [[4, 4, 0, 0], [0; 4], [0; 4], [0; 4]]);
    assert_eq!(r.delta, 8);
    assert_eq!(r.events.len(), 2);
    // a merged tile never merges again within the same slide
    assert_eq!(rows_of(&b)[0][0], 4);
}

#[test]
fn slide_down_merges_column() {
    let mut b = board_from([[2, 0, 0, 0], [2, 0, 0, 0], [0; 4], [0; 4]]);
    let r = b.slide(Direction::Down);
    assert_eq!(rows_of(&b), [[0; 4], [0; 4], [0; 4], [4, 0, 0, 0]]);
    assert_eq!(r.delta, 4);
    assert_eq!(r.events, vec![MergeEvent { row: 3, col: 0, value: 4 }]);
}

#[test]
fn slide_up_moves_without_merge() {
    let mut b = board_from([[0; 4], [0, 2, 0, 0], [0, 4, 0, 0], [0; 4]]);
    let r = b.slide(Direction::Up);
    assert_eq!(rows_of(&b), [[0, 2, 0, 0], [0, 4, 0, 0], [0; 4], [0; 4]]);
    assert!(r.moved);
    assert_eq!(r.delta, 0);
    assert!(r.events.is_empty());
}

#[test]
fn slide_without_possible_move_reports_not_moved() {
    // Already packed against the left edge with unequal neighbours.
    let rows = [[2, 4, 8, 16], [0; 4], [0; 4], [0; 4]];
    let mut b = board_from(rows);
    let r = b.slide(Direction::Left);
    assert!(!r.moved);
    assert_eq!(r.delta, 0);
    assert!(r.events.is_empty());
    assert_eq!(rows_of(&b), rows);
}

#[test]
fn blocked_tiles_do_not_merge_through_a_different_value() {
    let mut b = board_from([[2, 4, 2, 0], [0; 4], [0; 4], [0; 4]]);
    let r = b.slide(Direction::Left);
    assert_eq!(rows_of(&b), [[2, 4, 2, 0], [0; 4], [0; 4], [0; 4]]);
    assert!(!r.moved);
    assert_eq!(r.delta, 0);
}

#[test]
fn slide_conserves_board_sum_and_delta_matches_events() {
    let mut b = board_from([[2, 2, 4, 4], [8, 8, 2, 2], [0, 2, 0, 2], [4, 0, 4, 0]]);
    let before = board_sum(&b);
    let r = b.slide(Direction::Left);
    let after = board_sum(&b);
    // merging folds two tiles into one doubled tile: the total is unchanged
    assert_eq!(before, after);
    // the reported delta is exactly the sum of the reported merge values
    let event_total: u64 = r.events.iter().map(|e| e.value as u64).sum();
    assert_eq!(r.delta as u64, event_total);
    assert_eq!(r.delta, (4 + 8) + (16 + 4) + 4 + 8);
}

#[test]
fn merge_events_land_on_distinct_cells() {
    let mut b = board_from([[2, 2, 2, 2], [4, 4, 4, 4], [2, 2, 4, 4], [8, 8, 8, 8]]);
    let r = b.slide(Direction::Left);
    for i in 0..r.events.len() {
        for j in (i + 1)..r.events.len() {
            let a = &r.events[i];
            let b2 = &r.events[j];
            assert!(a.row != b2.row || a.col != b2.col);
        }
    }
    assert_eq!(r.events.len(), 8);
}

#[test]
fn empty_cells_and_has_empty_agree() {
    let full = board_from([[2, 4, 2, 4], [4, 2, 4, 2], [2, 4, 2, 4], [4, 2, 4, 2]]);
    assert!(!full.has_empty());
    assert!(full.empty_cells().is_empty());

    let one_gap = board_from([[2, 4, 2, 4], [4, 0, 4, 2], [2, 4, 2, 4], [4, 2, 4, 2]]);
    assert!(one_gap.has_empty());
    let e = one_gap.empty_cells();
    assert_eq!(e, vec![(1usize, 1usize)]);
}

#[test]
fn new_board_is_empty() {
    let b = Board::new();
    assert_eq!(rows_of(&b), [[0; 4]; 4]);
}

#[test]
fn every_direction_conserves_the_sum() {
    let rows = [[2, 2, 4, 4], [8, 0, 8, 2], [0, 2, 0, 2], [4, 0, 4, 0]];
    for dir in [Direction::Left, Direction::Right, Direction::Up, Direction::Down] {
        let mut b = board_from(rows);
        let before = board_sum(&b);
        let r = b.slide(dir);
        assert_eq!(board_sum(&b), before);
        let event_total: u64 = r.events.iter().map(|e| e.value as u64).sum();
        assert_eq!(r.delta as u64, event_total);
    }
}

#[test]
fn slide_right_mirrors_slide_left() {
    let mut left = board_from([[4, 4, 2, 2], [0; 4], [0; 4], [0; 4]]);
    let mut right = board_from([[2, 2, 4, 4], [0; 4], [0; 4], [0; 4]]);
    let rl = left.slide(Direction::Left);
    let rr = right.slide(Direction::Right);
    assert_eq!(rows_of(&left)[0], [8, 4, 0, 0]);
    assert_eq!(rows_of(&right)[0], [0, 0, 4, 8]);
    assert_eq!(rl.delta, rr.delta);
}
