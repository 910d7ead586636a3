use calendar_puzzle::all_pieces;
use calendar_puzzle::board::DAY_VALUE;
use calendar_puzzle::board::MONTH_VALUE;
use calendar_puzzle::board::WALL_VALUE;
use calendar_puzzle::Board;
use calendar_puzzle::PuzzleError;

fn snapshot(board: &Board) -> Vec<u32> {
    let mut cells = Vec::new();
    for y in 0..7 {
        for x in 0..7 {
            cells.push(board.cell(y, x));
        }
    }
    cells
}

#[test]
fn month_thirteen_is_rejected() {
    assert_eq!(Board::new(13, 1).err(), Some(PuzzleError::InvalidInput));
}

#[test]
fn month_zero_is_rejected() {
    assert_eq!(Board::new(0, 5).err(), Some(PuzzleError::InvalidInput));
}

#[test]
fn day_zero_is_rejected() {
    assert_eq!(Board::new(5, 0).err(), Some(PuzzleError::InvalidInput));
}

#[test]
fn day_thirty_two_is_rejected() {
    assert_eq!(Board::new(5, 32).err(), Some(PuzzleError::InvalidInput));
}

#[test]
fn extreme_valid_dates_are_accepted() {
    assert!(Board::new(1, 1).is_ok());
    assert!(Board::new(12, 31).is_ok());
}

#[test]
fn fresh_board_marks_walls_month_and_day() {
    let board = Board::new(1, 1).unwrap();
    assert_eq!(board.cell(0, 0), MONTH_VALUE);
    assert_eq!(board.cell(2, 0), DAY_VALUE);
    assert_eq!(board.cell(0, 6), WALL_VALUE);
    assert_eq!(board.cell(1, 6), WALL_VALUE);
    assert_eq!(board.cell(6, 3), WALL_VALUE);
    assert_eq!(board.cell(6, 4), WALL_VALUE);
    assert_eq!(board.cell(6, 5), WALL_VALUE);
    assert_eq!(board.cell(6, 6), WALL_VALUE);
    let open = snapshot(&board).iter().filter(|v| **v == 0).count();
    assert_eq!(open, 41);
}

#[test]
fn fresh_board_places_december_31_cells() {
    let board = Board::new(12, 31).unwrap();
    // Month 12 sits in the second row, sixth column; day 31 in the last row,
    // third column.
    assert_eq!(board.cell(1, 5), MONTH_VALUE);
    assert_eq!(board.cell(6, 2), DAY_VALUE);
    let open = snapshot(&board).iter().filter(|v| **v == 0).count();
    assert_eq!(open, 41);
}

#[test]
fn place_then_remove_restores_the_board() {
    let pieces = all_pieces();
    let mut board = Board::new(3, 14).unwrap();
    let before = snapshot(&board);
    let layout = &pieces[0].orientations[0];
    assert!(board.place_layout(layout, 0, 2));
    assert_ne!(snapshot(&board), before);
    board.remove_layout(layout, 0, 2);
    assert_eq!(snapshot(&board), before);
}

#[test]
fn overlapping_placement_fails_and_leaves_board_unchanged() {
    let pieces = all_pieces();
    let mut board = Board::new(3, 14).unwrap();
    let layout = &pieces[0].orientations[0];
    assert!(board.place_layout(layout, 0, 2));
    let occupied = snapshot(&board);
    // The same cells are no longer open, so the identical placement, and an
    // overlapping one by another piece, must fail without a trace.
    assert!(!board.place_layout(layout, 0, 2));
    assert_eq!(snapshot(&board), occupied);
    let other = &pieces[1].orientations[0];
    assert!(!board.place_layout(other, 0, 2));
    assert_eq!(snapshot(&board), occupied);
}

#[test]
fn placement_on_a_sentinel_cell_fails() {
    let pieces = all_pieces();
    let mut board = Board::new(1, 1).unwrap();
    let before = snapshot(&board);
    // The month cell of January is the top-left corner: any layout whose
    // top-left cell is occupied conflicts there.
    let layout = &pieces[1].orientations[0];
    assert!(!board.place_layout(layout, 0, 0));
    assert_eq!(snapshot(&board), before);
}

#[test]
fn placement_beyond_the_edge_fails() {
    let pieces = all_pieces();
    let mut board = Board::new(3, 14).unwrap();
    let before = snapshot(&board);
    let layout = &pieces[0].orientations[0];
    let too_far_x = 8 - layout.width;
    assert!(!board.place_layout(layout, too_far_x, 2));
    let too_far_y = 8 - layout.height;
    assert!(!board.place_layout(layout, 0, too_far_y));
    assert_eq!(snapshot(&board), before);
}

#[test]
fn successful_placement_stamps_the_multiplier() {
    let pieces = all_pieces();
    let mut board = Board::new(3, 14).unwrap();
    let layout = &pieces[4].orientations[0];
    assert!(board.place_layout(layout, 0, 2));
    let mut stamped = 0;
    for y in 0..7 {
        for x in 0..7 {
            if board.cell(y, x) == 5 {
                stamped += 1;
            }
        }
    }
    assert_eq!(stamped, 5);
}

#[test]
fn total_piece_area_matches_open_cells() {
    let pieces = all_pieces();
    let total: usize = pieces
        .iter()
        .map(|p| p.orientations[0].values.iter().filter(|v| **v != 0).count())
        .sum();
    assert_eq!(total, 41);
    let board = Board::new(7, 4).unwrap();
    let open = snapshot(&board).iter().filter(|v| **v == 0).count();
    assert_eq!(total, open);
}
