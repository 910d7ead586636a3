use calendar_puzzle::all_pieces;
use calendar_puzzle::board::DAY_VALUE;
use calendar_puzzle::board::MONTH_VALUE;
use calendar_puzzle::board::WALL_VALUE;
use calendar_puzzle::recurse;
use calendar_puzzle::solve;
use calendar_puzzle::Board;
use calendar_puzzle::PuzzleError;

fn snapshot(board: &Board) -> Vec<u32> {
    let mut cells = Vec::new();
    for y in 0..7 {
        for x in 0..7 {
            cells.push(board.cell(y, x));
        }
    }
    cells
}

#[test]
fn solve_january_first_covers_the_board() {
    let (found, board) = solve(1, 1).unwrap();
    assert!(found);
    for v in snapshot(&board) {
        let is_sentinel = v == WALL_VALUE || v == MONTH_VALUE || v == DAY_VALUE;
        let is_piece = (1..=8).contains(&v);
        assert!(is_sentinel || is_piece);
    }
}

#[test]
fn solve_keeps_the_date_cells() {
    let (found, board) = solve(1, 1).unwrap();
    assert!(found);
    assert_eq!(board.cell(0, 0), MONTH_VALUE);
    assert_eq!(board.cell(2, 0), DAY_VALUE);
    assert_eq!(board.cell(0, 6), WALL_VALUE);
}

#[test]
fn solve_uses_every_piece_exactly_once() {
    let (found, board) = solve(6, 15).unwrap();
    assert!(found);
    let cells = snapshot(&board);
    for m in 1..=8u32 {
        let count = cells.iter().filter(|v| **v == m).count();
        let expected = if m == 2 { 6 } else { 5 };
        assert_eq!(count, expected);
    }
}

#[test]
fn solve_month_thirteen_fails_with_invalid_input() {
    assert_eq!(solve(13, 1).err(), Some(PuzzleError::InvalidInput));
}

#[test]
fn solve_day_zero_fails_with_invalid_input() {
    assert_eq!(solve(4, 0).err(), Some(PuzzleError::InvalidInput));
}

#[test]
fn solve_is_deterministic() {
    let (found_a, board_a) = solve(5, 7).unwrap();
    let (found_b, board_b) = solve(5, 7).unwrap();
    assert_eq!(found_a, found_b);
    assert_eq!(snapshot(&board_a), snapshot(&board_b));
}

#[test]
fn solve_december_thirty_first() {
    let (found, board) = solve(12, 31).unwrap();
    assert!(found);
    let open = snapshot(&board).iter().filter(|v| **v == 0).count();
    assert_eq!(open, 0);
}

#[test]
fn recurse_reports_failure_and_restores_state() {
    // Hand the search a board with no open cell and one piece still unused:
    // no placement can succeed anywhere, so the search must report failure
    // and leave both the board and the used flags exactly as they were.
    let pieces = all_pieces();
    let (found, mut board) = solve(1, 1).unwrap();
    assert!(found);
    let mut used = vec![true; 8];
    used[0] = false;
    let before = snapshot(&board);
    let used_before = used.clone();
    let found = recurse(&pieces, 7, 0, &mut used, &mut board);
    assert!(!found);
    assert_eq!(snapshot(&board), before);
    assert_eq!(used, used_before);
}

#[test]
fn recurse_with_all_pieces_used_reports_success() {
    let pieces = all_pieces();
    let mut board = Board::new(1, 1).unwrap();
    let mut used = vec![true; 8];
    let found = recurse(&pieces, 8, 0, &mut used, &mut board);
    assert!(found);
}
