use sudoku::board::Position;
use sudoku::board::SudokuBoard;
use sudoku::solver::solve;

const PUZZLE: &str = "003020600900305001001806400008102900700000008006708200002609500800203009005010300";
const PUZZLE_SOLUTION: &str =
    "483921657967345821251876493548132976729564138136798245372689514814253769695417382";
const FULL_VALID: &str =
    "845632179732918654196745328683574912457291836219863547361429785574186293928357461";

fn get_board() -> SudokuBoard {
    let s = PUZZLE;
    SudokuBoard::new(s.to_string())
}

fn boards_equal(a: &SudokuBoard, b: &SudokuBoard) -> bool {
    for row in 0..9 {
        for col in 0..9 {
            let p = Position { row, col };
            if a.get_number(&p) != b.get_number(&p) {
                return false;
            }
        }
    }
    true
}

fn board_digits(b: &SudokuBoard) -> String {
    let mut s = String::new();
    for row in 0..9 {
        for col in 0..9 {
            let p = Position { row, col };
            s.push_str(&format!("{}", b.get_number(&p)));
        }
    }
    s
}

#[test]
fn test_is_in_row() {
    let b = get_board();
    let p = Position { row: 1, col: 0 };

    // Should ignore current position
    assert!(!b.is_in_row(9, &p));

    assert!(b.is_in_row(1, &p));
    assert!(b.is_in_row(3, &p));

    assert!(!b.is_in_row(4, &p));
}

#[test]
fn test_is_in_square() {
    let b = get_board();
    let p = Position { row: 3, col: 3 };

    // Should ignore current position
    assert!(!b.is_in_square(1, &p));

    assert!(b.is_in_square(2, &p));
    assert!(b.is_in_square(7, &p));

    assert!(!b.is_in_square(9, &p));
}

#[test]
fn test_is_in_column() {
    let b = get_board();
    let p = Position { row: 2, col: 6 };

    // Should ignore current position
    assert!(!b.is_in_column(4, &p));

    assert!(b.is_in_column(6, &p));
    assert!(b.is_in_column(9, &p));

    assert!(!b.is_in_column(1, &p));
}

#[test]
fn test_is_valid_move() {
    let b = get_board();
    let p = Position { row: 0, col: 0 };

    assert!(b.is_valid_move(4, &p));

    // Square violation
    assert!(!b.is_valid_move(1, &p));
    // Column violation
    assert!(!b.is_valid_move(7, &p));
    // Row violation
    assert!(!b.is_valid_move(2, &p));
}

#[test]
fn test_is_valid_sudoku() {
    // The puzzle's given digits are consistent, and empty cells never
    // conflict, so the partially filled board is valid.
    let unfilled_board = get_board();
    assert!(unfilled_board.is_valid_sudoku());

    let s = FULL_VALID;
    let valid_board = SudokuBoard::new(s.to_string());
    assert!(valid_board.is_valid_sudoku());
}

#[test]
fn test_set_num() {
    let b = get_board();
    let n = 2;

    let p = Position { row: 0, col: 1 };
    let new_b = b.set_num(n, &p);

    assert!(new_b.get_number(&p) == n);
}

#[test]
fn test_set_num_leaves_other_cells_and_original() {
    let b = get_board();
    let p = Position { row: 0, col: 1 };
    let new_b = b.set_num(2, &p);

    assert_eq!(new_b.get_number(&p), 2);
    // every other cell keeps its digit
    for row in 0..9 {
        for col in 0..9 {
            if !(row == 0 && col == 1) {
                let q = Position { row, col };
                assert_eq!(new_b.get_number(&q), b.get_number(&q));
            }
        }
    }
    // value semantics: the original board is unaffected
    assert_eq!(b.get_number(&p), 0);
    assert_eq!(board_digits(&b).as_str(), PUZZLE);
}

#[test]
fn test_self_exclusion_with_digit_placed() {
    // Place 4 at (0, 0) — a legal move — then ask about 4 at (0, 0): the
    // cell's own digit must not count as a conflict in any direction.
    let b = get_board();
    let p = Position { row: 0, col: 0 };
    let with_four = b.set_num(4, &p);
    assert!(!with_four.is_in_row(4, &p));
    assert!(!with_four.is_in_column(4, &p));
    assert!(!with_four.is_in_square(4, &p));
    assert!(with_four.is_valid_move(4, &p));
}

#[test]
fn test_is_valid_sudoku_rejects_duplicates() {
    // Row duplicate: the puzzle's row 0 holds a 3 at column 2; a second 3
    // in the same row makes the board invalid.
    let b = get_board();
    let in_row = b.set_num(3, &Position { row: 0, col: 0 });
    assert!(!in_row.is_valid_sudoku());

    // Column duplicate: column 0 holds a 9 at row 1.
    let in_col = b.set_num(9, &Position { row: 5, col: 0 });
    assert!(!in_col.is_valid_sudoku());

    // Block duplicate: the top-left block holds a 9 at (1, 0).
    let in_square = b.set_num(9, &Position { row: 2, col: 2 });
    assert!(!in_square.is_valid_sudoku());

    // A duplicate inside a full grid is caught too.
    let full = SudokuBoard::new(FULL_VALID.to_string());
    let broken = full.set_num(full.get_number(&Position { row: 0, col: 1 }), &Position {
        row: 0,
        col: 0,
    });
    assert!(!broken.is_valid_sudoku());
}

#[test]
fn test_new_parses_each_position() {
    let b = get_board();
    assert_eq!(b.get_number(&Position { row: 0, col: 0 }), 0);
    assert_eq!(b.get_number(&Position { row: 0, col: 2 }), 3);
    assert_eq!(b.get_number(&Position { row: 1, col: 0 }), 9);
    assert_eq!(b.get_number(&Position { row: 8, col: 6 }), 3);
    assert_eq!(b.get_number(&Position { row: 8, col: 8 }), 0);
    assert_eq!(board_digits(&b).as_str(), PUZZLE);
}

#[test]
fn test_new_accepts_trailing_newline() {
    let with_newline = format!("{}\n", PUZZLE);
    let a = SudokuBoard::new(with_newline);
    let b = get_board();
    assert!(boards_equal(&a, &b));
}

#[test]
fn test_new_short_line_leaves_trailing_cells_empty() {
    let b = SudokuBoard::new("12".to_string());
    assert_eq!(b.get_number(&Position { row: 0, col: 0 }), 1);
    assert_eq!(b.get_number(&Position { row: 0, col: 1 }), 2);
    for row in 0..9 {
        for col in 0..9 {
            if !(row == 0 && (col == 0 || col == 1)) {
                assert_eq!(b.get_number(&Position { row, col }), 0);
            }
        }
    }
}

#[test]
fn test_first_empty_position_scan_order() {
    let b = get_board();
    // (0, 0) is empty, so the row-major scan stops there at once.
    assert_eq!(b.first_empty_position(), Some(Position { row: 0, col: 0 }));

    // After filling (0, 0) and (0, 1), the first empty cell is (0, 3):
    // column 2 already holds a digit.
    let filled = b.set_num(4, &Position { row: 0, col: 0 }).set_num(8, &Position {
        row: 0,
        col: 1,
    });
    assert_eq!(filled.first_empty_position(), Some(Position { row: 0, col: 3 }));
}

#[test]
fn test_first_empty_position_on_full_board() {
    // A full board has no empty position, valid or not.
    let full = SudokuBoard::new(FULL_VALID.to_string());
    assert_eq!(full.first_empty_position(), None);

    let invalid_full = full.set_num(full.get_number(&Position { row: 0, col: 1 }), &Position {
        row: 0,
        col: 0,
    });
    assert!(!invalid_full.is_valid_sudoku());
    assert_eq!(invalid_full.first_empty_position(), None);
}

#[test]
fn test_solve_unique_puzzle() {
    let b = get_board();
    let solved = solve(&b);
    assert_eq!(board_digits(&solved).as_str(), PUZZLE_SOLUTION);
    assert!(solved.is_valid_sudoku());
    assert_eq!(solved.first_empty_position(), None);
    // every given digit is kept
    for row in 0..9 {
        for col in 0..9 {
            let p = Position { row, col };
            let given = b.get_number(&p);
            if given != 0 {
                assert_eq!(solved.get_number(&p), given);
            }
        }
    }
}

#[test]
fn test_solve_full_valid_board_is_identity() {
    let full = SudokuBoard::new(FULL_VALID.to_string());
    assert!(full.is_valid_sudoku());
    let solved = solve(&full);
    assert!(boards_equal(&solved, &full));
    assert_eq!(board_digits(&solved).as_str(), FULL_VALID);
}

#[test]
fn test_solve_is_idempotent() {
    let b = get_board();
    let once = solve(&b);
    let twice = solve(&once);
    assert!(boards_equal(&once, &twice));
}

#[test]
fn test_solve_empty_board_finds_least_solution() {
    // The empty board has many solutions; the row-major scan with digits
    // tried ascending yields the lexicographically least of them.
    let empty = SudokuBoard::new("".to_string());
    let solved = solve(&empty);
    assert!(solved.is_valid_sudoku());
    assert_eq!(solved.first_empty_position(), None);
    assert_eq!(
        board_digits(&solved).as_str(),
        "123456789456789123789123456214365897365897214897214365531642978642978531978531642"
    );
}
