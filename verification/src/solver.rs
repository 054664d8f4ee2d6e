//! The backtracking search: depth-first over the first empty cell, digits
//! tried in ascending order, each placement checked for legality first.
//! `solve` is proved complete: it returns a solution exactly when the board
//! has one, and leaves a board without one unchanged.

use crate::board::SudokuBoard;
use crate::board::cell;
use crate::board::cells_in_range;
use crate::board::in_column_spec;
use crate::board::in_row_spec;
use crate::board::in_square_spec;
use crate::board::index_of;
use crate::board::is_full;
use crate::board::lemma_cell_update;
use crate::board::lemma_checks_ignore_own_cell;
use crate::board::same_block;
use crate::board::valid_board;
use crate::board::valid_move_spec;
use crate::board::Position;
use vstd::prelude::*;

verus! {

/// Every filled cell of `s` keeps its digit in `c`.
pub open spec fn extends(s: Seq<usize>, c: Seq<usize>) -> bool {
    forall|i: int| 0 <= i < 81 && #[trigger] s[i] != 0 ==> c[i] == s[i]
}

/// `c` solves `s`: a full, valid grid of digits 1..=9 that keeps every
/// digit `s` already had.
pub open spec fn is_solution_of(c: Seq<usize>, s: Seq<usize>) -> bool {
    c.len() == 81 && extends(s, c) && is_full(c) && cells_in_range(c) && valid_board(c)
}

/// Some grid solves `s`.
pub open spec fn has_solution(s: Seq<usize>) -> bool {
    exists|c: Seq<usize>| #[trigger] is_solution_of(c, s)
}

/// `a` equals `b`, or precedes it in row-major lexicographic order: at the
/// first cell where they differ, `a` holds the smaller digit.
pub open spec fn lex_leq(a: Seq<usize>, b: Seq<usize>) -> bool {
    a == b || exists|k: int|
        0 <= k < 81 && #[trigger] a[k] < b[k] && (forall|j: int| 0 <= j < k ==> a[j] == b[j])
}

/// How many cells of `s` are still empty.
pub open spec fn count_zeros(s: Seq<usize>) -> nat
    decreases s.len(),
{
    if s.len() == 0 {
        0
    } else {
        count_zeros(s.drop_last()) + (if s.last() == 0 {
            1nat
        } else {
            0nat
        })
    }
}

/// Filling an empty cell lowers the empty-cell count by exactly one.
pub proof fn lemma_count_zeros_update(s: Seq<usize>, i: int, n: usize)
    requires
        0 <= i < s.len(),
        s[i] == 0,
        n != 0,
    ensures
        count_zeros(s.update(i, n)) + 1 == count_zeros(s),
    decreases s.len(),
{
    let t = s.update(i, n);
    if i == s.len() - 1 {
        assert(t.drop_last() =~= s.drop_last());
        assert(t.last() == n && s.last() == 0);
    } else {
        assert(t.drop_last() =~= s.drop_last().update(i, n));
        lemma_count_zeros_update(s.drop_last(), i, n);
        assert(t.last() == s.last());
    }
}

/// A legal placement of a nonzero digit on a valid board leaves the board
/// valid.
pub proof fn lemma_place_preserves_valid(s: Seq<usize>, n: usize, row: int, col: int)
    requires
        s.len() == 81,
        0 <= row < 9,
        0 <= col < 9,
        valid_board(s),
        valid_move_spec(s, n, row, col),
        n != 0,
    ensures
        valid_board(s.update(index_of(row, col), n)),
{
    let t = s.update(index_of(row, col), n);
    lemma_cell_update(s, n, row, col);
    assert forall|r2: int, c2: int|
        0 <= r2 < 9 && 0 <= c2 < 9 && #[trigger] cell(t, r2, c2) != 0 implies valid_move_spec(
        t,
        cell(t, r2, c2),
        r2,
        c2,
    ) by {
        let v = cell(t, r2, c2);
        if r2 == row && c2 == col {
            lemma_checks_ignore_own_cell(s, n, n, row, col);
        } else {
            assert(v == cell(s, r2, c2));
            assert(valid_move_spec(s, v, r2, c2));
            assert(!in_row_spec(t, v, r2, c2)) by {
                if in_row_spec(t, v, r2, c2) {
                    let j = choose|j: int| 0 <= j < 9 && j != c2 && #[trigger] cell(t, r2, j) == v;
                    if r2 == row && j == col {
                        // the conflict would be with the new digit: then the
                        // placement itself was illegal, against the premise
                        assert(cell(s, row, c2) == v && c2 != col);
                        assert(in_row_spec(s, n, row, col));
                    } else {
                        assert(cell(s, r2, j) == v);
                        assert(in_row_spec(s, v, r2, c2));
                    }
                }
            }
            assert(!in_column_spec(t, v, r2, c2)) by {
                if in_column_spec(t, v, r2, c2) {
                    let i = choose|i: int| 0 <= i < 9 && i != r2 && #[trigger] cell(t, i, c2) == v;
                    if i == row && c2 == col {
                        assert(cell(s, r2, col) == v && r2 != row);
                        assert(in_column_spec(s, n, row, col));
                    } else {
                        assert(cell(s, i, c2) == v);
                        assert(in_column_spec(s, v, r2, c2));
                    }
                }
            }
            assert(!in_square_spec(t, v, r2, c2)) by {
                if in_square_spec(t, v, r2, c2) {
                    let (i, j) = choose|i: int, j: int|
                        0 <= i < 9 && 0 <= j < 9 && same_block(i, j, r2, c2) && !(i == r2 && j
                            == c2) && #[trigger] cell(t, i, j) == v;
                    if i == row && j == col {
                        assert(cell(s, r2, c2) == v && same_block(r2, c2, row, col));
                        assert(in_square_spec(s, n, row, col));
                    } else {
                        assert(cell(s, i, j) == v);
                        assert(in_square_spec(s, v, r2, c2));
                    }
                }
            }
        }
    }
}

/// The digit a solution holds at any cell is a legal move on the board
/// being solved: the board's own digits cannot conflict with it.
pub proof fn lemma_solution_move_valid(s: Seq<usize>, c: Seq<usize>, row: int, col: int)
    requires
        s.len() == 81,
        0 <= row < 9,
        0 <= col < 9,
        is_solution_of(c, s),
    ensures
        valid_move_spec(s, cell(c, row, col), row, col),
{
    let n = cell(c, row, col);
    assert(cell(c, row, col) != 0);
    assert(valid_move_spec(c, n, row, col));
    assert(!in_row_spec(s, n, row, col)) by {
        if in_row_spec(s, n, row, col) {
            let j = choose|j: int| 0 <= j < 9 && j != col && #[trigger] cell(s, row, j) == n;
            assert(s[index_of(row, j)] != 0);
            assert(cell(c, row, j) == n);
            assert(in_row_spec(c, n, row, col));
        }
    }
    assert(!in_column_spec(s, n, row, col)) by {
        if in_column_spec(s, n, row, col) {
            let i = choose|i: int| 0 <= i < 9 && i != row && #[trigger] cell(s, i, col) == n;
            assert(s[index_of(i, col)] != 0);
            assert(cell(c, i, col) == n);
            assert(in_column_spec(c, n, row, col));
        }
    }
    assert(!in_square_spec(s, n, row, col)) by {
        if in_square_spec(s, n, row, col) {
            let (i, j) = choose|i: int, j: int|
                0 <= i < 9 && 0 <= j < 9 && same_block(i, j, row, col) && !(i == row && j == col)
                    && #[trigger] cell(s, i, j) == n;
            assert(s[index_of(i, j)] != 0);
            assert(cell(c, i, j) == n);
            assert(in_square_spec(c, n, row, col));
        }
    }
}

/// A full board is its only solution.
pub proof fn lemma_full_solution_is_self(s: Seq<usize>, c: Seq<usize>)
    requires
        s.len() == 81,
        is_full(s),
        is_solution_of(c, s),
    ensures
        c == s,
{
    assert(c =~= s);
}

/// A board with exactly one solution is solved only by it: any full, valid,
/// digit-preserving completion equals that solution.
pub proof fn lemma_unique_solution(s: Seq<usize>, c: Seq<usize>, r: Seq<usize>)
    requires
        is_solution_of(c, s),
        forall|d: Seq<usize>| #[trigger] is_solution_of(d, s) ==> d == c,
        is_solution_of(r, s),
    ensures
        r == c,
{
}

/// Outcome of one search node: the board it settled on, and whether that
/// board is a solution.
struct SolveResult {
    pub sudoku_board: SudokuBoard,
    pub is_solved: bool,
}

/// Solves the board by backtracking. Returns the solution when the board
/// has one — the cells are scanned in a fixed row-major order and the
/// digits tried ascending, so it is the solution least in row-major
/// lexicographic order — and the board unchanged when it has none. A full
/// valid board is returned as it is.
pub fn solve(b: &SudokuBoard) -> (r: SudokuBoard)
    requires
        valid_board(b@),
        cells_in_range(b@),
    ensures
        has_solution(b@) ==> is_solution_of(r@, b@),
        has_solution(b@) ==> forall|d: Seq<usize>| #[trigger] is_solution_of(d, b@) ==> lex_leq(
            r@,
            d,
        ),
        !has_solution(b@) ==> r@ == b@,
        is_full(b@) ==> r@ == b@,
{
    let result = back_track(b);
    proof {
        if is_full(b@) {
            assert(is_solution_of(b@, b@));
            lemma_full_solution_is_self(b@, result.sudoku_board@);
        }
        if result.is_solved {
            assert(has_solution(b@));
        }
    }
    result.sudoku_board
}

/// One node of the depth-first search: fills the first empty cell with the
/// lowest legal digit whose subtree solves the board, or reports the board
/// unsolvable from here.
fn back_track(b: &SudokuBoard) -> (res: SolveResult)
    requires
        valid_board(b@),
        cells_in_range(b@),
    ensures
        res.is_solved ==> is_solution_of(res.sudoku_board@, b@),
        res.is_solved ==> forall|d: Seq<usize>| #[trigger] is_solution_of(d, b@) ==> lex_leq(
            res.sudoku_board@,
            d,
        ),
        !res.is_solved ==> res.sudoku_board@ == b@,
        has_solution(b@) ==> res.is_solved,
    decreases count_zeros(b@),
{
    let result = b.first_empty_position();

    match result {
        Some(p) => {
            let ghost pr = p.row as int;
            let ghost pc = p.col as int;
            proof {
                assert forall|c: Seq<usize>| #[trigger] is_solution_of(c, b@) implies cell(
                    c,
                    pr,
                    pc,
                ) >= 1 by {
                    assert(c[index_of(pr, pc)] != 0);
                }
            }
            let mut possible_n: usize = 1;
            while possible_n <= 9
                invariant
                    1 <= possible_n <= 10,
                    p.row < 9,
                    p.col < 9,
                    pr == p.row as int,
                    pc == p.col as int,
                    cell(b@, pr, pc) == 0,
                    forall|k: int| 0 <= k < index_of(pr, pc) ==> b@[k] != 0,
                    valid_board(b@),
                    cells_in_range(b@),
                    forall|c: Seq<usize>| #[trigger] is_solution_of(c, b@) ==> cell(c, pr, pc)
                        >= possible_n,
                decreases 10 - possible_n,
            {
                if b.is_valid_move(possible_n, &p) {
                    let new_board = b.set_num(possible_n, &p);
                    proof {
                        lemma_place_preserves_valid(b@, possible_n, pr, pc);
                        lemma_count_zeros_update(b@, index_of(pr, pc), possible_n);
                        lemma_cell_update(b@, possible_n, pr, pc);
                        assert forall|i: int| 0 <= i < 81 implies #[trigger] new_board@[i]
                            <= 9 by {
                            if i != index_of(pr, pc) {
                                assert(new_board@[i] == b@[i]);
                            }
                        }
                    }
                    let result = back_track(&new_board);
                    if result.is_solved {
                        proof {
                            assert forall|i: int| 0 <= i < 81 && #[trigger] b@[i]
                                != 0 implies result.sudoku_board@[i] == b@[i] by {
                                assert(i != index_of(pr, pc));
                                assert(new_board@[i] == b@[i]);
                            }
                            assert(is_solution_of(result.sudoku_board@, b@));
                            let rr = result.sudoku_board@;
                            let k = index_of(pr, pc);
                            assert forall|d: Seq<usize>| #[trigger] is_solution_of(d, b@) implies
                                lex_leq(rr, d) by {
                                if cell(d, pr, pc) == possible_n {
                                    // d also solves the board with this digit
                                    // placed, and the recursive call returned
                                    // the least such solution
                                    assert forall|i: int| 0 <= i < 81 && #[trigger] new_board@[i]
                                        != 0 implies d[i] == new_board@[i] by {
                                        if i == k {
                                            assert(d[i] == possible_n);
                                        } else {
                                            assert(new_board@[i] == b@[i]);
                                        }
                                    }
                                    assert(is_solution_of(d, new_board@));
                                } else {
                                    // d places a larger digit at the first
                                    // empty cell, and agrees with rr before it
                                    assert(cell(d, pr, pc) > possible_n);
                                    assert(new_board@[k] != 0);
                                    assert(rr[k] == possible_n);
                                    assert(d[k] > possible_n);
                                    assert forall|j: int| 0 <= j < k implies rr[j] == d[j] by {
                                        assert(b@[j] != 0);
                                        assert(rr[j] == b@[j]);
                                        assert(d[j] == b@[j]);
                                    }
                                    assert(rr[k] < d[k]);
                                }
                            }
                        }
                        return result;
                    }
                    proof {
                        assert forall|c: Seq<usize>| #[trigger] is_solution_of(c, b@) implies cell(
                            c,
                            pr,
                            pc,
                        ) >= possible_n + 1 by {
                            if cell(c, pr, pc) == possible_n {
                                assert forall|i: int| 0 <= i < 81 && #[trigger] new_board@[i]
                                    != 0 implies c[i] == new_board@[i] by {
                                    if i == index_of(pr, pc) {
                                        assert(c[i] == possible_n);
                                    } else {
                                        assert(new_board@[i] == b@[i]);
                                    }
                                }
                                assert(is_solution_of(c, new_board@));
                                assert(has_solution(new_board@));
                            }
                        }
                    }
                } else {
                    proof {
                        assert forall|c: Seq<usize>| #[trigger] is_solution_of(c, b@) implies cell(
                            c,
                            pr,
                            pc,
                        ) >= possible_n + 1 by {
                            if cell(c, pr, pc) == possible_n {
                                lemma_solution_move_valid(b@, c, pr, pc);
                            }
                        }
                    }
                }
                possible_n += 1;
            }
            proof {
                assert forall|c: Seq<usize>| !#[trigger] is_solution_of(c, b@) by {
                    if is_solution_of(c, b@) {
                        assert(c[index_of(pr, pc)] <= 9);
                    }
                }
            }
            SolveResult { sudoku_board: *b, is_solved: false }
        },
        None => {
            let solved = b.is_valid_sudoku();
            proof {
                assert(is_solution_of(b@, b@));
                assert forall|d: Seq<usize>| #[trigger] is_solution_of(d, b@) implies lex_leq(
                    b@,
                    d,
                ) by {
                    lemma_full_solution_is_self(b@, d);
                }
            }
            SolveResult { sudoku_board: *b, is_solved: solved }
        },
    }
}

} // verus!
