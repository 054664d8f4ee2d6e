//! The 9x9 grid: a flat row-major array of 81 cells, each holding 0 (empty)
//! or a digit 1..=9, with the row / column / block containment predicates
//! that the solver prunes with.

use vstd::prelude::*;

verus! {

/// Side length of the grid.
pub const BOARD_LENGTH: usize = 9;

/// Side length of one of the nine 3x3 blocks.
pub const BLOCK_LENGTH: usize = 3;

/// A cell address: `row` and `col` each lie in `[0, 9)` for a cell on the board.
#[derive(PartialEq, Eq, Structural, Clone, Copy, Debug)]
pub struct Position {
    pub row: usize,
    pub col: usize,
}

/// The grid itself. Row-major: the cell at (row, col) sits at index
/// `col + row * 9`. Value semantics: placing a digit yields a new board.
#[derive(Clone, Copy)]
pub struct SudokuBoard {
    pub numbers: [usize; 81],
}

impl View for SudokuBoard {
    type V = Seq<usize>;

    open spec fn view(&self) -> Seq<usize> {
        self.numbers@
    }
}

/// Flat index of the cell at (row, col).
pub open spec fn index_of(row: int, col: int) -> int {
    col + row * 9
}

/// The digit at (row, col) of a board sequence.
pub open spec fn cell(s: Seq<usize>, row: int, col: int) -> usize {
    s[index_of(row, col)]
}

/// Two cells lie in the same 3x3 block.
pub open spec fn same_block(r1: int, c1: int, r2: int, c2: int) -> bool {
    r1 / 3 == r2 / 3 && c1 / 3 == c2 / 3
}

/// Digit `n` appears in row `row` at some column other than `col`.
pub open spec fn in_row_spec(s: Seq<usize>, n: usize, row: int, col: int) -> bool {
    exists|j: int| 0 <= j < 9 && j != col && #[trigger] cell(s, row, j) == n
}

/// Digit `n` appears in column `col` at some row other than `row`.
pub open spec fn in_column_spec(s: Seq<usize>, n: usize, row: int, col: int) -> bool {
    exists|i: int| 0 <= i < 9 && i != row && #[trigger] cell(s, i, col) == n
}

/// Digit `n` appears in the 3x3 block of (row, col) at some cell other than
/// (row, col) itself.
pub open spec fn in_square_spec(s: Seq<usize>, n: usize, row: int, col: int) -> bool {
    exists|i: int, j: int|
        0 <= i < 9 && 0 <= j < 9 && same_block(i, j, row, col) && !(i == row && j == col)
            && #[trigger] cell(s, i, j) == n
}

/// Placing digit `n` at (row, col) conflicts with no other cell of the row,
/// the column, or the block.
pub open spec fn valid_move_spec(s: Seq<usize>, n: usize, row: int, col: int) -> bool {
    !in_row_spec(s, n, row, col) && !in_column_spec(s, n, row, col) && !in_square_spec(
        s,
        n,
        row,
        col,
    )
}

/// No nonzero digit appears twice in any row, column, or block. Empty cells
/// never conflict, so a partially filled grid can be valid.
pub open spec fn valid_board(s: Seq<usize>) -> bool {
    forall|r: int, c: int|
        0 <= r < 9 && 0 <= c < 9 && #[trigger] cell(s, r, c) != 0 ==> valid_move_spec(
            s,
            cell(s, r, c),
            r,
            c,
        )
}

/// Every cell holds a nonzero digit.
pub open spec fn is_full(s: Seq<usize>) -> bool {
    forall|i: int| 0 <= i < 81 ==> #[trigger] s[i] != 0
}

/// Every cell holds a value in [0, 9].
pub open spec fn cells_in_range(s: Seq<usize>) -> bool {
    forall|i: int| 0 <= i < 81 ==> #[trigger] s[i] <= 9
}

/// The 3x3 block containing `p`, addressed as (block row, block column).
fn get_square(p: &Position) -> (r: Position)
    ensures
        r.row == p.row as int / 3,
        r.col == p.col as int / 3,
{
    let rb = p.row / BLOCK_LENGTH;
    let cb = p.col / BLOCK_LENGTH;
    Position { row: rb, col: cb }
}

/// Flat index of `p`.
fn get_index(p: &Position) -> (i: usize)
    requires
        p.row < 9,
        p.col < 9,
    ensures
        i == index_of(p.row as int, p.col as int),
        i < 81,
{
    p.col + p.row * BOARD_LENGTH
}

/// The position whose flat index is `i`.
fn get_position(i: usize) -> (p: Position)
    requires
        i < 81,
    ensures
        p.row < 9,
        p.col < 9,
        index_of(p.row as int, p.col as int) == i,
{
    Position { row: i / BOARD_LENGTH, col: i % BOARD_LENGTH }
}

/// A character the parser accepts as a digit: '0' through '9'.
pub open spec fn is_digit_char(c: char) -> bool {
    48 <= c as int <= 57
}

/// Numeric value of a digit character.
pub open spec fn digit_value(c: char) -> usize {
    (c as int - 48) as usize
}

/// The cell that position `i` of the input line yields: its digit value,
/// or 0 where the line ends early or holds a newline at that position.
pub open spec fn parsed_cell(l: Seq<char>, i: int) -> usize {
    if 0 <= i < l.len() && l[i] != '\n' {
        digit_value(l[i])
    } else {
        0
    }
}

impl SudokuBoard {
    /// Builds a board from one puzzle line: character `i` of the line fills
    /// cell `i`, newline characters are skipped and leave their cell at 0,
    /// and cells beyond the line's end stay 0.
    pub fn new(line: String) -> (b: SudokuBoard)
        requires
            forall|i: int|
                0 <= i < line@.len() ==> #[trigger] line@[i] == '\n' || is_digit_char(line@[i]),
            forall|i: int| 0 <= i < line@.len() && #[trigger] line@[i] != '\n' ==> i < 81,
        ensures
            forall|i: int| 0 <= i < 81 ==> #[trigger] b@[i] == parsed_cell(line@, i),
            cells_in_range(b@),
    {
        let mut sb = SudokuBoard { numbers: [0; 81] };
        let len = line.as_str().unicode_len();
        let mut i: usize = 0;
        while i < len
            invariant
                len == line@.len(),
                i <= len,
                forall|k: int|
                    0 <= k < line@.len() ==> #[trigger] line@[k] == '\n' || is_digit_char(
                        line@[k],
                    ),
                forall|k: int| 0 <= k < line@.len() && #[trigger] line@[k] != '\n' ==> k < 81,
                forall|k: int|
                    0 <= k < 81 ==> #[trigger] sb.numbers@[k] == (if k < i {
                        parsed_cell(line@, k)
                    } else {
                        0
                    }),
            decreases len - i,
        {
            let c = line.as_str().get_char(i);
            if c != '\n' {
                let u = c as u32;
                sb.numbers[i] = (u - 48) as usize;
            }
            i += 1;
        }
        sb
    }

    /// The first empty cell in row-major scan order, or nothing when the
    /// board is full.
    pub fn first_empty_position(&self) -> (r: Option<Position>)
        ensures
            match r {
                Some(p) => p.row < 9 && p.col < 9 && cell(self@, p.row as int, p.col as int) == 0
                    && forall|k: int| 0 <= k < index_of(p.row as int, p.col as int) ==> self@[k] != 0,
                None => is_full(self@),
            },
    {
        let mut i: usize = 0;
        while i < 81
            invariant
                i <= 81,
                forall|k: int| 0 <= k < i ==> self.numbers@[k] != 0,
            decreases 81 - i,
        {
            if self.numbers[i] == 0 {
                return Some(get_position(i));
            }
            i += 1;
        }
        None
    }

    /// A new board, identical to this one except that cell `p` holds `n`.
    /// The receiver is unchanged; the digit's range and legality are the
    /// caller's affair.
    pub fn set_num(&self, n: usize, p: &Position) -> (b: SudokuBoard)
        requires
            p.row < 9,
            p.col < 9,
        ensures
            b@ == self@.update(index_of(p.row as int, p.col as int), n),
    {
        let mut new_board = *self;
        let i = get_index(p);
        new_board.numbers[i] = n;
        new_board
    }

    /// The digit at cell `p`.
    pub fn get_number(&self, p: &Position) -> (n: usize)
        requires
            p.row < 9,
            p.col < 9,
        ensures
            n == cell(self@, p.row as int, p.col as int),
    {
        let i = get_index(p);
        self.numbers[i]
    }

    /// Does digit `n` appear in `p`'s row, at a cell other than `p` itself?
    pub fn is_in_row(&self, n: usize, p: &Position) -> (r: bool)
        requires
            p.row < 9,
            p.col < 9,
        ensures
            r == in_row_spec(self@, n, p.row as int, p.col as int),
    {
        let mut col: usize = 0;
        while col < BOARD_LENGTH
            invariant
                col <= 9,
                p.row < 9,
                p.col < 9,
                forall|j: int|
                    0 <= j < col && j != p.col ==> #[trigger] cell(self@, p.row as int, j) != n,
            decreases 9 - col,
        {
            if col != p.col {
                let p_to_check = Position { row: p.row, col };
                let n_to_check = self.get_number(&p_to_check);
                if n_to_check == n {
                    return true;
                }
            }
            col += 1;
        }
        false
    }

    /// Does digit `n` appear in `p`'s column, at a cell other than `p` itself?
    pub fn is_in_column(&self, n: usize, p: &Position) -> (r: bool)
        requires
            p.row < 9,
            p.col < 9,
        ensures
            r == in_column_spec(self@, n, p.row as int, p.col as int),
    {
        let mut row: usize = 0;
        while row < BOARD_LENGTH
            invariant
                row <= 9,
                p.row < 9,
                p.col < 9,
                forall|i: int|
                    0 <= i < row && i != p.row ==> #[trigger] cell(self@, i, p.col as int) != n,
            decreases 9 - row,
        {
            if row != p.row {
                let p_to_check = Position { row, col: p.col };
                let n_to_check = self.get_number(&p_to_check);
                if n_to_check == n {
                    return true;
                }
            }
            row += 1;
        }
        false
    }

    /// Does digit `n` appear in `p`'s 3x3 block, at a cell other than `p`
    /// itself?
    pub fn is_in_square(&self, n: usize, p: &Position) -> (r: bool)
        requires
            p.row < 9,
            p.col < 9,
        ensures
            r == in_square_spec(self@, n, p.row as int, p.col as int),
    {
        let square = get_square(p);
        let row0 = square.row * BLOCK_LENGTH;
        let col0 = square.col * BLOCK_LENGTH;
        let mut i: usize = 0;
        while i < BLOCK_LENGTH
            invariant
                i <= 3,
                p.row < 9,
                p.col < 9,
                row0 == 3 * (p.row as int / 3),
                col0 == 3 * (p.col as int / 3),
                forall|r2: int, c2: int|
                    row0 <= r2 < row0 + i && col0 <= c2 < col0 + 3 && !(r2 == p.row as int && c2
                        == p.col as int) ==> #[trigger] cell(self@, r2, c2) != n,
            decreases 3 - i,
        {
            let mut j: usize = 0;
            while j < BLOCK_LENGTH
                invariant
                    i < 3,
                    j <= 3,
                    p.row < 9,
                    p.col < 9,
                    row0 == 3 * (p.row as int / 3),
                    col0 == 3 * (p.col as int / 3),
                    forall|r2: int, c2: int|
                        row0 <= r2 < row0 + i && col0 <= c2 < col0 + 3 && !(r2 == p.row as int && c2
                            == p.col as int) ==> #[trigger] cell(self@, r2, c2) != n,
                    forall|c2: int|
                        col0 <= c2 < col0 + j && !(row0 + i == p.row as int && c2 == p.col as int)
                            ==> #[trigger] cell(self@, row0 + i as int, c2) != n,
                decreases 3 - j,
            {
                let row = row0 + i;
                let col = col0 + j;
                if !(row == p.row && col == p.col) {
                    let p_to_check = Position { row, col };
                    let n_to_check = self.get_number(&p_to_check);
                    if n_to_check == n {
                        assert(same_block(row as int, col as int, p.row as int, p.col as int));
                        return true;
                    }
                }
                j += 1;
            }
            i += 1;
        }
        proof {
            assert forall|r2: int, c2: int|
                0 <= r2 < 9 && 0 <= c2 < 9 && same_block(r2, c2, p.row as int, p.col as int) && !(
                r2 == p.row as int && c2 == p.col as int) implies #[trigger] cell(self@, r2, c2)
                != n by {
                assert(row0 <= r2 < row0 + 3);
                assert(col0 <= c2 < col0 + 3);
            }
        }
        false
    }

    /// True exactly when placing digit `n` at `p` conflicts with no other
    /// cell of `p`'s row, column, or block.
    pub fn is_valid_move(&self, n: usize, p: &Position) -> (r: bool)
        requires
            p.row < 9,
            p.col < 9,
        ensures
            r == valid_move_spec(self@, n, p.row as int, p.col as int),
    {
        !self.is_in_square(n, p) && !self.is_in_row(n, p) && !self.is_in_column(n, p)
    }

    /// True exactly when no row, column, or block holds a nonzero digit
    /// twice. Empty cells never conflict, so a partially filled board with
    /// no such duplicate is valid too.
    pub fn is_valid_sudoku(&self) -> (r: bool)
        ensures
            r == valid_board(self@),
    {
        let mut row: usize = 0;
        while row < BOARD_LENGTH
            invariant
                row <= 9,
                forall|r2: int, c2: int|
                    0 <= r2 < row && 0 <= c2 < 9 && #[trigger] cell(self@, r2, c2) != 0
                        ==> valid_move_spec(self@, cell(self@, r2, c2), r2, c2),
            decreases 9 - row,
        {
            let mut col: usize = 0;
            while col < BOARD_LENGTH
                invariant
                    row < 9,
                    col <= 9,
                    forall|r2: int, c2: int|
                        0 <= r2 < row && 0 <= c2 < 9 && #[trigger] cell(self@, r2, c2) != 0
                            ==> valid_move_spec(self@, cell(self@, r2, c2), r2, c2),
                    forall|c2: int|
                        0 <= c2 < col && #[trigger] cell(self@, row as int, c2) != 0
                            ==> valid_move_spec(self@, cell(self@, row as int, c2), row as int, c2),
                decreases 9 - col,
            {
                let p = Position { row, col };
                let n = self.get_number(&p);
                if n != 0 && !self.is_valid_move(n, &p) {
                    return false;
                }
                col += 1;
            }
            row += 1;
        }
        true
    }
}

/// The flat index is injective on the board: two distinct cells never share
/// it.
pub proof fn lemma_index_of_injective(r1: int, c1: int, r2: int, c2: int)
    requires
        0 <= r1 < 9,
        0 <= c1 < 9,
        0 <= r2 < 9,
        0 <= c2 < 9,
        index_of(r1, c1) == index_of(r2, c2),
    ensures
        r1 == r2 && c1 == c2,
{
}

/// Updating the cell at (row, col) changes that cell to `v` and no other.
pub proof fn lemma_cell_update(s: Seq<usize>, v: usize, row: int, col: int)
    requires
        s.len() == 81,
        0 <= row < 9,
        0 <= col < 9,
    ensures
        forall|r2: int, c2: int|
            0 <= r2 < 9 && 0 <= c2 < 9 ==> #[trigger] cell(s.update(index_of(row, col), v), r2, c2)
                == (if r2 == row && c2 == col {
                v
            } else {
                cell(s, r2, c2)
            }),
{
    assert forall|r2: int, c2: int| 0 <= r2 < 9 && 0 <= c2 < 9 implies #[trigger] cell(
        s.update(index_of(row, col), v),
        r2,
        c2,
    ) == (if r2 == row && c2 == col {
        v
    } else {
        cell(s, r2, c2)
    }) by {
        if r2 == row && c2 == col {
        } else {
            assert(index_of(r2, c2) != index_of(row, col)) by {
                if index_of(r2, c2) == index_of(row, col) {
                    lemma_index_of_injective(r2, c2, row, col);
                }
            }
        }
    }
}

/// The containment checks ignore the digit at the queried cell itself:
/// whatever is written at (row, col) — in particular the digit `n` being
/// tested — none of the three predicates, nor the composite move check,
/// changes its answer for (row, col).
pub proof fn lemma_checks_ignore_own_cell(s: Seq<usize>, v: usize, n: usize, row: int, col: int)
    requires
        s.len() == 81,
        0 <= row < 9,
        0 <= col < 9,
    ensures
        in_row_spec(s.update(index_of(row, col), v), n, row, col) == in_row_spec(s, n, row, col),
        in_column_spec(s.update(index_of(row, col), v), n, row, col) == in_column_spec(
            s,
            n,
            row,
            col,
        ),
        in_square_spec(s.update(index_of(row, col), v), n, row, col) == in_square_spec(
            s,
            n,
            row,
            col,
        ),
        valid_move_spec(s.update(index_of(row, col), v), n, row, col) == valid_move_spec(
            s,
            n,
            row,
            col,
        ),
{
    let t = s.update(index_of(row, col), v);
    lemma_cell_update(s, v, row, col);
    assert(in_row_spec(t, n, row, col) == in_row_spec(s, n, row, col)) by {
        if in_row_spec(s, n, row, col) {
            let j = choose|j: int| 0 <= j < 9 && j != col && #[trigger] cell(s, row, j) == n;
            assert(cell(t, row, j) == n);
        }
        if in_row_spec(t, n, row, col) {
            let j = choose|j: int| 0 <= j < 9 && j != col && #[trigger] cell(t, row, j) == n;
            assert(cell(s, row, j) == n);
        }
    }
    assert(in_column_spec(t, n, row, col) == in_column_spec(s, n, row, col)) by {
        if in_column_spec(s, n, row, col) {
            let i = choose|i: int| 0 <= i < 9 && i != row && #[trigger] cell(s, i, col) == n;
            assert(cell(t, i, col) == n);
        }
        if in_column_spec(t, n, row, col) {
            let i = choose|i: int| 0 <= i < 9 && i != row && #[trigger] cell(t, i, col) == n;
            assert(cell(s, i, col) == n);
        }
    }
    assert(in_square_spec(t, n, row, col) == in_square_spec(s, n, row, col)) by {
        if in_square_spec(s, n, row, col) {
            let (i, j) = choose|i: int, j: int|
                0 <= i < 9 && 0 <= j < 9 && same_block(i, j, row, col) && !(i == row && j == col)
                    && #[trigger] cell(s, i, j) == n;
            assert(cell(t, i, j) == n);
        }
        if in_square_spec(t, n, row, col) {
            let (i, j) = choose|i: int, j: int|
                0 <= i < 9 && 0 <= j < 9 && same_block(i, j, row, col) && !(i == row && j == col)
                    && #[trigger] cell(t, i, j) == n;
            assert(cell(s, i, j) == n);
        }
    }
}

/// Two distinct cells share a row, a column, or a block.
pub open spec fn same_unit(r1: int, c1: int, r2: int, c2: int) -> bool {
    r1 == r2 || c1 == c2 || same_block(r1, c1, r2, c2)
}

/// Some nonzero digit appears at two distinct cells of one row, column, or
/// block.
pub open spec fn has_duplicate(s: Seq<usize>) -> bool {
    exists|r1: int, c1: int, r2: int, c2: int|
        0 <= r1 < 9 && 0 <= c1 < 9 && 0 <= r2 < 9 && 0 <= c2 < 9 && !(r1 == r2 && c1 == c2)
            && same_unit(r1, c1, r2, c2) && #[trigger] cell(s, r1, c1) == #[trigger] cell(
            s,
            r2,
            c2,
        ) && cell(s, r1, c1) != 0
}

/// A board is valid exactly when no nonzero digit is duplicated within a
/// row, a column, or a block.
pub proof fn lemma_valid_board_iff_no_duplicate(s: Seq<usize>)
    requires
        s.len() == 81,
    ensures
        valid_board(s) <==> !has_duplicate(s),
{
    if has_duplicate(s) {
        let (r1, c1, r2, c2) = choose|r1: int, c1: int, r2: int, c2: int|
            0 <= r1 < 9 && 0 <= c1 < 9 && 0 <= r2 < 9 && 0 <= c2 < 9 && !(r1 == r2 && c1 == c2)
                && same_unit(r1, c1, r2, c2) && #[trigger] cell(s, r1, c1) == #[trigger] cell(
                s,
                r2,
                c2,
            ) && cell(s, r1, c1) != 0;
        let n = cell(s, r1, c1);
        if r1 == r2 {
            assert(in_row_spec(s, n, r1, c1)) by {
                assert(0 <= c2 < 9 && c2 != c1 && cell(s, r1, c2) == n);
            }
        } else if c1 == c2 {
            assert(in_column_spec(s, n, r1, c1)) by {
                assert(0 <= r2 < 9 && r2 != r1 && cell(s, r2, c1) == n);
            }
        } else {
            assert(in_square_spec(s, n, r1, c1)) by {
                assert(same_block(r2, c2, r1, c1) && !(r2 == r1 && c2 == c1) && cell(s, r2, c2)
                    == n);
            }
        }
        assert(!valid_board(s));
    }
    if !has_duplicate(s) {
        assert forall|r: int, c: int|
            0 <= r < 9 && 0 <= c < 9 && #[trigger] cell(s, r, c) != 0 implies valid_move_spec(
            s,
            cell(s, r, c),
            r,
            c,
        ) by {
            let n = cell(s, r, c);
            assert(!in_row_spec(s, n, r, c)) by {
                if in_row_spec(s, n, r, c) {
                    let j = choose|j: int| 0 <= j < 9 && j != c && #[trigger] cell(s, r, j) == n;
                    assert(same_unit(r, c, r, j));
                    assert(has_duplicate(s));
                }
            }
            assert(!in_column_spec(s, n, r, c)) by {
                if in_column_spec(s, n, r, c) {
                    let i = choose|i: int| 0 <= i < 9 && i != r && #[trigger] cell(s, i, c) == n;
                    assert(same_unit(r, c, i, c));
                    assert(has_duplicate(s));
                }
            }
            assert(!in_square_spec(s, n, r, c)) by {
                if in_square_spec(s, n, r, c) {
                    let (i, j) = choose|i: int, j: int|
                        0 <= i < 9 && 0 <= j < 9 && same_block(i, j, r, c) && !(i == r && j == c)
                            && #[trigger] cell(s, i, j) == n;
                    assert(same_unit(r, c, i, j));
                    assert(has_duplicate(s));
                }
            }
        }
    }
}

} // verus!
