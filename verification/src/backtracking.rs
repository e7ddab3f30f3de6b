//! Depth-first search with chronological backtracking over the cells that
//! were empty when the puzzle was loaded.
//!
//! The solver walks a cursor over the list of initially-empty cells. At each
//! cell it looks for the smallest digit above the cell's current value that
//! does not clash with a row, column or block peer; finding one, it writes it
//! and advances, finding none, it clears the cell and retreats. The cursor
//! passing the end of the list means every cell holds a valid digit; the
//! cursor retreating past the start means the puzzle has no solution.

use vstd::prelude::*;
use vstd::arithmetic::mul::lemma_mul_inequality;
use crate::grid::block_cell;
use crate::grid::block_of;
use crate::grid::block_slot;
use crate::grid::cell_index;
use crate::grid::col_of;
use crate::grid::conflict_free;
use crate::grid::digit_ok;
use crate::grid::in_grid;
use crate::grid::is_solution;
use crate::grid::all_filled;
use crate::grid::lemma_block_decomp;
use crate::grid::lemma_cell_decomp;
use crate::grid::lemma_cell_index_inverse;
use crate::grid::row_of;
use crate::grid::same_block;
use crate::grid::same_col;
use crate::grid::same_row;
use crate::grid::same_unit;
use crate::grid::solved_grid;

verus! {

/// Why a clue set was rejected at construction.
#[derive(Clone, Copy, PartialEq, Eq, Structural, Debug)]
pub enum SudokuError {
    /// A clue lies outside the grid or outside the digits 0..=9.
    InvalidClue,
    /// Two clues of a common row, column or block hold the same digit.
    ConflictingClues,
}

/// The two possible ends of a search.
#[derive(Clone, Copy, PartialEq, Eq, Structural, Debug)]
pub enum SolveOutcome {
    Solved,
    Unsolvable,
}

/// Digit `v` may stand in cell `i` of `s`: no other cell of `i`'s row,
/// column or block holds `v`.
pub open spec fn valid_candidate(s: Seq<u32>, i: int, v: u32) -> bool {
    forall|j: int| in_grid(j) && j != i && #[trigger] same_unit(j, i) ==> s[j] != v
}

/// The digit that a clue list assigns to cell `i`; a later pair for the same
/// cell overrides an earlier one, and an unmentioned cell is empty (0).
pub open spec fn clue_at(ps: Seq<(usize, u32)>, i: int) -> u32
    decreases ps.len(),
{
    if ps.len() == 0 {
        0
    } else if ps.last().0 as int == i {
        ps.last().1
    } else {
        clue_at(ps.drop_last(), i)
    }
}

/// The full grid that a clue list describes.
pub open spec fn clue_grid(ps: Seq<(usize, u32)>) -> Seq<u32> {
    Seq::new(81, |i: int| clue_at(ps, i))
}

/// Every clue names a cell of the grid and a digit 0..=9.
pub open spec fn clues_in_range(ps: Seq<(usize, u32)>) -> bool {
    forall|q: int| 0 <= q < ps.len() ==> (#[trigger] ps[q]).0 < 81 && ps[q].1 <= 9
}

/// Writing a non-conflicting digit (or clearing a cell) keeps a grid free of
/// conflicts.
pub proof fn lemma_write_keeps_conflict_free(s: Seq<u32>, i: int, v: u32)
    requires
        s.len() == 81,
        conflict_free(s),
        in_grid(i),
        v == 0 || (digit_ok(v) && valid_candidate(s, i, v)),
    ensures
        conflict_free(s.update(i, v)),
{
    let s2 = s.update(i, v);
    assert forall|a: int, b: int|
        in_grid(a) && in_grid(b) && a != b && #[trigger] same_unit(a, b) && s2[a] != 0 implies s2[b]
        != s2[a] by {
        if a == i {
            assert(same_unit(b, i));
        } else if b == i {
            if v != 0 {
                assert(same_unit(a, i));
            }
        } else {
            assert(same_unit(a, b));
        }
    };
}

spec fn pow10(e: nat) -> nat
    decreases e,
{
    if e == 0 {
        1
    } else {
        10 * pow10((e - 1) as nat)
    }
}

proof fn lemma_pow10_pos(e: nat)
    ensures
        pow10(e) >= 1,
    decreases e,
{
    if e > 0 {
        lemma_pow10_pos((e - 1) as nat);
    }
}

/// The digit standing at the `j`-th unsolved cell, or 10 outside the list,
/// so that the corresponding term of the search measure vanishes there.
spec fn digit_at(b: Seq<u32>, u: Seq<usize>, j: int) -> int {
    if 0 <= j < u.len() && (u[j] as int) < b.len() && b[u[j] as int] <= 9 {
        b[u[j] as int] as int
    } else {
        10
    }
}

spec fn weight(u: Seq<usize>, j: int) -> nat {
    if j <= u.len() - 1 {
        pow10((u.len() - 1 - j) as nat)
    } else {
        1
    }
}

/// Search measure: how much of the candidate space may still lie ahead when
/// the cursor stands at `k`. Trying a larger digit or retreating both shrink
/// it, which bounds the number of candidate trials.
spec fn mu(b: Seq<u32>, u: Seq<usize>, k: int) -> nat
    decreases k + 1,
{
    if k < 0 {
        0
    } else {
        (mu(b, u, k - 1) + (10 - digit_at(b, u, k)) * weight(u, k)) as nat
    }
}

proof fn lemma_mu_agree(b1: Seq<u32>, b2: Seq<u32>, u: Seq<usize>, k: int)
    requires
        forall|j: int| 0 <= j <= k ==> digit_at(b1, u, j) == digit_at(b2, u, j),
    ensures
        mu(b1, u, k) == mu(b2, u, k),
    decreases k + 1,
{
    if k >= 0 {
        lemma_mu_agree(b1, b2, u, k - 1);
    }
}

proof fn lemma_mu_nonneg_term(b: Seq<u32>, u: Seq<usize>, k: int)
    requires
        k >= 0,
    ensures
        mu(b, u, k) == mu(b, u, k - 1) + (10 - digit_at(b, u, k)) * weight(u, k),
        (10 - digit_at(b, u, k)) * weight(u, k) >= 0,
{
    let d = digit_at(b, u, k);
    assert(0 <= d <= 10);
    assert((10 - d) * weight(u, k) >= 0) by (nonlinear_arith)
        requires
            0 <= d <= 10,
            weight(u, k) >= 0,
    ;
}

proof fn lemma_mu_backward(b: Seq<u32>, u: Seq<usize>, k: int)
    requires
        b.len() == 81,
        0 <= k < u.len(),
        forall|j: int| 0 <= j < u.len() ==> (#[trigger] u[j]) < 81,
        forall|j: int| 0 <= j < u.len() && j != k ==> u[j] != u[k],
        b[u[k] as int] <= 9,
    ensures
        mu(b.update(u[k] as int, 0), u, k - 1) < mu(b, u, k),
{
    let b2 = b.update(u[k] as int, 0);
    assert forall|j: int| 0 <= j <= k - 1 implies digit_at(b, u, j) == digit_at(b2, u, j) by {
        assert(u[j] != u[k]);
    };
    lemma_mu_agree(b, b2, u, k - 1);
    lemma_pow10_pos((u.len() - 1 - k) as nat);
    let d = digit_at(b, u, k);
    assert(0 <= d <= 9);
    assert((10 - d) * weight(u, k) >= 1) by (nonlinear_arith)
        requires
            10 - d >= 1,
            weight(u, k) >= 1,
    ;
    lemma_mu_nonneg_term(b, u, k);
}

proof fn lemma_mu_forward(b: Seq<u32>, u: Seq<usize>, k: int, c: u32)
    requires
        b.len() == 81,
        0 <= k < u.len(),
        forall|j: int| 0 <= j < u.len() ==> (#[trigger] u[j]) < 81,
        forall|j: int| 0 <= j < u.len() && j != k ==> u[j] != u[k],
        (b[u[k] as int] as int) < c <= 9,
        k + 1 < u.len() ==> b[u[k + 1] as int] == 0,
    ensures
        mu(b.update(u[k] as int, c), u, k + 1) <= mu(b, u, k),
{
    let b2 = b.update(u[k] as int, c);
    let a = b[u[k] as int] as int;
    let w = weight(u, k);
    assert forall|j: int| 0 <= j <= k - 1 implies digit_at(b, u, j) == digit_at(b2, u, j) by {
        assert(u[j] != u[k]);
    };
    lemma_mu_agree(b, b2, u, k - 1);
    lemma_pow10_pos((u.len() - 1 - k) as nat);
    assert(digit_at(b, u, k) == a);
    assert(digit_at(b2, u, k) == c as int);
    lemma_mu_nonneg_term(b, u, k);
    lemma_mu_nonneg_term(b2, u, k);
    lemma_mu_nonneg_term(b2, u, k + 1);
    if k + 1 < u.len() {
        assert(u[k + 1] != u[k]);
        assert(digit_at(b2, u, k + 1) == 0);
        assert(weight(u, k) == 10 * weight(u, k + 1)) by {
            assert((u.len() - 1 - k) as nat == ((u.len() - 1 - (k + 1)) as nat + 1) as nat);
        };
        let w1 = weight(u, k + 1);
        assert(mu(b2, u, k + 1) == mu(b, u, k - 1) + (10 - c as int) * (10 * w1) + 10 * w1);
        assert((10 - c as int) * (10 * w1) + 10 * w1 == (11 - c as int) * (10 * w1)) by (nonlinear_arith);
        lemma_mul_inequality(11 - c as int, 10 - a, 10 * (w1 as int));
    } else {
        assert(digit_at(b2, u, k + 1) == 10);
        assert(mu(b2, u, k + 1) == mu(b2, u, k) + 0 * weight(u, k + 1));
        assert(mu(b2, u, k + 1) == mu(b, u, k - 1) + (10 - c as int) * w);
        lemma_mul_inequality(10 - c as int, 10 - a, w as int);
    }
}

/// A digit that a full valid grid puts in a cell is always a valid candidate
/// on a board whose other filled cells all agree with that grid.
proof fn lemma_solution_candidate(board: Seq<u32>, s: Seq<u32>, i: int)
    requires
        board.len() == 81,
        s.len() == 81,
        solved_grid(s),
        in_grid(i),
        forall|j: int| in_grid(j) && j != i && #[trigger] board[j] != 0 ==> s[j] == board[j],
    ensures
        valid_candidate(board, i, s[i]),
{
    assert forall|j: int|
        in_grid(j) && j != i && #[trigger] same_unit(j, i) implies board[j] != s[i] by {
        if board[j] != 0 {
            assert(s[j] == board[j]);
            assert(s[j] != s[i]);
        } else {
            assert(digit_ok(s[i]));
        }
    };
}

/// The values of the first `j` unsolved cells of `s` match the board.
spec fn prefix_matches(b: Seq<u32>, u: Seq<usize>, s: Seq<u32>, j: int) -> bool {
    forall|i: int| 0 <= i < j ==> s[(#[trigger] u[i]) as int] == b[u[i] as int]
}

/// Somewhere at or before position `k` of the unsolved list, `s` matches the
/// board's assignment up to that position and then exceeds it: the search,
/// which tries digits in increasing order, has not yet passed `s` by.
spec fn frontier_above(b: Seq<u32>, u: Seq<usize>, s: Seq<u32>, k: int) -> bool {
    exists|j: int|
        0 <= j <= k && #[trigger] prefix_matches(b, u, s, j) && s[u[j] as int] > b[u[j] as int]
}

/// One puzzle instance for the backtracking engine: the 81-cell grid, the
/// list of cells that were empty at load time, and precomputed peer-index
/// tables derived from grid geometry alone.
pub struct Sudoku {
    board: Vec<u32>,
    unsolved_cells: Vec<usize>,
    coords: Vec<(usize, usize)>,
    rows: Vec<Vec<usize>>,
    cols: Vec<Vec<usize>>,
    blocks: Vec<Vec<usize>>,
}

impl Sudoku {
    /// The 81 cells, row-major; 0 marks an empty cell.
    pub closed spec fn grid(self) -> Seq<u32> {
        self.board@
    }

    /// Flat indices of the cells that were empty at load time, ascending.
    pub closed spec fn unsolved(self) -> Seq<usize> {
        self.unsolved_cells@
    }

    /// Cell `i` is on the unsolved list.
    pub open spec fn unsolved_contains(self, i: int) -> bool {
        exists|j: int|
            0 <= j < self.unsolved().len() && (#[trigger] self.unsolved()[j]) as int == i
    }

    /// Shapes and geometry: an 81-cell board of digits 0..=9, coordinate and
    /// peer-index tables that match the grid geometry, and a strictly
    /// ascending unsolved list of grid cells.
    pub closed spec fn wf_dims(self) -> bool {
        &&& self.board@.len() == 81
        &&& forall|i: int| 0 <= i < 81 ==> #[trigger] self.board@[i] <= 9
        &&& self.coords@.len() == 81
        &&& forall|i: int|
            0 <= i < 81 ==> (#[trigger] self.coords@[i]).0 as int == row_of(i)
                && self.coords@[i].1 as int == col_of(i)
        &&& self.rows@.len() == 9
        &&& forall|x: int| 0 <= x < 9 ==> (#[trigger] self.rows@[x])@.len() == 9
        &&& forall|x: int, y: int|
            0 <= x < 9 && 0 <= y < 9 ==> (#[trigger] self.rows@[x]@[y]) as int == cell_index(x, y)
        &&& self.cols@.len() == 9
        &&& forall|x: int| 0 <= x < 9 ==> (#[trigger] self.cols@[x])@.len() == 9
        &&& forall|x: int, y: int|
            0 <= x < 9 && 0 <= y < 9 ==> (#[trigger] self.cols@[x]@[y]) as int == cell_index(y, x)
        &&& self.blocks@.len() == 9
        &&& forall|x: int| 0 <= x < 9 ==> (#[trigger] self.blocks@[x])@.len() == 9
        &&& forall|x: int, y: int|
            0 <= x < 9 && 0 <= y < 9 ==> (#[trigger] self.blocks@[x]@[y]) as int == block_cell(
                x,
                y,
            )
        &&& forall|j: int|
            0 <= j < self.unsolved().len() ==> (#[trigger] self.unsolved()[j]) < 81
        &&& forall|j1: int, j2: int|
            0 <= j1 < j2 < self.unsolved().len() ==> (#[trigger] self.unsolved()[j1])
                < (#[trigger] self.unsolved()[j2])
    }

    /// A well-formed puzzle: shapes and geometry as above, no conflicting
    /// digits anywhere, and every cell off the unsolved list holding a digit
    /// 1..=9 (a given clue).
    pub closed spec fn wf(self) -> bool {
        &&& self.wf_dims()
        &&& conflict_free(self.grid())
        &&& forall|i: int|
            in_grid(i) && !self.unsolved_contains(i) ==> digit_ok(#[trigger] self.grid()[i])
    }

    /// Every cell of the unsolved list is still empty: the state in which a
    /// puzzle leaves construction.
    pub open spec fn all_unsolved_blank(self) -> bool {
        forall|j: int|
            0 <= j < self.unsolved().len() ==> self.grid()[(#[trigger] self.unsolved()[j]) as int]
                == 0
    }

    /// A well-formed puzzle always has well-formed shapes and geometry, so
    /// the cell accessors may be called on any puzzle that construction or
    /// solving handed out.
    pub proof fn lemma_wf_implies_wf_dims(self)
        requires
            self.wf(),
        ensures
            self.wf_dims(),
    {
    }

    /// Builds a puzzle from a sparse clue list of (flat index, digit) pairs.
    /// A digit 0 leaves its cell empty and a later pair overrides an earlier
    /// one for the same cell. Rejects a clue outside the grid or above 9, and
    /// clue sets in which two cells of a common unit hold the same digit.
    #[verifier::loop_isolation(false)]
    pub fn from_pairs(pairs: &Vec<(usize, u32)>) -> (r: Result<Sudoku, SudokuError>)
        ensures
            match r {
                Ok(s) => {
                    &&& clues_in_range(pairs@)
                    &&& conflict_free(clue_grid(pairs@))
                    &&& s.wf()
                    &&& s.all_unsolved_blank()
                    &&& s.grid() == clue_grid(pairs@)
                    &&& forall|i: int|
                        in_grid(i) ==> (s.unsolved_contains(i) <==> s.grid()[i] == 0)
                },
                Err(SudokuError::InvalidClue) => !clues_in_range(pairs@),
                Err(SudokuError::ConflictingClues) => clues_in_range(pairs@) && !conflict_free(
                    clue_grid(pairs@),
                ),
            },
    {
        let mut q: usize = 0;
        while q < pairs.len()
            invariant
                q <= pairs@.len(),
                forall|t: int| 0 <= t < q ==> (#[trigger] pairs@[t]).0 < 81 && pairs@[t].1 <= 9,
            decreases pairs@.len() - q,
        {
            let pr = pairs[q];
            if pr.0 >= 81 || pr.1 > 9 {
                return Err(SudokuError::InvalidClue);
            }
            q += 1;
        }

        let mut board: Vec<u32> = Vec::new();
        while board.len() < 81
            invariant
                board@.len() <= 81,
                forall|i: int| 0 <= i < board@.len() ==> #[trigger] board@[i] == 0,
            decreases 81 - board@.len(),
        {
            board.push(0);
        }

        let mut q: usize = 0;
        while q < pairs.len()
            invariant
                q <= pairs@.len(),
                board@.len() == 81,
                forall|i: int|
                    0 <= i < 81 ==> #[trigger] board@[i] == clue_at(pairs@.take(q as int), i),
                forall|i: int| 0 <= i < 81 ==> #[trigger] board@[i] <= 9,
            decreases pairs@.len() - q,
        {
            let pr = pairs[q];
            board.set(pr.0, pr.1);
            proof {
                let psq = pairs@.take(q as int);
                let psq1 = pairs@.take(q as int + 1);
                assert(psq1.last() == pairs@[q as int]);
                assert(psq1.drop_last() =~= psq);
                assert forall|i: int| 0 <= i < 81 implies #[trigger] board@[i] == clue_at(
                    psq1,
                    i,
                ) by {
                    if i == pairs@[q as int].0 as int {
                        assert(clue_at(psq1, i) == psq1.last().1);
                    } else {
                        assert(clue_at(psq1, i) == clue_at(psq1.drop_last(), i));
                    }
                };
            }
            q += 1;
        }
        proof {
            assert(pairs@.take(pairs@.len() as int) =~= pairs@);
        }

        let mut rows_t: Vec<Vec<usize>> = Vec::new();
        let mut x: usize = 0;
        while x < 9
            invariant
                x <= 9,
                rows_t@.len() == x as int,
                forall|a: int| 0 <= a < x ==> (#[trigger] rows_t@[a])@.len() == 9,
                forall|a: int, b: int|
                    0 <= a < x && 0 <= b < 9 ==> (#[trigger] rows_t@[a]@[b]) as int == cell_index(
                        a,
                        b,
                    ),
            decreases 9 - x,
        {
            let mut row_v: Vec<usize> = Vec::new();
            let mut y: usize = 0;
            while y < 9
                invariant
                    y <= 9,
                    row_v@.len() == y as int,
                    forall|b: int|
                        0 <= b < y ==> (#[trigger] row_v@[b]) as int == cell_index(x as int, b),
                decreases 9 - y,
            {
                row_v.push(x * 9 + y);
                y += 1;
            }
            rows_t.push(row_v);
            x += 1;
        }

        let mut cols_t: Vec<Vec<usize>> = Vec::new();
        let mut x: usize = 0;
        while x < 9
            invariant
                x <= 9,
                cols_t@.len() == x as int,
                forall|a: int| 0 <= a < x ==> (#[trigger] cols_t@[a])@.len() == 9,
                forall|a: int, b: int|
                    0 <= a < x && 0 <= b < 9 ==> (#[trigger] cols_t@[a]@[b]) as int == cell_index(
                        b,
                        a,
                    ),
            decreases 9 - x,
        {
            let mut col_v: Vec<usize> = Vec::new();
            let mut y: usize = 0;
            while y < 9
                invariant
                    y <= 9,
                    col_v@.len() == y as int,
                    forall|b: int|
                        0 <= b < y ==> (#[trigger] col_v@[b]) as int == cell_index(b, x as int),
                decreases 9 - y,
            {
                col_v.push(y * 9 + x);
                y += 1;
            }
            cols_t.push(col_v);
            x += 1;
        }

        let mut blocks_t: Vec<Vec<usize>> = Vec::new();
        let mut x: usize = 0;
        while x < 9
            invariant
                x <= 9,
                blocks_t@.len() == x as int,
                forall|a: int| 0 <= a < x ==> (#[trigger] blocks_t@[a])@.len() == 9,
                forall|a: int, b: int|
                    0 <= a < x && 0 <= b < 9 ==> (#[trigger] blocks_t@[a]@[b]) as int == block_cell(
                        a,
                        b,
                    ),
            decreases 9 - x,
        {
            let mut block_v: Vec<usize> = Vec::new();
            let mut y: usize = 0;
            while y < 9
                invariant
                    y <= 9,
                    block_v@.len() == y as int,
                    forall|b: int|
                        0 <= b < y ==> (#[trigger] block_v@[b]) as int == block_cell(x as int, b),
                decreases 9 - y,
            {
                let rr: usize = (x / 3) * 3 + y / 3;
                let cc: usize = (x % 3) * 3 + y % 3;
                block_v.push(rr * 9 + cc);
                y += 1;
            }
            blocks_t.push(block_v);
            x += 1;
        }

        let mut coords_t: Vec<(usize, usize)> = Vec::new();
        let mut i: usize = 0;
        while i < 81
            invariant
                i <= 81,
                coords_t@.len() == i as int,
                forall|a: int|
                    0 <= a < i ==> (#[trigger] coords_t@[a]).0 as int == row_of(a)
                        && coords_t@[a].1 as int == col_of(a),
            decreases 81 - i,
        {
            coords_t.push((i / 9, i % 9));
            i += 1;
        }

        let mut unsolved: Vec<usize> = Vec::new();
        let mut i: usize = 0;
        while i < 81
            invariant
                i <= 81,
                forall|j: int|
                    0 <= j < unsolved@.len() ==> (#[trigger] unsolved@[j]) < i
                        && board@[unsolved@[j] as int] == 0,
                forall|j1: int, j2: int|
                    0 <= j1 < j2 < unsolved@.len() ==> (#[trigger] unsolved@[j1])
                        < (#[trigger] unsolved@[j2]),
                forall|p: int|
                    0 <= p < i && #[trigger] board@[p] == 0 ==> exists|j: int|
                        0 <= j < unsolved@.len() && (#[trigger] unsolved@[j]) as int == p,
            decreases 81 - i,
        {
            let ghost u0 = unsolved@;
            if board[i] == 0 {
                unsolved.push(i);
            }
            proof {
                assert forall|p: int|
                    0 <= p <= i as int && #[trigger] board@[p] == 0 implies exists|j: int|
                    0 <= j < unsolved@.len() && (#[trigger] unsolved@[j]) as int == p by {
                    if p < i as int {
                        let j = choose|j: int| 0 <= j < u0.len() && (#[trigger] u0[j]) as int == p;
                        assert((unsolved@[j]) as int == p);
                    } else {
                        assert(unsolved@ == u0.push(i));
                        assert((unsolved@[u0.len() as int]) as int == p);
                    }
                };
            }
            i += 1;
        }

        let ghost gb = board@;
        let ghost gu = unsolved@;
        let s = Sudoku {
            board,
            unsolved_cells: unsolved,
            coords: coords_t,
            rows: rows_t,
            cols: cols_t,
            blocks: blocks_t,
        };
        proof {
            assert(s.grid() == gb);
            assert(s.unsolved() == gu);
            assert(s.wf_dims());
            assert forall|i: int|
                in_grid(i) && #[trigger] s.grid()[i] == 0 implies s.unsolved_contains(i) by {
                assert(gb[i] == 0);
                let j = choose|j: int| 0 <= j < gu.len() && (#[trigger] gu[j]) as int == i;
                assert(0 <= j < s.unsolved().len() && (s.unsolved()[j]) as int == i);
            };
            assert forall|i: int|
                in_grid(i) && s.unsolved_contains(i) implies #[trigger] s.grid()[i] == 0 by {
                let j = choose|j: int|
                    0 <= j < s.unsolved().len() && (#[trigger] s.unsolved()[j]) as int == i;
                assert(gb[gu[j] as int] == 0);
            };
        }

        let mut i: usize = 0;
        while i < 81
            invariant
                i <= 81,
                forall|p: int|
                    0 <= p < i && #[trigger] s.grid()[p] != 0 ==> valid_candidate(
                        s.grid(),
                        p,
                        s.grid()[p],
                    ),
            decreases 81 - i,
        {
            let rc = s.coords[i];
            let row: usize = rc.0;
            let col: usize = rc.1;
            proof {
                lemma_cell_decomp(i as int);
            }
            let v = s.get_cell(row, col);
            if v != 0 {
                if !s.is_valid_cell(row, col, v) {
                    proof {
                        assert(!valid_candidate(s.grid(), i as int, v));
                        let j = choose|j: int|
                            in_grid(j) && j != i as int && #[trigger] same_unit(j, i as int)
                                && s.grid()[j] == v;
                        assert(same_unit(i as int, j));
                        assert(!conflict_free(s.grid()));
                        assert(s.grid() =~= clue_grid(pairs@));
                    }
                    return Err(SudokuError::ConflictingClues);
                }
            }
            i += 1;
        }

        proof {
            assert forall|a: int, b: int|
                in_grid(a) && in_grid(b) && a != b && #[trigger] same_unit(a, b) && s.grid()[a]
                    != 0 implies s.grid()[b] != s.grid()[a] by {
                assert(valid_candidate(s.grid(), a, s.grid()[a]));
                assert(same_unit(b, a));
            };
            assert(conflict_free(s.grid()));
            assert(s.grid() =~= clue_grid(pairs@));
            assert forall|i: int|
                in_grid(i) && !s.unsolved_contains(i) implies digit_ok(
                #[trigger] s.grid()[i],
            ) by {
                if s.grid()[i] == 0 {
                    assert(exists|j: int|
                        0 <= j < s.unsolved().len() && (#[trigger] s.unsolved()[j]) as int == i);
                }
            };
        }
        Ok(s)
    }

    /// The digit at (`row`, `col`), 0 for an empty cell.
    pub fn get_cell(&self, row: usize, col: usize) -> (v: u32)
        requires
            self.wf_dims(),
            row < 9,
            col < 9,
        ensures
            v == self.grid()[cell_index(row as int, col as int)],
            v <= 9,
    {
        let idx: usize = row * 9 + col;
        self.board[idx]
    }

    /// Writes `value` at (`row`, `col`); 0 clears the cell.
    pub fn set_cell(&mut self, row: usize, col: usize, value: u32)
        requires
            old(self).wf_dims(),
            row < 9,
            col < 9,
            value <= 9,
        ensures
            final(self).wf_dims(),
            final(self).grid() == old(self).grid().update(
                cell_index(row as int, col as int),
                value,
            ),
            final(self).unsolved() == old(self).unsolved(),
    {
        let idx: usize = row * 9 + col;
        self.board.set(idx, value);
        proof {
            assert forall|i: int| 0 <= i < 81 implies #[trigger] self.board@[i] <= 9 by {
                if i != idx as int {
                    assert(self.board@[i] == old(self).board@[i]);
                }
            };
            assert(self.unsolved() == old(self).unsolved());
            assert forall|j: int|
                0 <= j < self.unsolved().len() implies (#[trigger] self.unsolved()[j]) < 81 by {
                assert(old(self).unsolved()[j] < 81);
            };
            assert forall|j1: int, j2: int|
                0 <= j1 < j2 < self.unsolved().len() implies (#[trigger] self.unsolved()[j1])
                < (#[trigger] self.unsolved()[j2]) by {
                assert(old(self).unsolved()[j1] < old(self).unsolved()[j2]);
            };
        }
    }

    /// True iff `value` clashes with no other cell of this cell's row, column
    /// or block (the cell itself is skipped during the comparison).
    pub fn is_valid_cell(&self, row: usize, col: usize, value: u32) -> (r: bool)
        requires
            self.wf_dims(),
            row < 9,
            col < 9,
        ensures
            r == valid_candidate(self.grid(), cell_index(row as int, col as int), value),
    {
        let idx: usize = row * 9 + col;
        let ghost i0 = idx as int;
        proof {
            lemma_cell_index_inverse(row as int, col as int);
        }

        let mut t: usize = 0;
        while t < 9
            invariant
                self.wf_dims(),
                row < 9,
                col < 9,
                t <= 9,
                idx == row * 9 + col,
                i0 == idx as int,
                forall|y: int|
                    0 <= y < t ==> cell_index(row as int, y) == i0 || self.grid()[#[trigger] cell_index(
                        row as int,
                        y,
                    )] != value,
            decreases 9 - t,
        {
            let p: usize = self.rows[row][t];
            proof {
                lemma_cell_index_inverse(row as int, t as int);
            }
            if p != idx {
                if self.board[p] == value {
                    proof {
                        assert(same_unit(p as int, i0));
                        assert(!valid_candidate(self.grid(), i0, value));
                    }
                    return false;
                }
            }
            t += 1;
        }

        let mut t: usize = 0;
        while t < 9
            invariant
                self.wf_dims(),
                row < 9,
                col < 9,
                t <= 9,
                idx == row * 9 + col,
                i0 == idx as int,
                forall|y: int|
                    0 <= y < t ==> cell_index(y, col as int) == i0 || self.grid()[#[trigger] cell_index(
                        y,
                        col as int,
                    )] != value,
                forall|y: int|
                    0 <= y < 9 ==> cell_index(row as int, y) == i0 || self.grid()[#[trigger] cell_index(
                        row as int,
                        y,
                    )] != value,
            decreases 9 - t,
        {
            let p: usize = self.cols[col][t];
            proof {
                lemma_cell_index_inverse(t as int, col as int);
            }
            if p != idx {
                if self.board[p] == value {
                    proof {
                        assert(same_unit(p as int, i0));
                        assert(!valid_candidate(self.grid(), i0, value));
                    }
                    return false;
                }
            }
            t += 1;
        }

        let block: usize = (row / 3) * 3 + col / 3;
        let mut t: usize = 0;
        while t < 9
            invariant
                self.wf_dims(),
                row < 9,
                col < 9,
                t <= 9,
                idx == row * 9 + col,
                i0 == idx as int,
                block as int == block_of(i0),
                block < 9,
                forall|y: int|
                    0 <= y < t ==> block_cell(block as int, y) == i0 || self.grid()[#[trigger] block_cell(
                        block as int,
                        y,
                    )] != value,
                forall|y: int|
                    0 <= y < 9 ==> cell_index(y, col as int) == i0 || self.grid()[#[trigger] cell_index(
                        y,
                        col as int,
                    )] != value,
                forall|y: int|
                    0 <= y < 9 ==> cell_index(row as int, y) == i0 || self.grid()[#[trigger] cell_index(
                        row as int,
                        y,
                    )] != value,
            decreases 9 - t,
        {
            let p: usize = self.blocks[block][t];
            proof {
                crate::grid::lemma_block_cell_inverse(block as int, t as int);
            }
            if p != idx {
                if self.board[p] == value {
                    proof {
                        assert(same_block(p as int, i0));
                        assert(same_unit(p as int, i0));
                        assert(!valid_candidate(self.grid(), i0, value));
                    }
                    return false;
                }
            }
            t += 1;
        }

        proof {
            assert forall|j: int|
                in_grid(j) && j != i0 && #[trigger] same_unit(j, i0) implies self.grid()[j]
                != value by {
                lemma_cell_decomp(j);
                if same_row(j, i0) {
                    assert(cell_index(row as int, col_of(j)) == j);
                } else if same_col(j, i0) {
                    assert(cell_index(row_of(j), col as int) == j);
                } else {
                    lemma_block_decomp(j);
                    assert(block_of(j) == block_of(i0));
                    assert(block_cell(block as int, block_slot(j)) == j);
                }
            };
        }
        true
    }

    /// The smallest digit strictly above the cell's current value that
    /// `is_valid_cell` accepts, or `None` when no digit 1..=9 above it fits.
    pub fn find_solution(&self, row: usize, col: usize) -> (r: Option<u32>)
        requires
            self.wf_dims(),
            row < 9,
            col < 9,
        ensures
            ({
                let i0 = cell_index(row as int, col as int);
                let cur = self.grid()[i0];
                match r {
                    Some(v) => cur < v <= 9 && valid_candidate(self.grid(), i0, v) && (forall|
                        w: u32,
                    |
                        cur < w < v ==> !valid_candidate(self.grid(), i0, w)),
                    None => forall|w: u32| cur < w <= 9 ==> !valid_candidate(self.grid(), i0, w),
                }
            }),
    {
        let cur = self.get_cell(row, col);
        let mut i: u32 = cur + 1;
        while i <= 9
            invariant
                self.wf_dims(),
                row < 9,
                col < 9,
                cur == self.grid()[cell_index(row as int, col as int)],
                cur < i <= 10,
                forall|w: u32|
                    cur < w < i ==> !valid_candidate(
                        self.grid(),
                        cell_index(row as int, col as int),
                        w,
                    ),
            decreases 10 - i,
        {
            if self.is_valid_cell(row, col, i) {
                return Some(i);
            }
            i += 1;
        }
        None
    }

    /// Runs the depth-first search. A grid that is already complete is
    /// handed back untouched. Otherwise, on `Solved` the grid is a complete
    /// valid assignment extending the given clues; on `Unsolvable` the search
    /// retreated past the first unsolved cell, the grid stands as it was, and
    /// no solution exists at all: a solvable puzzle always comes back
    /// `Solved`.
    pub fn solve(&mut self) -> (r: SolveOutcome)
        requires
            old(self).wf(),
            old(self).all_unsolved_blank() || all_filled(old(self).grid()),
        ensures
            final(self).wf(),
            final(self).unsolved() == old(self).unsolved(),
            forall|i: int|
                in_grid(i) && !old(self).unsolved_contains(i)
                    ==> (#[trigger] final(self).grid()[i]) == old(self).grid()[i],
            r == SolveOutcome::Solved ==> is_solution(final(self).grid(), old(self).grid()),
            r == SolveOutcome::Unsolvable ==> final(self).grid() == old(self).grid(),
            r == SolveOutcome::Unsolvable ==> forall|s: Seq<u32>|
                !(#[trigger] is_solution(s, old(self).grid())),
            (exists|s: Seq<u32>| #[trigger] is_solution(s, old(self).grid())) ==> r
                == SolveOutcome::Solved,
            all_filled(old(self).grid()) ==> r == SolveOutcome::Solved && final(self).grid()
                == old(self).grid(),
    {
        let n: usize = self.unsolved_cells.len();

        // a grid that is already complete is handed back untouched
        let mut filled: bool = true;
        let mut j: usize = 0;
        while j < n
            invariant
                j <= n,
                n == self.unsolved().len(),
                self.wf_dims(),
                self.grid() == old(self).grid(),
                self.unsolved() == old(self).unsolved(),
                old(self).wf(),
                filled ==> forall|i: int|
                    0 <= i < j ==> self.grid()[(#[trigger] self.unsolved()[i]) as int] != 0,
                !filled ==> !all_filled(self.grid()),
            decreases n - j,
        {
            let idx: usize = self.unsolved_cells[j];
            if self.board[idx] == 0 {
                filled = false;
                proof {
                    assert(!digit_ok(self.grid()[idx as int]));
                }
            }
            j += 1;
        }
        if filled {
            proof {
                assert forall|i: int| in_grid(i) implies digit_ok(#[trigger] self.grid()[i]) by {
                    if old(self).unsolved_contains(i) {
                        let jj = choose|jj: int|
                            0 <= jj < old(self).unsolved().len() && (#[trigger] old(
                                self,
                            ).unsolved()[jj]) as int == i;
                        assert(self.grid()[(self.unsolved()[jj]) as int] != 0);
                        assert(self.grid()[i] <= 9);
                    }
                };
                assert(all_filled(old(self).grid()));
            }
            return SolveOutcome::Solved;
        }
        proof {
            assert(!all_filled(old(self).grid()));
            assert(old(self).all_unsolved_blank());
            if n > 0 {
                assert forall|s: Seq<u32>|
                    #[trigger] is_solution(s, old(self).grid()) implies frontier_above(
                    self.grid(),
                    self.unsolved(),
                    s,
                    0,
                ) by {
                    let p = self.unsolved()[0];
                    assert(digit_ok(s[p as int]));
                    assert(self.grid()[p as int] == 0);
                    assert(prefix_matches(self.grid(), self.unsolved(), s, 0));
                };
            }
        }
        let mut k: usize = 0;
        while k < n
            invariant
                self.wf_dims(),
                conflict_free(self.grid()),
                self.unsolved() == old(self).unsolved(),
                old(self).wf(),
                old(self).all_unsolved_blank(),
                old(self).grid().len() == 81,
                n == self.unsolved().len(),
                k <= n,
                forall|i: int|
                    in_grid(i) && !old(self).unsolved_contains(i) ==> (#[trigger] self.grid()[i])
                        == old(self).grid()[i],
                forall|j: int|
                    0 <= j < k ==> digit_ok(self.grid()[(#[trigger] self.unsolved()[j]) as int]),
                forall|j: int|
                    k < j < n ==> self.grid()[(#[trigger] self.unsolved()[j]) as int] == 0,
                k < n ==> forall|s: Seq<u32>|
                    #[trigger] is_solution(s, old(self).grid()) ==> frontier_above(
                        self.grid(),
                        self.unsolved(),
                        s,
                        k as int,
                    ),
            decreases mu(self.grid(), self.unsolved(), k as int), n - k,
        {
            let ghost b0 = self.grid();
            let ghost k0 = k as int;
            let ghost u = self.unsolved();
            let idx: usize = self.unsolved_cells[k];
            let rc = self.coords[idx];
            let row: usize = rc.0;
            let col: usize = rc.1;
            proof {
                lemma_cell_decomp(idx as int);
                assert(cell_index(row as int, col as int) == idx as int);
                assert((self.unsolved()[k0]) as int == idx as int);
                assert(self.unsolved_contains(idx as int));
                assert(old(self).unsolved_contains(idx as int));
            }
            match self.find_solution(row, col) {
                Some(v) => {
                    self.set_cell(row, col, v);
                    k = k + 1;
                    proof {
                        lemma_write_keeps_conflict_free(b0, idx as int, v);
                        assert forall|j: int|
                            0 <= j < n && j != k0 implies self.unsolved()[j] != self.unsolved()[k0] by {
                            if j < k0 {
                                assert(self.unsolved()[j] < self.unsolved()[k0]);
                            } else {
                                assert(self.unsolved()[k0] < self.unsolved()[j]);
                            }
                        };
                        lemma_mu_forward(b0, self.unsolved(), k0, v);
                        if k0 + 1 < n {
                            assert forall|s: Seq<u32>|
                                #[trigger] is_solution(s, old(self).grid()) implies frontier_above(
                                self.grid(),
                                u,
                                s,
                                k0 + 1,
                            ) by {
                                let j = choose|j: int|
                                    0 <= j <= k0 && #[trigger] prefix_matches(b0, u, s, j)
                                        && s[u[j] as int] > b0[u[j] as int];
                                if j < k0 {
                                    assert(prefix_matches(self.grid(), u, s, j));
                                    assert(s[u[j] as int] > self.grid()[u[j] as int]);
                                } else {
                                    assert forall|p: int|
                                        in_grid(p) && p != idx as int && #[trigger] b0[p]
                                            != 0 implies s[p] == b0[p] by {
                                        if old(self).unsolved_contains(p) {
                                            let jj = choose|jj: int|
                                                0 <= jj < n && (#[trigger] old(
                                                    self,
                                                ).unsolved()[jj]) as int == p;
                                            if jj < k0 {
                                                assert(s[u[jj] as int] == b0[u[jj] as int]);
                                            } else {
                                                assert(b0[u[jj] as int] == 0);
                                            }
                                        } else {
                                            assert(b0[p] == old(self).grid()[p]);
                                            assert(s[p] == old(self).grid()[p]);
                                        }
                                    };
                                    lemma_solution_candidate(b0, s, idx as int);
                                    assert(digit_ok(s[idx as int]));
                                    if s[idx as int] < v {
                                        assert(!valid_candidate(b0, idx as int, s[idx as int]));
                                        assert(false);
                                    }
                                    if s[idx as int] == v {
                                        assert(prefix_matches(self.grid(), u, s, k0 + 1)) by {
                                            assert forall|i: int|
                                                0 <= i < k0 + 1 implies s[(#[trigger] u[i]) as int]
                                                == self.grid()[u[i] as int] by {
                                                if i < k0 {
                                                    assert(u[i] != u[k0]);
                                                }
                                            };
                                        };
                                        assert(b0[u[k0 + 1] as int] == 0);
                                        assert(u[k0 + 1] != u[k0]);
                                        assert(self.grid()[u[k0 + 1] as int] == 0);
                                        assert(digit_ok(s[u[k0 + 1] as int]));
                                        assert(s[u[k0 + 1] as int] > self.grid()[u[k0
                                            + 1] as int]);
                                    } else {
                                        assert(prefix_matches(self.grid(), u, s, k0)) by {
                                            assert forall|i: int|
                                                0 <= i < k0 implies s[(#[trigger] u[i]) as int]
                                                == self.grid()[u[i] as int] by {
                                                assert(u[i] != u[k0]);
                                            };
                                        };
                                        assert(s[u[k0] as int] > self.grid()[u[k0] as int]);
                                    }
                                }
                            };
                        }
                    }
                }
                None => {
                    self.set_cell(row, col, 0);
                    proof {
                        lemma_write_keeps_conflict_free(b0, idx as int, 0);
                        assert forall|j: int|
                            0 <= j < n && j != k0 implies self.unsolved()[j] != self.unsolved()[k0] by {
                            if j < k0 {
                                assert(self.unsolved()[j] < self.unsolved()[k0]);
                            } else {
                                assert(self.unsolved()[k0] < self.unsolved()[j]);
                            }
                        };
                        lemma_mu_backward(b0, self.unsolved(), k0);
                        assert forall|s: Seq<u32>|
                            #[trigger] is_solution(s, old(self).grid()) implies (k0 >= 1
                            && frontier_above(self.grid(), u, s, k0 - 1)) by {
                            let j = choose|j: int|
                                0 <= j <= k0 && #[trigger] prefix_matches(b0, u, s, j)
                                    && s[u[j] as int] > b0[u[j] as int];
                            if j == k0 {
                                assert forall|p: int|
                                    in_grid(p) && p != idx as int && #[trigger] b0[p]
                                        != 0 implies s[p] == b0[p] by {
                                    if old(self).unsolved_contains(p) {
                                        let jj = choose|jj: int|
                                            0 <= jj < n && (#[trigger] old(
                                                self,
                                            ).unsolved()[jj]) as int == p;
                                        if jj < k0 {
                                            assert(s[u[jj] as int] == b0[u[jj] as int]);
                                        } else {
                                            assert(b0[u[jj] as int] == 0);
                                        }
                                    } else {
                                        assert(b0[p] == old(self).grid()[p]);
                                        assert(s[p] == old(self).grid()[p]);
                                    }
                                };
                                lemma_solution_candidate(b0, s, idx as int);
                                assert(digit_ok(s[idx as int]));
                                assert(!valid_candidate(b0, idx as int, s[idx as int]));
                                assert(false);
                            } else {
                                assert(prefix_matches(self.grid(), u, s, j)) by {
                                    assert forall|i: int|
                                        0 <= i < j implies s[(#[trigger] u[i]) as int]
                                        == self.grid()[u[i] as int] by {
                                        assert(u[i] != u[k0]);
                                    };
                                };
                                assert(u[j] != u[k0]);
                                assert(s[u[j] as int] > self.grid()[u[j] as int]);
                            }
                        };
                    }
                    if k == 0 {
                        proof {
                            assert forall|i: int| 0 <= i < 81 implies self.grid()[i] == old(
                                self,
                            ).grid()[i] by {
                                if old(self).unsolved_contains(i) {
                                    let j = choose|j: int|
                                        0 <= j < old(self).unsolved().len() && (#[trigger] old(
                                            self,
                                        ).unsolved()[j]) as int == i;
                                    assert(old(self).grid()[(old(self).unsolved()[j]) as int]
                                        == 0);
                                    if j == k0 {
                                        assert(self.grid()[i] == 0);
                                    } else {
                                        assert(self.unsolved()[j] != self.unsolved()[k0]);
                                        assert(b0[(self.unsolved()[j]) as int] == 0);
                                        assert(self.grid()[i] == 0);
                                    }
                                } else {
                                    assert(self.grid()[i] == old(self).grid()[i]);
                                }
                            };
                            assert(self.grid() =~= old(self).grid());
                            assert forall|s: Seq<u32>|
                                !(#[trigger] is_solution(s, old(self).grid())) by {
                                if is_solution(s, old(self).grid()) {
                                    assert(k0 >= 1);
                                }
                            };
                        }
                        return SolveOutcome::Unsolvable;
                    }
                    k = k - 1;
                }
            }
        }
        proof {
            assert forall|i: int| in_grid(i) implies digit_ok(#[trigger] self.grid()[i]) by {
                if old(self).unsolved_contains(i) {
                    let j = choose|j: int|
                        0 <= j < old(self).unsolved().len() && (#[trigger] old(
                            self,
                        ).unsolved()[j]) as int == i;
                    assert(digit_ok(self.grid()[(self.unsolved()[j]) as int]));
                }
            };
            assert forall|i: int|
                in_grid(i) && #[trigger] old(self).grid()[i] != 0 implies self.grid()[i] == old(
                self,
            ).grid()[i] by {
                if old(self).unsolved_contains(i) {
                    let j = choose|j: int|
                        0 <= j < old(self).unsolved().len() && (#[trigger] old(
                            self,
                        ).unsolved()[j]) as int == i;
                    assert(old(self).grid()[(old(self).unsolved()[j]) as int] == 0);
                }
            };
            if all_filled(old(self).grid()) {
                if n > 0 {
                    assert(old(self).grid()[(old(self).unsolved()[0]) as int] == 0);
                    assert(digit_ok(old(self).grid()[(old(self).unsolved()[0]) as int]));
                }
                assert forall|i: int| 0 <= i < 81 implies self.grid()[i] == old(
                    self,
                ).grid()[i] by {
                    if old(self).unsolved_contains(i) {
                        let j = choose|j: int|
                            0 <= j < old(self).unsolved().len() && (#[trigger] old(
                                self,
                            ).unsolved()[j]) as int == i;
                    }
                };
                assert(self.grid() =~= old(self).grid());
            }
        }
        SolveOutcome::Solved
    }
}

} // verus!
