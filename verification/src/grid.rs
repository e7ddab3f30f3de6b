//! The mathematical model shared by both solving engines: a 9x9 grid as a
//! sequence of 81 digits (0 marks an empty cell), the row/column/block
//! structure over flat cell indices, and the notion of a solved grid.

use vstd::prelude::*;
use vstd::arithmetic::div_mod::lemma_fundamental_div_mod;
use vstd::arithmetic::div_mod::lemma_fundamental_div_mod_converse;
use vstd::set_lib::lemma_len_subset;

verus! {

/// Flat index of the cell in row `r`, column `c`.
pub open spec fn cell_index(r: int, c: int) -> int {
    r * 9 + c
}

pub open spec fn in_grid(i: int) -> bool {
    0 <= i < 81
}

/// Row of a flat cell index.
pub open spec fn row_of(i: int) -> int {
    i / 9
}

/// Column of a flat cell index.
pub open spec fn col_of(i: int) -> int {
    i % 9
}

/// A digit that may stand in a solved cell.
pub open spec fn digit_ok(v: u32) -> bool {
    1 <= v <= 9
}

pub open spec fn same_row(i: int, j: int) -> bool {
    row_of(i) == row_of(j)
}

pub open spec fn same_col(i: int, j: int) -> bool {
    col_of(i) == col_of(j)
}

pub open spec fn same_block(i: int, j: int) -> bool {
    row_of(i) / 3 == row_of(j) / 3 && col_of(i) / 3 == col_of(j) / 3
}

/// Two cells constrain each other when they share a row, a column or a block.
pub open spec fn same_unit(i: int, j: int) -> bool {
    same_row(i, j) || same_col(i, j) || same_block(i, j)
}

/// No two distinct cells of a common unit hold the same digit.
/// Empty cells (0) never conflict.
pub open spec fn conflict_free(s: Seq<u32>) -> bool {
    forall|i: int, j: int|
        in_grid(i) && in_grid(j) && i != j && #[trigger] same_unit(i, j) && s[i] != 0 ==> s[j]
            != s[i]
}

/// Every cell holds a digit 1..=9.
pub open spec fn all_filled(s: Seq<u32>) -> bool {
    forall|i: int| in_grid(i) ==> digit_ok(#[trigger] s[i])
}

/// A complete, valid assignment of the 81 cells.
pub open spec fn solved_grid(s: Seq<u32>) -> bool {
    s.len() == 81 && all_filled(s) && conflict_free(s)
}

/// `s` keeps every clue of `g` (the non-zero cells of `g`).
pub open spec fn extends_clues(s: Seq<u32>, g: Seq<u32>) -> bool {
    forall|i: int| in_grid(i) && #[trigger] g[i] != 0 ==> s[i] == g[i]
}

/// `s` is a solution of the puzzle whose givens are the non-zero cells of `g`.
pub open spec fn is_solution(s: Seq<u32>, g: Seq<u32>) -> bool {
    solved_grid(s) && extends_clues(s, g)
}

/// Block index of a flat cell index.
pub open spec fn block_of(i: int) -> int {
    (row_of(i) / 3) * 3 + col_of(i) / 3
}

/// Position of a cell within its block.
pub open spec fn block_slot(i: int) -> int {
    (row_of(i) % 3) * 3 + col_of(i) % 3
}

/// Flat index of the `t`-th cell (row-major) of block `b`.
pub open spec fn block_cell(b: int, t: int) -> int {
    cell_index((b / 3) * 3 + t / 3, (b % 3) * 3 + t % 3)
}

/// The nine cells of row `r`, as flat indices.
pub open spec fn row_cells(r: int) -> Seq<int> {
    Seq::new(9, |t: int| cell_index(r, t))
}

/// The nine cells of column `c`, as flat indices.
pub open spec fn col_cells(c: int) -> Seq<int> {
    Seq::new(9, |t: int| cell_index(t, c))
}

/// The nine cells of block `b`, as flat indices.
pub open spec fn block_cells(b: int) -> Seq<int> {
    Seq::new(9, |t: int| block_cell(b, t))
}

/// Digit `d` stands in exactly one of the given cells of `s`.
pub open spec fn appears_exactly_once(s: Seq<u32>, cells: Seq<int>, d: u32) -> bool {
    (exists|t: int| 0 <= t < cells.len() && #[trigger] s[cells[t]] == d) && (forall|
        t1: int,
        t2: int,
    |
        0 <= t1 < cells.len() && 0 <= t2 < cells.len() && #[trigger] s[cells[t1]] == d
            && #[trigger] s[cells[t2]] == d ==> t1 == t2)
}

/// A cell of a row decomposes back into that row and its column.
pub proof fn lemma_cell_index_inverse(r: int, c: int)
    requires
        0 <= r < 9,
        0 <= c < 9,
    ensures
        row_of(cell_index(r, c)) == r,
        col_of(cell_index(r, c)) == c,
        in_grid(cell_index(r, c)),
{
    lemma_fundamental_div_mod_converse(r * 9 + c, 9, r, c);
}

/// Every grid cell is the cell of its own row and column.
pub proof fn lemma_cell_decomp(i: int)
    requires
        in_grid(i),
    ensures
        cell_index(row_of(i), col_of(i)) == i,
        0 <= row_of(i) < 9,
        0 <= col_of(i) < 9,
{
    lemma_fundamental_div_mod(i, 9);
    lemma_fundamental_div_mod_converse(i, 9, i / 9, i - 9 * (i / 9));
}

/// Dividing a two-digit base-3 decomposition recovers its parts.
pub proof fn lemma_base3(q: int, s: int)
    requires
        0 <= s < 3,
    ensures
        (q * 3 + s) / 3 == q,
        (q * 3 + s) % 3 == s,
{
    lemma_fundamental_div_mod_converse(q * 3 + s, 3, q, s);
}

/// A number below 9 splits into its base-3 digits.
pub proof fn lemma_div3_decomp(x: int)
    requires
        0 <= x < 9,
    ensures
        x == (x / 3) * 3 + x % 3,
        0 <= x % 3 < 3,
        0 <= x / 3 < 3,
{
    lemma_fundamental_div_mod(x, 3);
    lemma_base3(x / 3, x - 3 * (x / 3));
}

/// A cell of a block decomposes back into that block and its slot.
pub proof fn lemma_block_cell_inverse(b: int, t: int)
    requires
        0 <= b < 9,
        0 <= t < 9,
    ensures
        in_grid(block_cell(b, t)),
        row_of(block_cell(b, t)) == (b / 3) * 3 + t / 3,
        col_of(block_cell(b, t)) == (b % 3) * 3 + t % 3,
        block_of(block_cell(b, t)) == b,
        block_slot(block_cell(b, t)) == t,
{
    lemma_fundamental_div_mod(b, 3);
    lemma_fundamental_div_mod(t, 3);
    let r = (b / 3) * 3 + t / 3;
    let c = (b % 3) * 3 + t % 3;
    lemma_cell_index_inverse(r, c);
    lemma_base3(b / 3, t / 3);
    lemma_base3(b % 3, t % 3);
}

/// Every grid cell is the cell of its own block, at its own slot.
pub proof fn lemma_block_decomp(i: int)
    requires
        in_grid(i),
    ensures
        0 <= block_of(i) < 9,
        0 <= block_slot(i) < 9,
        block_cell(block_of(i), block_slot(i)) == i,
        same_block(i, block_cell(block_of(i), block_slot(i))),
{
    lemma_cell_decomp(i);
    let r = row_of(i);
    let c = col_of(i);
    lemma_fundamental_div_mod(r, 3);
    lemma_fundamental_div_mod(c, 3);
    lemma_base3(r / 3, c / 3);
    lemma_base3(r % 3, c % 3);
    lemma_block_cell_inverse(block_of(i), block_slot(i));
}

/// Nine pairwise distinct digits drawn from 1..=9 must cover all of 1..=9.
pub proof fn lemma_nine_distinct_digits(vals: Seq<u32>)
    requires
        vals.len() == 9,
        forall|t: int| 0 <= t < 9 ==> digit_ok(#[trigger] vals[t]),
        vals.no_duplicates(),
    ensures
        forall|d: u32| digit_ok(d) ==> vals.contains(d),
{
    broadcast use vstd::seq_lib::seq_to_set_is_finite;

    let digits: Seq<u32> = seq![1u32, 2u32, 3u32, 4u32, 5u32, 6u32, 7u32, 8u32, 9u32];
    assert(digits.no_duplicates());
    digits.unique_seq_to_set();
    vals.unique_seq_to_set();
    let dset = digits.to_set();
    let vset = vals.to_set();
    assert forall|d: u32| digit_ok(d) implies vals.contains(d) by {
        if !vals.contains(d) {
            assert(digits[d - 1] == d);
            assert(dset.contains(d));
            let smaller = dset.remove(d);
            assert(vset.subset_of(smaller)) by {
                assert forall|v: u32| vset.contains(v) implies smaller.contains(v) by {
                    assert(vals.contains(v));
                    let t = choose|t: int| 0 <= t < 9 && vals[t] == v;
                    assert(digit_ok(v));
                    assert(digits[v - 1] == v);
                    assert(digits.contains(v));
                };
            };
            lemma_len_subset(vset, smaller);
            assert(smaller.len() == 8);
            assert(vset.len() == 9);
        }
    };
}

/// In a solved grid, every row, column and block holds each digit 1..=9
/// exactly once.
pub proof fn lemma_solved_grid_units(s: Seq<u32>)
    requires
        solved_grid(s),
    ensures
        forall|u: int, d: u32|
            0 <= u < 9 && digit_ok(d) ==> #[trigger] appears_exactly_once(s, row_cells(u), d),
        forall|u: int, d: u32|
            0 <= u < 9 && digit_ok(d) ==> #[trigger] appears_exactly_once(s, col_cells(u), d),
        forall|u: int, d: u32|
            0 <= u < 9 && digit_ok(d) ==> #[trigger] appears_exactly_once(s, block_cells(u), d),
{
    assert forall|u: int, d: u32|
        0 <= u < 9 && digit_ok(d) implies #[trigger] appears_exactly_once(
        s,
        row_cells(u),
        d,
    ) by {
        lemma_row_cells_ok(u);
        lemma_unit_exactly_once(s, row_cells(u), d);
    };
    assert forall|u: int, d: u32|
        0 <= u < 9 && digit_ok(d) implies #[trigger] appears_exactly_once(
        s,
        col_cells(u),
        d,
    ) by {
        lemma_col_cells_ok(u);
        lemma_unit_exactly_once(s, col_cells(u), d);
    };
    assert forall|u: int, d: u32|
        0 <= u < 9 && digit_ok(d) implies #[trigger] appears_exactly_once(
        s,
        block_cells(u),
        d,
    ) by {
        lemma_block_cells_ok(u);
        lemma_unit_exactly_once(s, block_cells(u), d);
    };
}

/// The nine cells of one row, column or block are pairwise distinct members
/// of a common unit.
pub open spec fn unit_cells_ok(cells: Seq<int>) -> bool {
    cells.len() == 9 && (forall|t: int| 0 <= t < 9 ==> in_grid(#[trigger] cells[t])) && (forall|
        t1: int,
        t2: int,
    |
        0 <= t1 < 9 && 0 <= t2 < 9 && t1 != t2 ==> #[trigger] cells[t1] != #[trigger] cells[t2])
        && (forall|t1: int, t2: int|
        0 <= t1 < 9 && 0 <= t2 < 9 ==> #[trigger] same_unit(cells[t1], cells[t2]))
}

/// Rows are units in the sense of `unit_cells_ok`.
pub proof fn lemma_row_cells_ok(u: int)
    requires
        0 <= u < 9,
    ensures
        unit_cells_ok(row_cells(u)),
{
    let cells = row_cells(u);
    assert forall|t: int| 0 <= t < 9 implies in_grid(#[trigger] cells[t]) by {
        lemma_cell_index_inverse(u, t);
    };
    assert forall|t1: int, t2: int| 0 <= t1 < 9 && 0 <= t2 < 9 implies #[trigger] same_unit(
        cells[t1],
        cells[t2],
    ) by {
        lemma_cell_index_inverse(u, t1);
        lemma_cell_index_inverse(u, t2);
    };
    assert forall|t1: int, t2: int|
        0 <= t1 < 9 && 0 <= t2 < 9 && t1 != t2 implies #[trigger] cells[t1]
        != #[trigger] cells[t2] by {
        lemma_cell_index_inverse(u, t1);
        lemma_cell_index_inverse(u, t2);
    };
}

/// Columns are units in the sense of `unit_cells_ok`.
pub proof fn lemma_col_cells_ok(u: int)
    requires
        0 <= u < 9,
    ensures
        unit_cells_ok(col_cells(u)),
{
    let cells = col_cells(u);
    assert forall|t: int| 0 <= t < 9 implies in_grid(#[trigger] cells[t]) by {
        lemma_cell_index_inverse(t, u);
    };
    assert forall|t1: int, t2: int| 0 <= t1 < 9 && 0 <= t2 < 9 implies #[trigger] same_unit(
        cells[t1],
        cells[t2],
    ) by {
        lemma_cell_index_inverse(t1, u);
        lemma_cell_index_inverse(t2, u);
    };
    assert forall|t1: int, t2: int|
        0 <= t1 < 9 && 0 <= t2 < 9 && t1 != t2 implies #[trigger] cells[t1]
        != #[trigger] cells[t2] by {
        lemma_cell_index_inverse(t1, u);
        lemma_cell_index_inverse(t2, u);
    };
}

/// Blocks are units in the sense of `unit_cells_ok`.
pub proof fn lemma_block_cells_ok(u: int)
    requires
        0 <= u < 9,
    ensures
        unit_cells_ok(block_cells(u)),
{
    let cells = block_cells(u);
    assert forall|t: int| 0 <= t < 9 implies in_grid(#[trigger] cells[t]) by {
        lemma_block_cell_inverse(u, t);
    };
    assert forall|t1: int, t2: int| 0 <= t1 < 9 && 0 <= t2 < 9 implies #[trigger] same_unit(
        cells[t1],
        cells[t2],
    ) by {
        lemma_block_cell_inverse(u, t1);
        lemma_block_cell_inverse(u, t2);
    };
    assert forall|t1: int, t2: int|
        0 <= t1 < 9 && 0 <= t2 < 9 && t1 != t2 implies #[trigger] cells[t1]
        != #[trigger] cells[t2] by {
        lemma_block_cell_inverse(u, t1);
        lemma_block_cell_inverse(u, t2);
    };
}

/// In a solved grid, a unit holds each digit 1..=9 exactly once.
pub proof fn lemma_unit_exactly_once(s: Seq<u32>, cells: Seq<int>, d: u32)
    requires
        solved_grid(s),
        unit_cells_ok(cells),
        digit_ok(d),
    ensures
        appears_exactly_once(s, cells, d),
{
    let vals = Seq::new(9, |t: int| s[cells[t]]);
    assert forall|t: int| 0 <= t < 9 implies digit_ok(#[trigger] vals[t]) by {
        assert(in_grid(cells[t]));
    };
    assert(vals.no_duplicates()) by {
        assert forall|t1: int, t2: int|
            0 <= t1 < vals.len() && 0 <= t2 < vals.len() && t1 != t2 implies vals[t1]
            != vals[t2] by {
            assert(same_unit(cells[t1], cells[t2]));
            assert(s[cells[t1]] != 0);
        };
    };
    lemma_nine_distinct_digits(vals);
    assert(vals.contains(d));
    let t = choose|t: int| 0 <= t < 9 && vals[t] == d;
    assert(s[cells[t]] == d);
    assert forall|t1: int, t2: int|
        0 <= t1 < cells.len() && 0 <= t2 < cells.len() && #[trigger] s[cells[t1]] == d
            && #[trigger] s[cells[t2]] == d implies t1 == t2 by {
        if t1 != t2 {
            assert(vals[t1] == d && vals[t2] == d);
        }
    };
}

/// Shift of a cyclic demonstration grid's row: rows of one band step by
/// three, bands step by one.
pub open spec fn row_shift(r: int) -> int {
    (r % 3) * 3 + r / 3
}

/// A concrete complete valid grid: each row holds 1..=9 rotated by its
/// row's shift.
pub open spec fn cyclic_value(i: int) -> u32 {
    let t = row_shift(row_of(i)) + col_of(i);
    (if t < 9 {
        t + 1
    } else {
        t - 8
    }) as u32
}

/// The puzzle with no clues: 81 empty cells.
pub open spec fn blank_grid() -> Seq<u32> {
    Seq::new(81, |i: int| 0u32)
}

/// The grid of `cyclic_value` is a complete valid assignment, so the fully
/// empty puzzle has a solution (and, the solver being complete, is solved).
pub proof fn lemma_empty_puzzle_has_solution()
    ensures
        solved_grid(Seq::new(81, |i: int| cyclic_value(i))),
        exists|s: Seq<u32>| #[trigger] is_solution(s, blank_grid()),
{
    let s = Seq::new(81, |i: int| cyclic_value(i));
    assert forall|i: int| in_grid(i) implies digit_ok(#[trigger] s[i]) by {
        lemma_cell_decomp(i);
        lemma_div3_decomp(row_of(i));
    };
    assert forall|i: int, j: int|
        in_grid(i) && in_grid(j) && i != j && #[trigger] same_unit(i, j) && s[i]
            != 0 implies s[j] != s[i] by {
        lemma_cell_decomp(i);
        lemma_cell_decomp(j);
        let ri = row_of(i);
        let ci = col_of(i);
        let rj = row_of(j);
        let cj = col_of(j);
        lemma_div3_decomp(ri);
        lemma_div3_decomp(rj);
        lemma_div3_decomp(ci);
        lemma_div3_decomp(cj);
        let ti = row_shift(ri) + ci;
        let tj = row_shift(rj) + cj;
        assert(0 <= ti <= 16);
        assert(0 <= tj <= 16);
        if s[i] == s[j] {
            assert(ti == tj || ti == tj + 9 || tj == ti + 9);
            if same_row(i, j) {
                assert(ci != cj);
                assert(ti - tj == ci - cj);
                assert(false);
            } else if same_col(i, j) {
                assert(ri != rj);
                assert(ti - tj == 3 * (ri % 3 - rj % 3) + (ri / 3 - rj / 3));
                assert(ri % 3 != rj % 3 || ri / 3 != rj / 3);
                assert(false);
            } else {
                assert(ri / 3 == rj / 3 && ci / 3 == cj / 3);
                assert(ti - tj == 3 * (ri % 3 - rj % 3) + (ci % 3 - cj % 3));
                assert(ri % 3 != rj % 3 || ci % 3 != cj % 3);
                assert(false);
            }
        }
    };
    assert(is_solution(s, blank_grid()));
}

/// When a puzzle has exactly one solution, any solution the solver returns is
/// that one.
pub proof fn lemma_unique_solution(out: Seq<u32>, uniq: Seq<u32>, clues: Seq<u32>)
    requires
        is_solution(out, clues),
        forall|s: Seq<u32>| #[trigger] is_solution(s, clues) ==> s == uniq,
    ensures
        out == uniq,
{
}

} // verus!
