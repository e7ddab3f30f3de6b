//! Constraint propagation over per-cell candidate domains, driven by a FIFO
//! queue of cells whose domain has collapsed to a single digit.
//!
//! Every cell carries the set of digits that could still legally occupy it.
//! Each given clue starts with a singleton domain and is queued; processing a
//! queued cell removes its digit from the domains of the 20 cells that share
//! its row, column or block, queueing any peer whose domain collapses to a
//! single digit in turn. Domains only ever shrink. The engine performs no
//! search: puzzles needing more than this "naked singles" reasoning are left
//! partially reduced, which is a documented limitation rather than an error.

use std::collections::VecDeque;
use vstd::prelude::*;
use crate::grid::cell_index;
use crate::grid::col_of;
use crate::grid::in_grid;
use crate::grid::lemma_base3;
use crate::grid::lemma_cell_decomp;
use crate::grid::lemma_cell_index_inverse;
use crate::grid::lemma_div3_decomp;
use crate::grid::row_of;
use crate::grid::same_unit;
use crate::grid::solved_grid;

verus! {

/// Number of candidates among the first `n` slots of a candidate vector.
pub open spec fn count_true(s: Seq<bool>, n: int) -> nat
    decreases n,
{
    if n <= 0 {
        0
    } else {
        count_true(s, n - 1) + if s[n - 1] {
            1nat
        } else {
            0nat
        }
    }
}

proof fn lemma_count_update_false(s: Seq<bool>, v: int, n: int)
    requires
        0 <= v < s.len(),
        n <= s.len(),
    ensures
        count_true(s, n) == count_true(s.update(v, false), n) + if s[v] && v < n {
            1nat
        } else {
            0nat
        },
    decreases n,
{
    if n > 0 {
        lemma_count_update_false(s, v, n - 1);
    }
}

proof fn lemma_count_ge_one(s: Seq<bool>, i: int, n: int)
    requires
        0 <= i < n,
        s[i],
    ensures
        count_true(s, n) >= 1,
    decreases n,
{
    if i < n - 1 {
        lemma_count_ge_one(s, i, n - 1);
    }
}

proof fn lemma_count_ge_two(s: Seq<bool>, i: int, j: int, n: int)
    requires
        0 <= i < j < n,
        s[i],
        s[j],
    ensures
        count_true(s, n) >= 2,
    decreases n,
{
    if j == n - 1 {
        lemma_count_ge_one(s, i, n - 1);
    } else {
        lemma_count_ge_two(s, i, j, n - 1);
    }
}

proof fn lemma_count_none(s: Seq<bool>, n: int)
    requires
        forall|w: int| 0 <= w < n ==> !(#[trigger] s[w]),
    ensures
        count_true(s, n) == 0,
    decreases n,
{
    if n > 0 {
        lemma_count_none(s, n - 1);
    }
}

proof fn lemma_count_pointwise_le(s1: Seq<bool>, s2: Seq<bool>, n: int)
    requires
        forall|w: int| 0 <= w < n && #[trigger] s1[w] ==> s2[w],
    ensures
        count_true(s1, n) <= count_true(s2, n),
    decreases n,
{
    if n > 0 {
        lemma_count_pointwise_le(s1, s2, n - 1);
    }
}

proof fn lemma_count_eq_pointwise(s1: Seq<bool>, s2: Seq<bool>, n: int)
    requires
        forall|w: int| 0 <= w < n ==> #[trigger] s1[w] == s2[w],
    ensures
        count_true(s1, n) == count_true(s2, n),
    decreases n,
{
    if n > 0 {
        lemma_count_eq_pointwise(s1, s2, n - 1);
    }
}

/// An unsolved cell: the set of digits it could still hold.
pub struct Cell {
    possibilities: Vec<bool>,
}

impl Cell {
    /// Ten slots (index 0 unused and always empty), one per digit 1..=9.
    pub closed spec fn wf(self) -> bool {
        self.possibilities@.len() == 10 && !self.possibilities@[0]
    }

    /// Digit `v` is still a candidate for this cell.
    pub closed spec fn admits(self, v: int) -> bool {
        0 <= v < 10 && self.possibilities@[v]
    }

    /// How many digits are still candidates.
    pub closed spec fn domain_size(self) -> nat {
        count_true(self.possibilities@, 10)
    }

    /// A cell holding `v`, or an empty cell (all of 1..=9) when `v` is 0.
    pub fn new(v: u32) -> (c: Cell)
        requires
            v <= 9,
        ensures
            c.wf(),
            forall|w: int|
                #[trigger] c.admits(w) <==> (if v == 0 {
                    1 <= w <= 9
                } else {
                    w == v as int
                }),
            c.domain_size() == if v == 0 {
                9nat
            } else {
                1nat
            },
    {
        let mut poss: Vec<bool> = Vec::new();
        let mut d: u32 = 0;
        while d < 10
            invariant
                d <= 10,
                v <= 9,
                poss@.len() == d as int,
                forall|w: int|
                    0 <= w < d ==> #[trigger] poss@[w] == (if v == 0 {
                        1 <= w <= 9
                    } else {
                        w == v as int
                    }),
            decreases 10 - d,
        {
            if v == 0 {
                poss.push(d >= 1);
            } else {
                poss.push(d == v);
            }
            d += 1;
        }
        let c = Cell { possibilities: poss };
        proof {
            reveal_with_fuel(count_true, 11);
        }
        c
    }

    /// How many digits are still candidates.
    pub fn count_candidates(&self) -> (n: u32)
        requires
            self.wf(),
        ensures
            n == self.domain_size(),
    {
        let mut n: u32 = 0;
        let mut d: usize = 0;
        while d < 10
            invariant
                self.wf(),
                d <= 10,
                n <= d,
                n as nat == count_true(self.possibilities@, d as int),
            decreases 10 - d,
        {
            if self.possibilities[d] {
                n += 1;
            }
            d += 1;
        }
        n
    }

    /// The cell is pinned to a single digit.
    pub fn is_solved(&self) -> (b: bool)
        requires
            self.wf(),
        ensures
            b == (self.domain_size() == 1),
    {
        self.count_candidates() == 1
    }

    /// The cell's digit once its domain is a singleton; 0 while it is not.
    pub fn resolve(&self) -> (r: u32)
        requires
            self.wf(),
        ensures
            self.domain_size() == 1 ==> 1 <= r <= 9 && self.admits(r as int) && (forall|w: int|
                #[trigger] self.admits(w) ==> w == r as int),
            self.domain_size() != 1 ==> r == 0,
    {
        let cnt = self.count_candidates();
        if cnt != 1 {
            return 0;
        }
        let mut d: usize = 1;
        while d < 10
            invariant
                self.wf(),
                self.domain_size() == 1,
                1 <= d <= 10,
                forall|w: int| 0 <= w < d ==> !(#[trigger] self.possibilities@[w]),
            decreases 10 - d,
        {
            if self.possibilities[d] {
                proof {
                    assert forall|w: int| #[trigger] self.admits(w) implies w == d as int by {
                        if w < d as int {
                        } else if w > d as int {
                            lemma_count_ge_two(self.possibilities@, d as int, w, 10);
                        }
                    };
                }
                return d as u32;
            }
            d += 1;
        }
        proof {
            lemma_count_none(self.possibilities@, 10);
        }
        0
    }

    /// Strikes digit `v` from the candidates; a digit already absent stays
    /// absent and nothing else changes.
    pub fn remove_possibility(&mut self, v: u32)
        requires
            old(self).wf(),
            v <= 9,
        ensures
            final(self).wf(),
            forall|w: int|
                #[trigger] final(self).admits(w) <==> (old(self).admits(w) && w != v as int),
            final(self).domain_size() + (if old(self).admits(v as int) {
                1nat
            } else {
                0nat
            }) == old(self).domain_size(),
    {
        self.possibilities.set(v as usize, false);
        proof {
            lemma_count_update_false(old(self).possibilities@, v as int, 10);
        }
    }

    /// Whether digit `v` is still a candidate.
    pub fn has_candidate(&self, v: u32) -> (b: bool)
        requires
            self.wf(),
            v <= 9,
        ensures
            b == self.admits(v as int),
    {
        self.possibilities[v as usize]
    }
}

/// A cell whose digit is known, waiting in the propagation queue.
#[derive(Clone, Copy, PartialEq, Eq, Structural, Debug)]
pub struct SolvedCell {
    pub x: u32,
    pub y: u32,
    pub value: u32,
}

/// A queue entry names a cell of the board and a digit 1..=9.
pub open spec fn entry_ok(e: SolvedCell) -> bool {
    e.x < 9 && e.y < 9 && 1 <= e.value <= 9
}

pub open spec fn in_board(x: int, y: int) -> bool {
    0 <= x < 9 && 0 <= y < 9
}

/// Cell (`cx`, `cy`) shares a row, column or block with (`sx`, `sy`); a cell
/// is a peer of itself here, as in the elimination loops.
pub open spec fn peer_of(cx: int, cy: int, sx: int, sy: int) -> bool {
    cx == sx || cy == sy || (cx / 3 == sx / 3 && cy / 3 == sy / 3)
}

/// Why a 9x9 clue grid was rejected at construction.
#[derive(Clone, Copy, PartialEq, Eq, Structural, Debug)]
pub enum BoardError {
    /// Two given clues of a common row, column or block hold the same digit.
    ConflictingClues,
}

/// Two distinct given cells of a common unit hold the same digit.
pub open spec fn conflicting_givens(rows: Seq<Vec<u32>>) -> bool {
    exists|x1: int, y1: int, x2: int, y2: int|
        in_board(x1, y1) && in_board(x2, y2) && (x1 != x2 || y1 != y2) && #[trigger] peer_of(
            x1,
            y1,
            x2,
            y2,
        ) && rows[x1]@[y1] != 0 && rows[x1]@[y1] == rows[x2]@[y2]
}

/// The same conflict, over two flat cell indices.
spec fn pair_conflict(rows: Seq<Vec<u32>>, a: int, b: int) -> bool {
    a != b && peer_of(row_of(a), col_of(a), row_of(b), col_of(b)) && rows[row_of(a)]@[col_of(a)]
        != 0 && rows[row_of(a)]@[col_of(a)] == rows[row_of(b)]@[col_of(b)]
}

/// How a run of propagation ended.
#[derive(Clone, Copy, PartialEq, Eq, Structural, Debug)]
pub enum PropagationOutcome {
    /// Every cell is pinned to a single digit.
    Complete,
    /// The queue drained with some cell still holding two or more candidates.
    Stalled,
    /// Some cell lost its last candidate: the input admits no assignment.
    Contradiction,
}

spec fn row_total(row: Seq<Cell>, n: int) -> nat
    decreases n,
{
    if n <= 0 {
        0
    } else {
        row_total(row, n - 1) + row[n - 1].domain_size()
    }
}

spec fn grid_total(cs: Seq<Vec<Cell>>, n: int) -> nat
    decreases n,
{
    if n <= 0 {
        0
    } else {
        grid_total(cs, n - 1) + row_total(cs[n - 1]@, 9)
    }
}

proof fn lemma_row_total_update(row: Seq<Cell>, y: int, c: Cell, n: int)
    requires
        0 <= y < row.len(),
        n <= row.len(),
    ensures
        row_total(row.update(y, c), n) + (if y < n {
            row[y].domain_size()
        } else {
            0nat
        }) == row_total(row, n) + (if y < n {
            c.domain_size()
        } else {
            0nat
        }),
    decreases n,
{
    if n > 0 {
        lemma_row_total_update(row, y, c, n - 1);
    }
}

proof fn lemma_grid_total_update(cs: Seq<Vec<Cell>>, x: int, rv: Vec<Cell>, n: int)
    requires
        0 <= x < cs.len(),
        n <= cs.len(),
    ensures
        grid_total(cs.update(x, rv), n) + (if x < n {
            row_total(cs[x]@, 9)
        } else {
            0nat
        }) == grid_total(cs, n) + (if x < n {
            row_total(rv@, 9)
        } else {
            0nat
        }),
    decreases n,
{
    if n > 0 {
        lemma_grid_total_update(cs, x, rv, n - 1);
    }
}

/// Two cells admitting the same digits have the same domain size.
proof fn lemma_cell_same_size(a: Cell, b: Cell)
    requires
        a.wf(),
        b.wf(),
        forall|w: int| #[trigger] a.admits(w) <==> b.admits(w),
    ensures
        a.domain_size() == b.domain_size(),
{
    assert forall|w: int| 0 <= w < 10 implies #[trigger] a.possibilities@[w]
        == b.possibilities@[w] by {
        assert(a.admits(w) <==> b.admits(w));
    };
    lemma_count_eq_pointwise(a.possibilities@, b.possibilities@, 10);
}

/// A cell that lost exactly the digit `v` shrank by one candidate if it
/// admitted `v`, else kept its size.
proof fn lemma_cell_minus_size(pre: Cell, post: Cell, v: int)
    requires
        pre.wf(),
        post.wf(),
        0 <= v < 10,
        forall|w: int| #[trigger] post.admits(w) <==> (pre.admits(w) && w != v),
    ensures
        post.domain_size() + (if pre.admits(v) {
            1nat
        } else {
            0nat
        }) == pre.domain_size(),
{
    let mid = pre.possibilities@.update(v, false);
    assert forall|w: int| 0 <= w < 10 implies #[trigger] post.possibilities@[w] == mid[w] by {
        assert(post.admits(w) <==> (pre.admits(w) && w != v));
    };
    lemma_count_eq_pointwise(post.possibilities@, mid, 10);
    lemma_count_update_false(pre.possibilities@, v, 10);
}

/// A domain of size one admits a single digit.
proof fn lemma_singleton_admits(c: Cell, a: int, b: int)
    requires
        c.wf(),
        c.domain_size() == 1,
        c.admits(a),
        c.admits(b),
    ensures
        a == b,
{
    if a < b {
        lemma_count_ge_two(c.possibilities@, a, b, 10);
    } else if b < a {
        lemma_count_ge_two(c.possibilities@, b, a, 10);
    }
}

/// Board peers are cells of a common unit of the flat grid model.
proof fn lemma_peer_same_unit(cx: int, cy: int, sx: int, sy: int)
    requires
        in_board(cx, cy),
        in_board(sx, sy),
        peer_of(cx, cy, sx, sy),
    ensures
        same_unit(cell_index(cx, cy), cell_index(sx, sy)),
        in_grid(cell_index(cx, cy)),
        in_grid(cell_index(sx, sy)),
        (cx != sx || cy != sy) ==> cell_index(cx, cy) != cell_index(sx, sy),
{
    lemma_cell_index_inverse(cx, cy);
    lemma_cell_index_inverse(sx, sy);
}

/// Law: when every domain has collapsed to a single digit, the board's
/// domains are exactly the digits of any full grid it never ruled out: the
/// resolved output is that grid.
pub proof fn lemma_complete_pins_solution(b: Board, s: Seq<u32>)
    requires
        b.wf(),
        b.compatible(s),
        forall|x: int, y: int| in_board(x, y) ==> (#[trigger] b.cell_at(x, y).domain_size()) == 1,
    ensures
        forall|x: int, y: int, w: int|
            in_board(x, y) ==> ((#[trigger] b.cell_at(x, y).admits(w)) <==> w == s[x * 9
                + y] as int),
{
    assert forall|x: int, y: int, w: int|
        in_board(x, y) implies ((#[trigger] b.cell_at(x, y).admits(w)) <==> w == s[x * 9
        + y] as int) by {
        assert(b.cell_at(x, y).admits(s[x * 9 + y] as int));
        if b.cell_at(x, y).admits(w) {
            lemma_singleton_admits(b.cell_at(x, y), w, s[x * 9 + y] as int);
        }
    };
}

/// Law: under shrinking domains (no candidate ever returns), no cell's
/// domain size ever increases.
pub proof fn lemma_shrunk_sizes(pre: Board, post: Board)
    requires
        pre.wf(),
        post.wf(),
        Board::domains_shrunk(pre, post),
    ensures
        forall|x: int, y: int|
            in_board(x, y) ==> #[trigger] post.cell_at(x, y).domain_size() <= pre.cell_at(
                x,
                y,
            ).domain_size(),
{
    assert forall|x: int, y: int| in_board(x, y) implies #[trigger] post.cell_at(
        x,
        y,
    ).domain_size() <= pre.cell_at(x, y).domain_size() by {
        let a = post.cell_at(x, y);
        let b = pre.cell_at(x, y);
        assert forall|w: int| 0 <= w < 10 && #[trigger] a.possibilities@[w] implies
            b.possibilities@[w] by {
            assert(a.admits(w));
            assert(b.admits(w));
        };
        lemma_count_pointwise_le(a.possibilities@, b.possibilities@, 10);
    };
}

/// Every cell of `post` relates to `pre` as after removing digit `v` from
/// exactly the unsolved cells that `touched` picks out.
spec fn reduced_by(pre: Board, post: Board, v: u32, touched: spec_fn(int, int) -> bool) -> bool {
    forall|cx: int, cy: int, w: int|
        in_board(cx, cy) ==> (#[trigger] post.cell_at(cx, cy).admits(w) <==> (pre.cell_at(
            cx,
            cy,
        ).admits(w) && !(touched(cx, cy) && w == v as int && pre.cell_at(cx, cy).domain_size()
            != 1)))
}

proof fn lemma_reduced_by_equiv(
    pre: Board,
    post: Board,
    v: u32,
    f: spec_fn(int, int) -> bool,
    g: spec_fn(int, int) -> bool,
)
    requires
        reduced_by(pre, post, v, f),
        forall|cx: int, cy: int| in_board(cx, cy) ==> (#[trigger] f(cx, cy) <==> g(cx, cy)),
    ensures
        reduced_by(pre, post, v, g),
{
    assert forall|cx: int, cy: int, w: int|
        in_board(cx, cy) implies (#[trigger] post.cell_at(cx, cy).admits(w) <==> (pre.cell_at(
        cx,
        cy,
    ).admits(w) && !(g(cx, cy) && w == v as int && pre.cell_at(cx, cy).domain_size() != 1))) by {
        assert(f(cx, cy) <==> g(cx, cy));
        assert(post.cell_at(cx, cy).admits(w) <==> (pre.cell_at(cx, cy).admits(w) && !(f(cx, cy)
            && w == v as int && pre.cell_at(cx, cy).domain_size() != 1)));
    };
}

/// Extending the touched set by the cell one elimination call just handled
/// keeps the cell-by-cell account of `reduced_by` exact.
proof fn lemma_reduce_step(
    pre: Board,
    mid: Board,
    post: Board,
    v: u32,
    t1: spec_fn(int, int) -> bool,
    t2: spec_fn(int, int) -> bool,
    px: int,
    py: int,
)
    requires
        pre.wf(),
        mid.wf(),
        post.wf(),
        reduced_by(pre, mid, v, t1),
        in_board(px, py),
        forall|cx: int, cy: int|
            in_board(cx, cy) ==> (#[trigger] t2(cx, cy) <==> (t1(cx, cy) || (cx == px && cy
                == py))),
        forall|cx: int, cy: int|
            in_board(cx, cy) && (cx != px || cy != py) ==> (#[trigger] post.cell_at(cx, cy))
                == mid.cell_at(cx, cy),
        ({
            if mid.cell_at(px, py).domain_size() == 1 {
                post.cell_at(px, py) == mid.cell_at(px, py)
            } else {
                forall|w: int|
                    #[trigger] post.cell_at(px, py).admits(w) <==> (mid.cell_at(px, py).admits(w)
                        && w != v as int)
            }
        }),
    ensures
        reduced_by(pre, post, v, t2),
{
    assert forall|cx: int, cy: int, w: int|
        in_board(cx, cy) implies (#[trigger] post.cell_at(cx, cy).admits(w) <==> (pre.cell_at(
        cx,
        cy,
    ).admits(w) && !(t2(cx, cy) && w == v as int && pre.cell_at(cx, cy).domain_size() != 1))) by {
        assert(t2(cx, cy) <==> (t1(cx, cy) || (cx == px && cy == py)));
        assert(mid.cell_at(cx, cy).admits(w) <==> (pre.cell_at(cx, cy).admits(w) && !(t1(cx, cy)
            && w == v as int && pre.cell_at(cx, cy).domain_size() != 1)));
        if cx == px && cy == py {
            let prec = pre.cell_at(px, py);
            let midc = mid.cell_at(px, py);
            let postc = post.cell_at(px, py);
            if midc.domain_size() == 1 {
                if prec.domain_size() != 1 {
                    if !t1(px, py) {
                        assert forall|u: int| #[trigger] midc.admits(u) <==> prec.admits(u) by {
                            assert(midc.admits(u) <==> (prec.admits(u) && !(t1(px, py) && u
                                == v as int && prec.domain_size() != 1)));
                        };
                        lemma_cell_same_size(midc, prec);
                    }
                    assert(t1(px, py));
                }
            } else {
                if prec.domain_size() == 1 {
                    assert forall|u: int| #[trigger] midc.admits(u) <==> prec.admits(u) by {
                        assert(midc.admits(u) <==> (prec.admits(u) && !(t1(px, py) && u
                            == v as int && prec.domain_size() != 1)));
                    };
                    lemma_cell_same_size(midc, prec);
                }
                assert(prec.domain_size() != 1);
            }
        }
    };
}

/// The 9x9 board of candidate domains plus the FIFO queue of solved cells.
pub struct Board {
    cells: Vec<Vec<Cell>>,
    solved_cells: VecDeque<SolvedCell>,
    contradiction: bool,
}

impl Board {
    /// The cell in row `x`, column `y`.
    pub closed spec fn cell_at(self, x: int, y: int) -> Cell {
        self.cells@[x]@[y]
    }

    /// The pending queue of solved cells, front first.
    pub closed spec fn queue(self) -> Seq<SolvedCell> {
        self.solved_cells@
    }

    /// Sum of all 81 domain sizes; propagation only ever lowers
    /// queue length plus this total.
    pub closed spec fn total_candidates(self) -> nat {
        grid_total(self.cells@, 9)
    }

    /// Cell (`x`, `y`) has a pending queue entry.
    pub closed spec fn queued(self, x: int, y: int) -> bool {
        exists|q: int|
            0 <= q < self.queue().len() && ((#[trigger] self.queue()[q]).x as int == x) && (
            self.queue()[q].y as int == y)
    }

    /// 9x9 well-formed cells; a queue whose every entry names a cell already
    /// pinned to exactly that entry's digit; a propagation ledger: a solved
    /// cell with no pending queue entry has already been eliminated from all
    /// of its undetermined peers; and the contradiction flag set exactly when
    /// some cell has an empty domain.
    pub closed spec fn wf(self) -> bool {
        &&& self.cells@.len() == 9
        &&& forall|x: int| 0 <= x < 9 ==> (#[trigger] self.cells@[x])@.len() == 9
        &&& forall|x: int, y: int| in_board(x, y) ==> (#[trigger] self.cells@[x]@[y]).wf()
        &&& forall|q: int| 0 <= q < self.queue().len() ==> entry_ok(#[trigger] self.queue()[q])
        &&& forall|q: int|
            0 <= q < self.queue().len() ==> (#[trigger] self.cells@[self.queue()[q].x as int]@[self.queue()[q].y as int]).domain_size()
                == 1 && self.cells@[self.queue()[q].x as int]@[self.queue()[q].y as int].admits(
                self.queue()[q].value as int,
            )
        &&& forall|x: int, y: int, v: int|
            in_board(x, y) && (#[trigger] self.cells@[x]@[y].admits(v))
                && self.cells@[x]@[y].domain_size() == 1 && !self.queued(x, y) ==> forall|
                px: int,
                py: int,
            |
                in_board(px, py) && (px != x || py != y) && peer_of(px, py, x, y) && (
                #[trigger] self.cells@[px]@[py]).domain_size() != 1 ==> !self.cells@[px]@[py].admits(
                    v,
                )
        &&& (self.contradiction <==> exists|x: int, y: int|
            in_board(x, y) && (#[trigger] self.cells@[x]@[y]).domain_size() == 0)
    }

    /// Every cell's domain still admits the digit that `s` (a full 81-cell
    /// grid, row-major) puts there: `s` has not been ruled out.
    pub open spec fn compatible(self, s: Seq<u32>) -> bool {
        forall|x: int, y: int|
            in_board(x, y) ==> (#[trigger] self.cell_at(x, y)).admits(s[x * 9 + y] as int)
    }

    /// Every candidate of `post` was already a candidate of `pre`: domains
    /// never grow and no removed digit ever returns.
    pub open spec fn domains_shrunk(pre: Board, post: Board) -> bool {
        forall|x: int, y: int, w: int|
            in_board(x, y) && #[trigger] post.cell_at(x, y).admits(w) ==> pre.cell_at(
                x,
                y,
            ).admits(w)
    }

    /// Cells already pinned to one digit in `pre` are untouched in `post`.
    pub open spec fn solved_kept(pre: Board, post: Board) -> bool {
        forall|x: int, y: int, w: int|
            in_board(x, y) && pre.cell_at(x, y).domain_size() == 1 ==> (#[trigger] post.cell_at(
                x,
                y,
            ).admits(w) <==> pre.cell_at(x, y).admits(w))
    }

    /// Read access to the cell in row `x`, column `y`, to inspect which
    /// digits remain possible there.
    pub fn cell(&self, x: usize, y: usize) -> (c: &Cell)
        requires
            self.wf(),
            x < 9,
            y < 9,
        ensures
            *c == self.cell_at(x as int, y as int),
            c.wf(),
    {
        &self.cells[x][y]
    }

    /// Removes digit `v` from the candidates of the cell at (`x`, `y`) unless
    /// that cell is already solved. A cell thereby pinned to one digit joins
    /// the queue; a cell thereby left with no digit raises the contradiction
    /// flag.
    pub fn reduce_cell_possibilities(&mut self, x: u32, y: u32, v: u32)
        requires
            old(self).wf(),
            x < 9,
            y < 9,
            1 <= v <= 9,
        ensures
            final(self).wf(),
            forall|cx: int, cy: int|
                in_board(cx, cy) && (cx != x as int || cy != y as int)
                    ==> (#[trigger] final(self).cell_at(cx, cy)) == old(self).cell_at(cx, cy),
            ({
                let pre = old(self).cell_at(x as int, y as int);
                let post = final(self).cell_at(x as int, y as int);
                if pre.domain_size() == 1 {
                    post == pre && final(self).queue() == old(self).queue()
                } else {
                    (forall|w: int|
                        #[trigger] post.admits(w) <==> (pre.admits(w) && w != v as int)) && post.domain_size()
                        + (if pre.admits(v as int) {
                        1nat
                    } else {
                        0nat
                    }) == pre.domain_size() && (if post.domain_size() == 1 {
                        final(self).queue().len() == old(self).queue().len() + 1
                            && final(self).queue().last().x == x && final(self).queue().last().y
                            == y && post.admits(final(self).queue().last().value as int) && entry_ok(
                            final(self).queue().last(),
                        )
                    } else {
                        final(self).queue() == old(self).queue()
                    })
                }
            }),
            forall|q: int|
                0 <= q < old(self).queue().len() ==> #[trigger] final(self).queue()[q] == old(
                    self,
                ).queue()[q],
            old(self).queue().len() <= final(self).queue().len(),
            final(self).queue().len() + final(self).total_candidates() <= old(self).queue().len()
                + old(self).total_candidates(),
    {
        let xi = x as usize;
        let yi = y as usize;
        let ghost pre_cells = self.cells@;
        let ghost pre_row = self.cells@[x as int]@;
        let ghost pre_cell = self.cells@[x as int]@[y as int];

        let cell = &mut self.cells[xi][yi];
        let was_solved = cell.is_solved();
        let mut became_solved = false;
        let mut became_empty = false;
        let mut val: u32 = 0;
        if !was_solved {
            cell.remove_possibility(v);
            let cnt = cell.count_candidates();
            if cnt == 1 {
                became_solved = true;
                val = cell.resolve();
            }
            if cnt == 0 {
                became_empty = true;
            }
        }
        let ghost post_cell = self.cells@[x as int]@[y as int];
        if became_solved {
            self.solved_cells.push_back(SolvedCell { x, y, value: val });
        }
        if became_empty {
            self.contradiction = true;
        }
        proof {
            assert(self.cells@ == pre_cells.update(x as int, self.cells@[x as int]));
            assert(self.cells@[x as int]@ == pre_row.update(y as int, post_cell));
            assert forall|cx: int, cy: int|
                in_board(cx, cy) && (cx != x as int || cy != y as int) implies #[trigger] self.cells@[cx]@[cy]
                == pre_cells[cx]@[cy] by {};
            if !was_solved {
                lemma_cell_minus_size(pre_cell, post_cell, v as int);
            }
            assert forall|q: int|
                0 <= q < self.queue().len() implies (#[trigger] self.cells@[self.queue()[q].x as int]@[self.queue()[q].y as int]).domain_size()
                == 1 && self.cells@[self.queue()[q].x as int]@[self.queue()[q].y as int].admits(
                self.queue()[q].value as int,
            ) by {
                let e = self.queue()[q];
                if q < old(self).queue().len() {
                    assert(e == old(self).queue()[q]);
                    assert(pre_cells[e.x as int]@[e.y as int].domain_size() == 1);
                    assert(pre_cells[e.x as int]@[e.y as int].admits(e.value as int));
                    if e.x as int == x as int && e.y as int == y as int {
                        assert(post_cell == pre_cell);
                    } else {
                        assert(self.cells@[e.x as int]@[e.y as int] == pre_cells[e.x as int]@[e.y as int]);
                    }
                } else {
                    assert(e.x as int == x as int && e.y as int == y as int);
                    assert(self.cells@[e.x as int]@[e.y as int] == post_cell);
                    assert(post_cell.domain_size() == 1 && post_cell.admits(e.value as int));
                }
            };
            // the propagation ledger survives: the queue only grew, untouched
            // cells keep their entries or their finished eliminations, and a
            // cell this call pinned was enqueued
            assert forall|a: int, b2: int, v2: int|
                in_board(a, b2) && (#[trigger] self.cells@[a]@[b2].admits(v2))
                    && self.cells@[a]@[b2].domain_size() == 1 && !self.queued(a, b2) implies (forall|
                px: int,
                py: int,
            |
                in_board(px, py) && (px != a || py != b2) && peer_of(px, py, a, b2) && (
                #[trigger] self.cells@[px]@[py]).domain_size() != 1 ==> !self.cells@[px]@[py].admits(
                    v2,
                )) by {
                assert(!old(self).queued(a, b2)) by {
                    if old(self).queued(a, b2) {
                        let q = choose|q: int|
                            0 <= q < old(self).queue().len() && ((#[trigger] old(
                                self,
                            ).queue()[q]).x as int == a) && (old(self).queue()[q].y as int == b2);
                        assert(self.queue()[q] == old(self).queue()[q]);
                        assert(self.queued(a, b2));
                    }
                };
                if a == x as int && b2 == y as int {
                    if !was_solved {
                        assert(self.cells@[a]@[b2] == post_cell);
                        assert(became_solved);
                        assert((self.queue()[self.queue().len() - 1]).x as int == a);
                        assert((self.queue()[self.queue().len() - 1]).y as int == b2);
                        assert(self.queued(a, b2));
                        assert(false);
                    }
                    assert(post_cell == pre_cell);
                    assert(pre_cells[a]@[b2].admits(v2));
                    assert(pre_cells[a]@[b2].domain_size() == 1);
                    assert forall|px: int, py: int|
                        in_board(px, py) && (px != a || py != b2) && peer_of(px, py, a, b2) && (
                        #[trigger] self.cells@[px]@[py]).domain_size() != 1 implies !self.cells@[px]@[py].admits(
                        v2,
                    ) by {
                        assert(self.cells@[px]@[py] == pre_cells[px]@[py]);
                        assert(pre_cells[px]@[py].domain_size() != 1);
                        assert(!pre_cells[px]@[py].admits(v2));
                    };
                } else {
                    assert(self.cells@[a]@[b2] == pre_cells[a]@[b2]);
                    assert(pre_cells[a]@[b2].admits(v2));
                    assert(pre_cells[a]@[b2].domain_size() == 1);
                    assert forall|px: int, py: int|
                        in_board(px, py) && (px != a || py != b2) && peer_of(px, py, a, b2) && (
                        #[trigger] self.cells@[px]@[py]).domain_size() != 1 implies !self.cells@[px]@[py].admits(
                        v2,
                    ) by {
                        if px == x as int && py == y as int {
                            if was_solved {
                                assert(self.cells@[px]@[py] == pre_cells[px]@[py]);
                                assert(pre_cells[px]@[py].domain_size() != 1);
                                assert(!pre_cells[px]@[py].admits(v2));
                            } else {
                                assert(pre_cells[px]@[py].domain_size() != 1);
                                assert(!pre_cells[px]@[py].admits(v2));
                                assert(self.cells@[px]@[py] == post_cell);
                            }
                        } else {
                            assert(self.cells@[px]@[py] == pre_cells[px]@[py]);
                            assert(pre_cells[px]@[py].domain_size() != 1);
                            assert(!pre_cells[px]@[py].admits(v2));
                        }
                    };
                }
            };
            lemma_row_total_update(pre_row, y as int, post_cell, 9);
            lemma_grid_total_update(pre_cells, x as int, self.cells@[x as int], 9);
            // the contradiction flag still marks exactly the empty domains
            if self.contradiction {
                if became_empty {
                    assert(in_board(x as int, y as int) && self.cells@[x as int]@[y as int].domain_size()
                        == 0);
                } else {
                    let (ex, ey): (int, int) = choose|ex: int, ey: int|
                        in_board(ex, ey) && (#[trigger] pre_cells[ex]@[ey]).domain_size() == 0;
                    if ex == x as int && ey == y as int {
                        assert(pre_cell.domain_size() == 0);
                        assert(self.cells@[ex]@[ey].domain_size() == 0);
                    } else {
                        assert(self.cells@[ex]@[ey].domain_size() == 0);
                    }
                    assert(in_board(ex, ey) && (#[trigger] self.cells@[ex]@[ey]).domain_size()
                        == 0);
                }
            } else {
                assert forall|ex: int, ey: int|
                    in_board(ex, ey) implies (#[trigger] self.cells@[ex]@[ey]).domain_size()
                    != 0 by {
                    if ex == x as int && ey == y as int {
                        assert(pre_cells[ex]@[ey].domain_size() != 0);
                    } else {
                        assert(self.cells@[ex]@[ey] == pre_cells[ex]@[ey]);
                        assert(pre_cells[ex]@[ey].domain_size() != 0);
                    }
                };
            }
        }
    }

    /// Removes the digit of one solved cell from the domains of every cell of
    /// its row, its column and its 3x3 block (skipping cells already solved),
    /// queueing each peer this pins to a single digit.
    pub fn reduce_possibilities(&mut self, solved: SolvedCell)
        requires
            old(self).wf(),
            entry_ok(solved),
        ensures
            final(self).wf(),
            forall|cx: int, cy: int, w: int|
                in_board(cx, cy) ==> (#[trigger] final(self).cell_at(cx, cy).admits(w) <==> (old(
                    self,
                ).cell_at(cx, cy).admits(w) && !(peer_of(cx, cy, solved.x as int, solved.y as int)
                    && w == solved.value as int && old(self).cell_at(cx, cy).domain_size() != 1))),
            forall|cx: int, cy: int|
                in_board(cx, cy) ==> (#[trigger] final(self).cell_at(cx, cy).domain_size()) <= old(
                    self,
                ).cell_at(cx, cy).domain_size(),
            forall|cx: int, cy: int|
                in_board(cx, cy) && old(self).cell_at(cx, cy).domain_size() >= 1 ==> (
                #[trigger] final(self).cell_at(cx, cy).domain_size()) >= 1,
            forall|cx: int, cy: int|
                in_board(cx, cy) && old(self).cell_at(cx, cy).domain_size() == 1 ==> (
                #[trigger] final(self).cell_at(cx, cy).domain_size()) == 1,
            old(self).queue().len() <= final(self).queue().len(),
            forall|q: int|
                0 <= q < old(self).queue().len() ==> #[trigger] final(self).queue()[q] == old(
                    self,
                ).queue()[q],
            forall|cx: int, cy: int|
                in_board(cx, cy) && old(self).cell_at(cx, cy).domain_size() != 1
                    && (#[trigger] final(self).cell_at(cx, cy).domain_size()) == 1
                    ==> exists|q: int|
                        old(self).queue().len() <= q < final(self).queue().len()
                            && ((#[trigger] final(self).queue()[q]).x as int == cx)
                            && (final(self).queue()[q].y as int == cy),
            final(self).queue().len() + final(self).total_candidates() <= old(self).queue().len()
                + old(self).total_candidates(),
    {
        let sx = solved.x;
        let sy = solved.y;
        let v = solved.value;
        let ghost gsx = sx as int;
        let ghost gsy = sy as int;

        let mut t: u32 = 0;
        while t < 9
            invariant
                self.wf(),
                old(self).wf(),
                t <= 9,
                sx < 9,
                sy < 9,
                1 <= v <= 9,
                gsx == sx as int,
                gsy == sy as int,
                reduced_by(*old(self), *self, v, (|cx: int, cy: int| cy == gsy && cx < t as int)),
                forall|cx: int, cy: int|
                    in_board(cx, cy) && old(self).cell_at(cx, cy).domain_size() != 1
                        && (#[trigger] self.cell_at(cx, cy).domain_size()) == 1
                        ==> exists|q: int|
                            old(self).queue().len() <= q < self.queue().len()
                                && ((#[trigger] self.queue()[q]).x as int == cx)
                                && (self.queue()[q].y as int == cy),
                old(self).queue().len() <= self.queue().len(),
                forall|q: int|
                    0 <= q < old(self).queue().len() ==> #[trigger] self.queue()[q] == old(
                        self,
                    ).queue()[q],
                self.queue().len() + self.total_candidates() <= old(self).queue().len() + old(
                    self,
                ).total_candidates(),
            decreases 9 - t,
        {
            let ghost mid = *self;
            let ghost told = t as int;
            self.reduce_cell_possibilities(t, sy, v);
            proof {
                lemma_reduce_step(
                    *old(self),
                    mid,
                    *self,
                    v,
                    (|cx: int, cy: int| cy == gsy && cx < told),
                    (|cx: int, cy: int| cy == gsy && cx < told + 1),
                    told,
                    gsy,
                );
                assert forall|cx: int, cy: int|
                    in_board(cx, cy) && old(self).cell_at(cx, cy).domain_size() != 1
                        && (#[trigger] self.cell_at(cx, cy).domain_size()) == 1 implies exists|q: int|
                    old(self).queue().len() <= q < self.queue().len()
                        && ((#[trigger] self.queue()[q]).x as int == cx)
                        && (self.queue()[q].y as int == cy) by {
                    if cx == told && cy == gsy && mid.cell_at(cx, cy).domain_size() != 1 {
                        assert(self.queue().len() == mid.queue().len() + 1);
                        assert((self.queue()[mid.queue().len() as int]).x as int == cx);
                        assert(self.queue()[mid.queue().len() as int].y as int == cy);
                    } else {
                        if cx != told || cy != gsy {
                            assert(self.cell_at(cx, cy) == mid.cell_at(cx, cy));
                        }
                        assert(mid.cell_at(cx, cy).domain_size() == 1);
                        let q = choose|q: int|
                            old(self).queue().len() <= q < mid.queue().len() && (#[trigger] mid.queue()[q]).x as int
                                == cx && mid.queue()[q].y as int == cy;
                        assert(self.queue()[q] == mid.queue()[q]);
                    }
                };
            }
            t += 1;
        }

        proof {
            lemma_reduced_by_equiv(
                *old(self),
                *self,
                v,
                (|cx: int, cy: int| cy == gsy && cx < 9),
                (|cx: int, cy: int| cy == gsy || (cx == gsx && cy < 0)),
            );
        }

        let mut t: u32 = 0;
        while t < 9
            invariant
                self.wf(),
                old(self).wf(),
                t <= 9,
                sx < 9,
                sy < 9,
                1 <= v <= 9,
                gsx == sx as int,
                gsy == sy as int,
                reduced_by(
                    *old(self),
                    *self,
                    v,
                    (|cx: int, cy: int| cy == gsy || (cx == gsx && cy < t as int)),
                ),
                forall|cx: int, cy: int|
                    in_board(cx, cy) && old(self).cell_at(cx, cy).domain_size() != 1
                        && (#[trigger] self.cell_at(cx, cy).domain_size()) == 1
                        ==> exists|q: int|
                            old(self).queue().len() <= q < self.queue().len()
                                && ((#[trigger] self.queue()[q]).x as int == cx)
                                && (self.queue()[q].y as int == cy),
                old(self).queue().len() <= self.queue().len(),
                forall|q: int|
                    0 <= q < old(self).queue().len() ==> #[trigger] self.queue()[q] == old(
                        self,
                    ).queue()[q],
                self.queue().len() + self.total_candidates() <= old(self).queue().len() + old(
                    self,
                ).total_candidates(),
            decreases 9 - t,
        {
            let ghost mid = *self;
            let ghost told = t as int;
            self.reduce_cell_possibilities(sx, t, v);
            proof {
                lemma_reduce_step(
                    *old(self),
                    mid,
                    *self,
                    v,
                    (|cx: int, cy: int| cy == gsy || (cx == gsx && cy < told)),
                    (|cx: int, cy: int| cy == gsy || (cx == gsx && cy < told + 1)),
                    gsx,
                    told,
                );
                assert forall|cx: int, cy: int|
                    in_board(cx, cy) && old(self).cell_at(cx, cy).domain_size() != 1
                        && (#[trigger] self.cell_at(cx, cy).domain_size()) == 1 implies exists|q: int|
                    old(self).queue().len() <= q < self.queue().len()
                        && ((#[trigger] self.queue()[q]).x as int == cx)
                        && (self.queue()[q].y as int == cy) by {
                    if cx == gsx && cy == told && mid.cell_at(cx, cy).domain_size() != 1 {
                        assert(self.queue().len() == mid.queue().len() + 1);
                        assert((self.queue()[mid.queue().len() as int]).x as int == cx);
                        assert(self.queue()[mid.queue().len() as int].y as int == cy);
                    } else {
                        if cx != gsx || cy != told {
                            assert(self.cell_at(cx, cy) == mid.cell_at(cx, cy));
                        }
                        assert(mid.cell_at(cx, cy).domain_size() == 1);
                        let q = choose|q: int|
                            old(self).queue().len() <= q < mid.queue().len() && (#[trigger] mid.queue()[q]).x as int
                                == cx && mid.queue()[q].y as int == cy;
                        assert(self.queue()[q] == mid.queue()[q]);
                    }
                };
            }
            t += 1;
        }

        let sqx: u32 = (sx / 3) * 3;
        let sqy: u32 = (sy / 3) * 3;
        let ghost gqx = sqx as int;
        let ghost gqy = sqy as int;
        proof {
            lemma_reduced_by_equiv(
                *old(self),
                *self,
                v,
                (|cx: int, cy: int| cy == gsy || (cx == gsx && cy < 9)),
                (
                |cx: int, cy: int|
                    cy == gsy || cx == gsx || (gqx <= cx < gqx + 3 && gqy <= cy < gqy + 3 && (cx
                        - gqx) * 3 + (cy - gqy) < 0)
                ),
            );
        }

        let mut t: u32 = 0;
        while t < 9
            invariant
                self.wf(),
                old(self).wf(),
                t <= 9,
                sx < 9,
                sy < 9,
                1 <= v <= 9,
                gsx == sx as int,
                gsy == sy as int,
                gqx == sqx as int,
                gqy == sqy as int,
                sqx == (sx / 3) * 3,
                sqy == (sy / 3) * 3,
                reduced_by(
                    *old(self),
                    *self,
                    v,
                    (
                    |cx: int, cy: int|
                        cy == gsy || cx == gsx || (gqx <= cx < gqx + 3 && gqy <= cy < gqy + 3 && (cx
                            - gqx) * 3 + (cy - gqy) < t as int)
                    ),
                ),
                forall|cx: int, cy: int|
                    in_board(cx, cy) && old(self).cell_at(cx, cy).domain_size() != 1
                        && (#[trigger] self.cell_at(cx, cy).domain_size()) == 1
                        ==> exists|q: int|
                            old(self).queue().len() <= q < self.queue().len()
                                && ((#[trigger] self.queue()[q]).x as int == cx)
                                && (self.queue()[q].y as int == cy),
                old(self).queue().len() <= self.queue().len(),
                forall|q: int|
                    0 <= q < old(self).queue().len() ==> #[trigger] self.queue()[q] == old(
                        self,
                    ).queue()[q],
                self.queue().len() + self.total_candidates() <= old(self).queue().len() + old(
                    self,
                ).total_candidates(),
            decreases 9 - t,
        {
            let ghost mid = *self;
            let ghost told = t as int;
            let px: u32 = sqx + t / 3;
            let py: u32 = sqy + t % 3;
            proof {
                lemma_div3_decomp(sx as int);
                lemma_div3_decomp(sy as int);
                lemma_div3_decomp(t as int);
            }
            self.reduce_cell_possibilities(px, py, v);
            proof {
                assert forall|cx: int, cy: int|
                    in_board(cx, cy) implies ((cy == gsy || cx == gsx || (gqx <= cx < gqx + 3 && gqy
                        <= cy < gqy + 3 && (cx - gqx) * 3 + (cy - gqy) < told + 1)) <==> ((cy == gsy
                        || cx == gsx || (gqx <= cx < gqx + 3 && gqy <= cy < gqy + 3 && (cx - gqx)
                        * 3 + (cy - gqy) < told)) || (cx == px as int && cy == py as int))) by {
                    lemma_div3_decomp(told);
                    if gqx <= cx < gqx + 3 && gqy <= cy < gqy + 3 && (cx - gqx) * 3 + (cy - gqy)
                        == told {
                        lemma_base3(cx - gqx, cy - gqy);
                    }
                };
                lemma_reduce_step(
                    *old(self),
                    mid,
                    *self,
                    v,
                    (
                    |cx: int, cy: int|
                        cy == gsy || cx == gsx || (gqx <= cx < gqx + 3 && gqy <= cy < gqy + 3 && (cx
                            - gqx) * 3 + (cy - gqy) < told)
                    ),
                    (
                    |cx: int, cy: int|
                        cy == gsy || cx == gsx || (gqx <= cx < gqx + 3 && gqy <= cy < gqy + 3 && (cx
                            - gqx) * 3 + (cy - gqy) < told + 1)
                    ),
                    px as int,
                    py as int,
                );
                assert forall|cx: int, cy: int|
                    in_board(cx, cy) && old(self).cell_at(cx, cy).domain_size() != 1
                        && (#[trigger] self.cell_at(cx, cy).domain_size()) == 1 implies exists|q: int|
                    old(self).queue().len() <= q < self.queue().len()
                        && ((#[trigger] self.queue()[q]).x as int == cx)
                        && (self.queue()[q].y as int == cy) by {
                    if cx == px as int && cy == py as int && mid.cell_at(cx, cy).domain_size() != 1 {
                        assert(self.queue().len() == mid.queue().len() + 1);
                        assert((self.queue()[mid.queue().len() as int]).x as int == cx);
                        assert(self.queue()[mid.queue().len() as int].y as int == cy);
                    } else {
                        if cx != px as int || cy != py as int {
                            assert(self.cell_at(cx, cy) == mid.cell_at(cx, cy));
                        }
                        assert(mid.cell_at(cx, cy).domain_size() == 1);
                        let q = choose|q: int|
                            old(self).queue().len() <= q < mid.queue().len() && (#[trigger] mid.queue()[q]).x as int
                                == cx && mid.queue()[q].y as int == cy;
                        assert(self.queue()[q] == mid.queue()[q]);
                    }
                };
            }
            t += 1;
        }

        proof {
            assert forall|cx: int, cy: int|
                in_board(cx, cy) implies ((cy == gsy || cx == gsx || (gqx <= cx < gqx + 3 && gqy
                <= cy < gqy + 3 && (cx - gqx) * 3 + (cy - gqy) < 9)) <==> peer_of(
                cx,
                cy,
                gsx,
                gsy,
            )) by {
                lemma_div3_decomp(cx);
                lemma_div3_decomp(cy);
                lemma_div3_decomp(gsx);
                lemma_div3_decomp(gsy);
                if gqx <= cx < gqx + 3 && gqy <= cy < gqy + 3 {
                    lemma_base3(gsx / 3, cx - gqx);
                    lemma_base3(gsy / 3, cy - gqy);
                }
            };
            lemma_reduced_by_equiv(
                *old(self),
                *self,
                v,
                (
                |cx: int, cy: int|
                    cy == gsy || cx == gsx || (gqx <= cx < gqx + 3 && gqy <= cy < gqy + 3 && (cx
                        - gqx) * 3 + (cy - gqy) < 9)
                ),
                (|cx: int, cy: int| peer_of(cx, cy, gsx, gsy)),
            );
            assert forall|cx: int, cy: int|
                in_board(cx, cy) implies {
                let pre = old(self).cell_at(cx, cy);
                let post = self.cell_at(cx, cy);
                post.domain_size() <= pre.domain_size() && (pre.domain_size() >= 1
                    ==> post.domain_size() >= 1) && (pre.domain_size() == 1 ==> post.domain_size()
                    == 1)
            } by {
                let pre = old(self).cell_at(cx, cy);
                let post = self.cell_at(cx, cy);
                if peer_of(cx, cy, gsx, gsy) && pre.domain_size() != 1 {
                    assert forall|w: int| #[trigger] post.admits(w) <==> (pre.admits(w) && w
                        != v as int) by {};
                    lemma_cell_minus_size(pre, post, v as int);
                } else {
                    assert forall|w: int| #[trigger] post.admits(w) <==> pre.admits(w) by {};
                    lemma_cell_same_size(post, pre);
                }
            };
        }
    }

    /// Builds the board from a 9x9 array of digits (0 = empty): every given
    /// clue starts as a singleton domain and joins the queue at once, in
    /// row-major order; every empty cell starts with all of 1..=9. A grid in
    /// which two givens of a common row, column or block hold the same digit
    /// is rejected.
    #[verifier::loop_isolation(false)]
    pub fn new(rows: Vec<Vec<u32>>) -> (r: Result<Board, BoardError>)
        requires
            rows@.len() == 9,
            forall|x: int| 0 <= x < 9 ==> (#[trigger] rows@[x])@.len() == 9,
            forall|x: int, y: int| in_board(x, y) ==> (#[trigger] rows@[x]@[y]) <= 9,
        ensures
            match r {
                Ok(b) => {
                    &&& !conflicting_givens(rows@)
                    &&& b.wf()
                    &&& forall|x: int, y: int, w: int|
                        in_board(x, y) ==> (#[trigger] b.cell_at(x, y).admits(w) <==> (
                        if rows@[x]@[y] == 0 {
                            1 <= w <= 9
                        } else {
                            w == rows@[x]@[y] as int
                        }))
                    &&& forall|x: int, y: int|
                        in_board(x, y) ==> (#[trigger] b.cell_at(x, y).domain_size()) == (
                        if rows@[x]@[y] == 0 {
                            9nat
                        } else {
                            1nat
                        })
                    &&& forall|q: int|
                        0 <= q < b.queue().len() ==> rows@[(#[trigger] b.queue()[q]).x as int]@[b.queue()[q].y as int]
                            == b.queue()[q].value
                    &&& forall|x: int, y: int|
                        in_board(x, y) && #[trigger] rows@[x]@[y] != 0 ==> exists|q: int|
                            0 <= q < b.queue().len() && (#[trigger] b.queue()[q]).x as int == x
                                && b.queue()[q].y as int == y
                    &&& forall|q1: int, q2: int|
                        0 <= q1 < q2 < b.queue().len() ==> ((#[trigger] b.queue()[q1]).x as int * 9
                            + b.queue()[q1].y as int) < ((#[trigger] b.queue()[q2]).x as int * 9
                            + b.queue()[q2].y as int)
                },
                Err(e) => e == BoardError::ConflictingClues && conflicting_givens(rows@),
            },
    {
        let mut a: usize = 0;
        while a < 81
            invariant
                a <= 81,
                forall|a2: int, b2: int|
                    0 <= a2 < a && 0 <= b2 < 81 ==> !(#[trigger] pair_conflict(rows@, a2, b2)),
            decreases 81 - a,
        {
            let mut b: usize = 0;
            while b < 81
                invariant
                    a < 81,
                    b <= 81,
                    forall|b2: int| 0 <= b2 < b ==> !(#[trigger] pair_conflict(rows@, a as int, b2)),
                decreases 81 - b,
            {
                if a != b {
                    let x1: usize = a / 9;
                    let y1: usize = a % 9;
                    let x2: usize = b / 9;
                    let y2: usize = b % 9;
                    proof {
                        lemma_cell_decomp(a as int);
                        lemma_cell_decomp(b as int);
                    }
                    let v1: u32 = rows[x1][y1];
                    let v2: u32 = rows[x2][y2];
                    let is_peer: bool = x1 == x2 || y1 == y2 || (x1 / 3 == x2 / 3 && y1 / 3 == y2
                        / 3);
                    if is_peer && v1 != 0 && v1 == v2 {
                        proof {
                            assert(x1 as int != x2 as int || y1 as int != y2 as int) by {
                                if x1 as int == x2 as int && y1 as int == y2 as int {
                                    assert(a as int == cell_index(x1 as int, y1 as int));
                                    assert(b as int == cell_index(x2 as int, y2 as int));
                                }
                            };
                            assert(peer_of(x1 as int, y1 as int, x2 as int, y2 as int));
                            assert(conflicting_givens(rows@));
                        }
                        return Err(BoardError::ConflictingClues);
                    }
                    proof {
                        assert(!pair_conflict(rows@, a as int, b as int));
                    }
                }
                b += 1;
            }
            a += 1;
        }
        proof {
            assert(!conflicting_givens(rows@)) by {
                if conflicting_givens(rows@) {
                    let (x1, y1, x2, y2): (int, int, int, int) = choose|
                        x1: int,
                        y1: int,
                        x2: int,
                        y2: int,
                    |
                        in_board(x1, y1) && in_board(x2, y2) && (x1 != x2 || y1 != y2)
                            && #[trigger] peer_of(x1, y1, x2, y2) && rows@[x1]@[y1] != 0
                            && rows@[x1]@[y1] == rows@[x2]@[y2];
                    let aa = cell_index(x1, y1);
                    let bb = cell_index(x2, y2);
                    lemma_cell_index_inverse(x1, y1);
                    lemma_cell_index_inverse(x2, y2);
                    assert(aa != bb);
                    assert(pair_conflict(rows@, aa, bb));
                }
            };
        }

        let mut cells: Vec<Vec<Cell>> = Vec::new();
        let mut solved_cells: VecDeque<SolvedCell> = VecDeque::new();

        let mut x: usize = 0;
        while x < 9
            invariant
                x <= 9,
                cells@.len() == x as int,
                forall|a: int| 0 <= a < x ==> (#[trigger] cells@[a])@.len() == 9,
                forall|a: int, c: int|
                    0 <= a < x && 0 <= c < 9 ==> (#[trigger] cells@[a]@[c]).wf(),
                forall|a: int, c: int, w: int|
                    0 <= a < x && 0 <= c < 9 ==> ((#[trigger] cells@[a]@[c].admits(w)) <==> (
                    if rows@[a]@[c] == 0 {
                        1 <= w <= 9
                    } else {
                        w == rows@[a]@[c] as int
                    })),
                forall|a: int, c: int|
                    0 <= a < x && 0 <= c < 9 ==> (#[trigger] cells@[a]@[c]).domain_size() == (
                    if rows@[a]@[c] == 0 {
                        9nat
                    } else {
                        1nat
                    }),
                forall|q: int|
                    0 <= q < solved_cells@.len() ==> entry_ok(#[trigger] solved_cells@[q])
                        && (solved_cells@[q].x as int) < x as int
                        && rows@[solved_cells@[q].x as int]@[solved_cells@[q].y as int]
                        == solved_cells@[q].value,
                forall|a: int, c: int|
                    0 <= a < x && 0 <= c < 9 && #[trigger] rows@[a]@[c] != 0 ==> exists|q: int|
                        0 <= q < solved_cells@.len() && (#[trigger] solved_cells@[q]).x as int == a
                            && solved_cells@[q].y as int == c,
                forall|q1: int, q2: int|
                    0 <= q1 < q2 < solved_cells@.len() ==> ((#[trigger] solved_cells@[q1]).x as int
                        * 9 + solved_cells@[q1].y as int) < ((#[trigger] solved_cells@[q2]).x as int
                        * 9 + solved_cells@[q2].y as int),
            decreases 9 - x,
        {
            let mut row_v: Vec<Cell> = Vec::new();
            let mut y: usize = 0;
            while y < 9
                invariant
                    y <= 9,
                    x < 9,
                    row_v@.len() == y as int,
                    forall|c: int| 0 <= c < y ==> (#[trigger] row_v@[c]).wf(),
                    forall|c: int, w: int|
                        0 <= c < y ==> ((#[trigger] row_v@[c].admits(w)) <==> (if rows@[x as int]@[c]
                            == 0 {
                            1 <= w <= 9
                        } else {
                            w == rows@[x as int]@[c] as int
                        })),
                    forall|c: int|
                        0 <= c < y ==> (#[trigger] row_v@[c]).domain_size() == (if rows@[x as int]@[c]
                            == 0 {
                            9nat
                        } else {
                            1nat
                        }),
                    forall|q: int|
                        0 <= q < solved_cells@.len() ==> entry_ok(#[trigger] solved_cells@[q])
                            && (solved_cells@[q].x as int * 9 + solved_cells@[q].y as int) < (
                        x as int * 9 + y as int)
                            && rows@[solved_cells@[q].x as int]@[solved_cells@[q].y as int]
                            == solved_cells@[q].value,
                    forall|a: int, c: int|
                        (0 <= a < x && 0 <= c < 9 || a == x as int && 0 <= c < y)
                            && #[trigger] rows@[a]@[c] != 0 ==> exists|q: int|
                            0 <= q < solved_cells@.len() && (#[trigger] solved_cells@[q]).x as int
                                == a && solved_cells@[q].y as int == c,
                    forall|q1: int, q2: int|
                        0 <= q1 < q2 < solved_cells@.len() ==> ((#[trigger] solved_cells@[q1]).x as int
                            * 9 + solved_cells@[q1].y as int) < ((
                        #[trigger] solved_cells@[q2]).x as int * 9 + solved_cells@[q2].y as int),
                decreases 9 - y,
            {
                let ghost q0 = solved_cells@;
                let val: u32 = rows[x][y];
                let cell = Cell::new(val);
                row_v.push(cell);
                if val != 0 {
                    solved_cells.push_back(
                        SolvedCell { x: x as u32, y: y as u32, value: val },
                    );
                }
                proof {
                    assert forall|a: int, c: int|
                        (0 <= a < x && 0 <= c < 9 || a == x as int && 0 <= c < y as int + 1)
                            && #[trigger] rows@[a]@[c] != 0 implies exists|q: int|
                        0 <= q < solved_cells@.len() && (#[trigger] solved_cells@[q]).x as int == a
                            && solved_cells@[q].y as int == c by {
                        if a == x as int && c == y as int {
                            assert(solved_cells@[solved_cells@.len() - 1].x as int == a
                                && solved_cells@[solved_cells@.len() - 1].y as int == c);
                        } else {
                            let q = choose|q: int|
                                0 <= q < q0.len() && (#[trigger] q0[q]).x as int == a
                                    && q0[q].y as int == c;
                            assert((solved_cells@[q]).x as int == a && solved_cells@[q].y as int
                                == c);
                        }
                    };
                }
                y += 1;
            }
            cells.push(row_v);
            x += 1;
        }

        let b = Board { cells, solved_cells, contradiction: false };
        proof {
            assert forall|ex: int, ey: int|
                in_board(ex, ey) implies (#[trigger] b.cells@[ex]@[ey]).domain_size() != 0 by {};
        }
        Ok(b)
    }

    /// Drains the queue, eliminating each solved cell's digit from its peers
    /// until no newly solved cells remain. Reports whether the board came out
    /// fully solved, stalled with undetermined cells, or hit an empty domain.
    #[verifier::loop_isolation(false)]
    pub fn solve(&mut self) -> (r: PropagationOutcome)
        requires
            old(self).wf(),
        ensures
            final(self).wf(),
            final(self).queue().len() == 0,
            Board::domains_shrunk(*old(self), *final(self)),
            Board::solved_kept(*old(self), *final(self)),
            forall|x: int, y: int|
                in_board(x, y) && old(self).cell_at(x, y).domain_size() >= 1
                    ==> (#[trigger] final(self).cell_at(x, y).domain_size()) >= 1,
            (r == PropagationOutcome::Contradiction) <==> (exists|x: int, y: int|
                in_board(x, y) && (#[trigger] final(self).cell_at(x, y).domain_size()) == 0),
            (r == PropagationOutcome::Complete) <==> (forall|x: int, y: int|
                in_board(x, y) ==> (#[trigger] final(self).cell_at(x, y).domain_size()) == 1),
            forall|s: Seq<u32>|
                solved_grid(s) && (#[trigger] old(self).compatible(s)) ==> final(self).compatible(
                    s,
                ),
            forall|x: int, y: int, px: int, py: int, v: int|
                in_board(x, y) && in_board(px, py) && (px != x || py != y)
                    && peer_of(px, py, x, y)
                    && final(self).cell_at(x, y).domain_size() == 1
                    && (#[trigger] final(self).cell_at(x, y).admits(v))
                    && (#[trigger] final(self).cell_at(px, py).domain_size()) != 1
                    ==> !final(self).cell_at(px, py).admits(v),
    {
        while self.solved_cells.len() > 0
            invariant
                self.wf(),
                Board::domains_shrunk(*old(self), *self),
                Board::solved_kept(*old(self), *self),
                forall|x: int, y: int|
                    in_board(x, y) && old(self).cell_at(x, y).domain_size() >= 1 ==> (
                    #[trigger] self.cell_at(x, y).domain_size()) >= 1,
                forall|s: Seq<u32>|
                    solved_grid(s) && (#[trigger] old(self).compatible(s)) ==> self.compatible(s),
            decreases self.queue().len() + self.total_candidates(),
        {
            let ghost head = *self;
            let sc: SolvedCell = self.solved_cells[0];
            proof {
                assert(sc == head.queue()[0]);
                assert(entry_ok(sc));
            }
            self.reduce_possibilities(sc);
            let ghost mid = *self;
            let ghost sxi = sc.x as int;
            let ghost syi = sc.y as int;
            proof {
                assert forall|x: int, y: int, w: int|
                    in_board(x, y) && #[trigger] mid.cell_at(x, y).admits(w) implies old(
                    self,
                ).cell_at(x, y).admits(w) by {
                    assert(head.cell_at(x, y).admits(w));
                };
                assert forall|x: int, y: int, w: int|
                    in_board(x, y) && old(self).cell_at(x, y).domain_size() == 1 implies (
                    #[trigger] mid.cell_at(x, y).admits(w) <==> old(self).cell_at(
                        x,
                        y,
                    ).admits(w)) by {
                    let o = old(self).cell_at(x, y);
                    let h = head.cell_at(x, y);
                    assert forall|u: int| #[trigger] h.admits(u) <==> o.admits(u) by {};
                    lemma_cell_same_size(h, o);
                    assert(h.domain_size() == 1);
                };
                assert forall|x: int, y: int|
                    in_board(x, y) && old(self).cell_at(x, y).domain_size() >= 1 implies (
                    #[trigger] mid.cell_at(x, y).domain_size()) >= 1 by {
                    assert(head.cell_at(x, y).domain_size() >= 1);
                };
                // no full grid compatible with every domain is ever ruled
                // out: the removed digit would have to stand in two cells of
                // one unit of that grid
                assert forall|s: Seq<u32>|
                    solved_grid(s) && (#[trigger] old(self).compatible(
                        s,
                    )) implies mid.compatible(s) by {
                    assert(head.compatible(s));
                    assert(head.cells@[sxi]@[syi].domain_size() == 1
                        && head.cells@[sxi]@[syi].admits(sc.value as int));
                    assert(head.cell_at(sxi, syi).domain_size() == 1 && head.cell_at(
                        sxi,
                        syi,
                    ).admits(sc.value as int));
                    lemma_singleton_admits(
                        head.cell_at(sxi, syi),
                        sc.value as int,
                        s[sxi * 9 + syi] as int,
                    );
                    assert forall|x: int, y: int|
                        in_board(x, y) implies (#[trigger] mid.cell_at(x, y)).admits(
                        s[x * 9 + y] as int,
                    ) by {
                        let d = s[x * 9 + y];
                        assert(head.cell_at(x, y).admits(d as int));
                        if peer_of(x, y, sxi, syi) && d as int == sc.value as int && head.cell_at(
                            x,
                            y,
                        ).domain_size() != 1 {
                            lemma_peer_same_unit(x, y, sxi, syi);
                            assert(s[cell_index(x, y)] == d);
                            assert(s[cell_index(sxi, syi)] == sc.value);
                            assert(x != sxi || y != syi);
                            assert(s[cell_index(x, y)] != 0);
                            assert(false);
                        }
                    };
                };
            }
            let front = self.solved_cells.pop_front();
            proof {
                assert(mid.queue()[0] == head.queue()[0]);
                assert(front == Some(sc));
                assert(self.cells@ == mid.cells@);
                assert forall|x: int, y: int| in_board(x, y) implies #[trigger] self.cell_at(
                    x,
                    y,
                ) == mid.cell_at(x, y) by {};
                assert forall|q: int| 0 <= q < self.queue().len() implies entry_ok(
                    #[trigger] self.queue()[q],
                ) by {
                    assert(self.queue()[q] == mid.queue()[q + 1]);
                };
                assert forall|q: int|
                    0 <= q < self.queue().len() implies (#[trigger] self.cells@[self.queue()[q].x as int]@[self.queue()[q].y as int]).domain_size()
                    == 1 && self.cells@[self.queue()[q].x as int]@[self.queue()[q].y as int].admits(
                    self.queue()[q].value as int,
                ) by {
                    assert(self.queue()[q] == mid.queue()[q + 1]);
                    assert(mid.cells@[mid.queue()[q + 1].x as int]@[mid.queue()[q
                        + 1].y as int].domain_size() == 1 && mid.cells@[mid.queue()[q
                        + 1].x as int]@[mid.queue()[q + 1].y as int].admits(
                        mid.queue()[q + 1].value as int,
                    ));
                };
                // the ledger survives the pop: the processed cell's digit was
                // just eliminated from every undetermined peer, and any other
                // cell keeps its entry or its finished eliminations
                assert forall|a: int, b2: int, v2: int|
                    in_board(a, b2) && (#[trigger] self.cells@[a]@[b2].admits(v2))
                        && self.cells@[a]@[b2].domain_size() == 1 && !self.queued(
                        a,
                        b2,
                    ) implies (forall|px: int, py: int|
                    in_board(px, py) && (px != a || py != b2) && peer_of(px, py, a, b2) && (
                    #[trigger] self.cells@[px]@[py]).domain_size() != 1
                        ==> !self.cells@[px]@[py].admits(v2)) by {
                    if a == sxi && b2 == syi {
                        assert(head.cells@[sxi]@[syi].domain_size() == 1
                            && head.cells@[sxi]@[syi].admits(sc.value as int));
                        assert(head.cell_at(a, b2).domain_size() == 1);
                        assert(mid.cell_at(a, b2).admits(v2));
                        assert(head.cell_at(a, b2).admits(v2));
                        lemma_singleton_admits(head.cell_at(a, b2), v2, sc.value as int);
                        assert forall|px: int, py: int|
                            in_board(px, py) && (px != a || py != b2) && peer_of(px, py, a, b2)
                                && (#[trigger] self.cells@[px]@[py]).domain_size()
                                != 1 implies !self.cells@[px]@[py].admits(v2) by {
                            assert(self.cell_at(px, py) == mid.cell_at(px, py));
                            if head.cell_at(px, py).domain_size() == 1 {
                                let o2 = head.cell_at(px, py);
                                let m2 = mid.cell_at(px, py);
                                assert forall|u: int| #[trigger] m2.admits(u) <==> o2.admits(
                                    u,
                                ) by {};
                                lemma_cell_same_size(m2, o2);
                                assert(false);
                            }
                            assert(!(mid.cell_at(px, py).admits(v2)));
                        };
                    } else {
                        assert(!mid.queued(a, b2)) by {
                            if mid.queued(a, b2) {
                                let q = choose|q: int|
                                    0 <= q < mid.queue().len() && ((#[trigger] mid.queue()[q]).x as int
                                        == a) && (mid.queue()[q].y as int == b2);
                                if q == 0 {
                                    assert(mid.queue()[0] == sc);
                                    assert(false);
                                } else {
                                    assert(self.queue()[q - 1] == mid.queue()[q]);
                                    assert(self.queued(a, b2));
                                    assert(false);
                                }
                            }
                        };
                        assert(mid.cells@[a]@[b2].admits(v2) && mid.cells@[a]@[b2].domain_size()
                            == 1);
                        assert forall|px: int, py: int|
                            in_board(px, py) && (px != a || py != b2) && peer_of(px, py, a, b2)
                                && (#[trigger] self.cells@[px]@[py]).domain_size()
                                != 1 implies !self.cells@[px]@[py].admits(v2) by {
                            assert(self.cells@[px]@[py] == mid.cells@[px]@[py]);
                            assert(!mid.cells@[px]@[py].admits(v2));
                        };
                    }
                };
                assert(self.wf());
                assert forall|x: int, y: int, w: int|
                    in_board(x, y) && #[trigger] self.cell_at(x, y).admits(w) implies old(
                    self,
                ).cell_at(x, y).admits(w) by {
                    assert(mid.cell_at(x, y).admits(w));
                };
                assert forall|x: int, y: int, w: int|
                    in_board(x, y) && old(self).cell_at(x, y).domain_size() == 1 implies (
                    #[trigger] self.cell_at(x, y).admits(w) <==> old(self).cell_at(
                        x,
                        y,
                    ).admits(w)) by {
                    assert(mid.cell_at(x, y).admits(w) <==> old(self).cell_at(x, y).admits(w));
                };
                assert forall|x: int, y: int|
                    in_board(x, y) && old(self).cell_at(x, y).domain_size() >= 1 implies (
                    #[trigger] self.cell_at(x, y).domain_size()) >= 1 by {
                    assert(mid.cell_at(x, y).domain_size() >= 1);
                };
                assert forall|s: Seq<u32>|
                    solved_grid(s) && (#[trigger] old(self).compatible(
                        s,
                    )) implies self.compatible(s) by {
                    assert(mid.compatible(s));
                    assert forall|x: int, y: int|
                        in_board(x, y) implies (#[trigger] self.cell_at(x, y)).admits(
                        s[x * 9 + y] as int,
                    ) by {
                        assert(mid.cell_at(x, y).admits(s[x * 9 + y] as int));
                    };
                };
            }
        }

        proof {
            // the queue is empty, so the ledger says every solved cell's
            // digit is gone from all of its undetermined peers: a fixpoint
            assert forall|x: int, y: int, px: int, py: int, v: int|
                in_board(x, y) && in_board(px, py) && (px != x || py != y) && peer_of(
                    px,
                    py,
                    x,
                    y,
                ) && self.cell_at(x, y).domain_size() == 1 && (#[trigger] self.cell_at(
                    x,
                    y,
                ).admits(v)) && (#[trigger] self.cell_at(px, py).domain_size())
                != 1 implies !self.cell_at(px, py).admits(v) by {
                assert(self.cells@[x]@[y].admits(v));
                assert(!self.queued(x, y));
                assert(!self.cells@[px]@[py].admits(v));
            };
        }
        if self.contradiction {
            proof {
                let (ex, ey): (int, int) = choose|ex: int, ey: int|
                    in_board(ex, ey) && (#[trigger] self.cells@[ex]@[ey]).domain_size() == 0;
                assert(self.cell_at(ex, ey).domain_size() == 0);
            }
            return PropagationOutcome::Contradiction;
        }
        proof {
            assert forall|ex: int, ey: int|
                in_board(ex, ey) implies (#[trigger] self.cell_at(ex, ey).domain_size()) != 0 by {
                assert(self.cells@[ex]@[ey].domain_size() != 0);
            };
        }

        let mut all_solved: bool = true;
        let mut x: usize = 0;
        while x < 9
            invariant
                x <= 9,
                all_solved ==> forall|cx: int, cy: int|
                    0 <= cx < x as int && 0 <= cy < 9 ==> (#[trigger] self.cell_at(
                        cx,
                        cy,
                    ).domain_size()) == 1,
                !all_solved ==> exists|cx: int, cy: int|
                    in_board(cx, cy) && (#[trigger] self.cell_at(cx, cy).domain_size()) != 1,
            decreases 9 - x,
        {
            let mut y: usize = 0;
            while y < 9
                invariant
                    x < 9,
                    y <= 9,
                    all_solved ==> forall|cx: int, cy: int|
                        0 <= cx < x as int && 0 <= cy < 9 ==> (#[trigger] self.cell_at(
                            cx,
                            cy,
                        ).domain_size()) == 1,
                    all_solved ==> forall|cy: int|
                        0 <= cy < y as int ==> (#[trigger] self.cell_at(
                            x as int,
                            cy,
                        ).domain_size()) == 1,
                    !all_solved ==> exists|cx: int, cy: int|
                        in_board(cx, cy) && (#[trigger] self.cell_at(cx, cy).domain_size()) != 1,
                decreases 9 - y,
            {
                if !self.cells[x][y].is_solved() {
                    all_solved = false;
                    proof {
                        assert(self.cell_at(x as int, y as int).domain_size() != 1);
                    }
                }
                y += 1;
            }
            x += 1;
        }

        if all_solved {
            PropagationOutcome::Complete
        } else {
            PropagationOutcome::Stalled
        }
    }
}

} // verus!
