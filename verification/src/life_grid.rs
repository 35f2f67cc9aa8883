use vstd::prelude::*;

use crate::cell::Cell;
use crate::cell_state::CellState;

verus! {

/// A fixed-size square board of cells, each `Populated` or `Vacant`, stored
/// as a flat row-major array of length `cell_count * cell_count`.
///
/// Pixel geometry and drawing belong to the host around the library, not to
/// the board itself.
pub struct LifeGrid {
    pub cell_states: Vec<CellState>,
    pub cell_count: u32,
}

/// Row-major index arithmetic: a cell of a square with side `side` has its
/// slot before `side * side`.
proof fn lemma_index(side: int, row: int, col: int)
    by (nonlinear_arith)
    requires
        0 <= row < side,
        0 <= col < side,
    ensures
        0 <= row * side + col < side * side,
{
}

/// Distinct in-range coordinates occupy distinct row-major slots.
proof fn lemma_index_injective(side: int, r1: int, c1: int, r2: int, c2: int)
    by (nonlinear_arith)
    requires
        0 <= r1 < side,
        0 <= c1 < side,
        0 <= r2 < side,
        0 <= c2 < side,
        r1 != r2 || c1 != c2,
    ensures
        r1 * side + c1 != r2 * side + c2,
{
}

/// A side whose square fits u32 arithmetic is itself small.
proof fn lemma_side_bound(side: int)
    by (nonlinear_arith)
    requires
        0 <= side,
        side * side <= u32::MAX as int,
    ensures
        side <= 65535,
{
}

/// Membership in a sequence extended by one element.
proof fn lemma_push_contains(s: Seq<Cell>, e: Cell, x: Cell)
    ensures
        s.push(e).contains(x) <==> (s.contains(x) || x == e),
{
    if s.push(e).contains(x) {
        let k = choose|k: int| 0 <= k < s.push(e).len() && s.push(e)[k] == x;
        if k < s.len() {
            assert(s[k] == x);
        }
    } else {
        if s.contains(x) {
            let k = choose|k: int| 0 <= k < s.len() && s[k] == x;
            assert(s.push(e)[k] == x);
        }
        assert(s.push(e)[s.len() as int] == e);
    }
}

/// The cells a row-major scan standing at (row, col) has already visited.
pub open spec fn scanned_before(row: int, col: int, r: int, c: int) -> bool {
    r < row || (r == row && c < col)
}

impl LifeGrid {
    /// The number of rows (and of columns), as a mathematical integer.
    pub open spec fn side(self) -> int {
        self.cell_count as int
    }

    /// Well-formedness: the flat store covers exactly the square, the square
    /// fits the machine arithmetic the board uses, and `Invalid` is never a
    /// stored value.
    pub open spec fn wf(self) -> bool {
        &&& self.cell_states@.len() == self.side() * self.side()
        &&& self.side() * self.side() <= u32::MAX as int
        &&& forall|i: int|
            0 <= i < self.cell_states@.len() ==> self.cell_states@[i] != CellState::Invalid
    }

    pub open spec fn spec_in_grid(self, row: int, col: int) -> bool {
        0 <= row < self.side() && 0 <= col < self.side()
    }

    /// The state a query at (row, col) observes: the stored slot inside the
    /// board, `Invalid` outside it.
    pub open spec fn spec_cell(self, row: int, col: int) -> CellState {
        if self.spec_in_grid(row, col) {
            self.cell_states@[row * self.side() + col]
        } else {
            CellState::Invalid
        }
    }

    pub open spec fn populated(self, row: int, col: int) -> bool {
        self.spec_cell(row, col) == CellState::Populated
    }

    /// No cell of the board is populated.
    pub open spec fn spec_empty(self) -> bool {
        forall|r: int, c: int| !self.populated(r, c)
    }

    /// Two boards hold the same state everywhere.
    pub open spec fn same_grid(a: LifeGrid, b: LifeGrid) -> bool {
        &&& a.cell_count == b.cell_count
        &&& forall|r: int, c: int| a.spec_cell(r, c) == b.spec_cell(r, c)
    }

    /// Inside the board a well-formed grid only ever shows `Populated` or
    /// `Vacant`.
    pub proof fn lemma_cell_valid(g: LifeGrid, row: int, col: int)
        requires
            g.wf(),
            g.spec_in_grid(row, col),
        ensures
            g.spec_cell(row, col) == CellState::Populated || g.spec_cell(row, col)
                == CellState::Vacant,
    {
        lemma_index(g.side(), row, col);
    }

    /// A fully vacant board with `cell_count` rows and columns.
    pub fn new(cell_count: u32) -> (g: LifeGrid)
        requires
            (cell_count as int) * (cell_count as int) <= u32::MAX as int,
        ensures
            g.wf(),
            g.cell_count == cell_count,
            forall|r: int, c: int|
                g.spec_in_grid(r, c) ==> g.spec_cell(r, c) == CellState::Vacant,
    {
        proof {
            vstd::arithmetic::mul::lemma_mul_nonnegative(cell_count as int, cell_count as int);
        }
        let total: u32 = cell_count * cell_count;
        let mut cell_states: Vec<CellState> = Vec::new();
        let mut i: u32 = 0;
        while i < total
            invariant
                i <= total,
                cell_states@.len() == i as int,
                forall|k: int| 0 <= k < i as int ==> cell_states@[k] == CellState::Vacant,
            decreases total - i,
        {
            cell_states.push(CellState::Vacant);
            i = i + 1;
        }
        let g = LifeGrid { cell_states, cell_count };
        proof {
            assert forall|r: int, c: int|
                g.spec_in_grid(r, c) implies g.spec_cell(r, c) == CellState::Vacant by {
                lemma_index(g.side(), r, c);
            }
        }
        g
    }

    /// The state stored at (row, col), or `Invalid` when the address misses
    /// the board.
    pub fn cell_state(&self, row: u32, col: u32) -> (s: CellState)
        requires
            self.wf(),
        ensures
            s == self.spec_cell(row as int, col as int),
    {
        if row < self.cell_count && col < self.cell_count {
            proof {
                lemma_index(self.side(), row as int, col as int);
            }
            self.cell_states[(row * self.cell_count + col) as usize]
        } else {
            CellState::Invalid
        }
    }

    /// Bounds test over signed coordinates, as neighbor offsets produce them.
    fn in_grid_signed(&self, row: i64, col: i64) -> (b: bool)
        ensures
            b == self.spec_in_grid(row as int, col as int),
    {
        0 <= row && row < self.cell_count as i64 && 0 <= col && col < self.cell_count as i64
    }

    fn is_populated(&self, row: i64, col: i64) -> (b: bool)
        requires
            self.wf(),
        ensures
            b == self.populated(row as int, col as int),
    {
        if self.in_grid_signed(row, col) {
            let s = self.cell_state(row as u32, col as u32);
            s == CellState::Populated
        } else {
            false
        }
    }

    /// Overwrites the slot at (row, col); an address outside the board is a
    /// deliberate no-op, never an error.
    pub fn set_cell_state(&mut self, row: u32, col: u32, state: CellState)
        requires
            old(self).wf(),
            state != CellState::Invalid,
        ensures
            final(self).wf(),
            final(self).cell_count == old(self).cell_count,
            forall|r: int, c: int|
                final(self).spec_cell(r, c) == (if r == row as int && c == col as int && old(
                    self,
                ).spec_in_grid(r, c) {
                    state
                } else {
                    old(self).spec_cell(r, c)
                }),
    {
        if row < self.cell_count && col < self.cell_count {
            proof {
                lemma_index(self.side(), row as int, col as int);
            }
            let index: usize = (row * self.cell_count + col) as usize;
            self.cell_states.set(index, state);
            proof {
                assert forall|r: int, c: int|
                    self.spec_cell(r, c) == (if r == row as int && c == col as int && old(
                        self,
                    ).spec_in_grid(r, c) {
                        state
                    } else {
                        old(self).spec_cell(r, c)
                    }) by {
                    if self.spec_in_grid(r, c) {
                        lemma_index(self.side(), r, c);
                        if !(r == row as int && c == col as int) {
                            lemma_index_injective(self.side(), r, c, row as int, col as int);
                        }
                    }
                }
            }
        }
    }

    /// How one `toggle_cell_state` call relates the board before to the board
    /// after: inside the board a `Populated` slot becomes `Vacant` and any
    /// other becomes `Populated`; an address outside changes nothing.
    pub open spec fn toggle_step(pre: LifeGrid, post: LifeGrid, row: int, col: int) -> bool {
        &&& post.wf()
        &&& post.cell_count == pre.cell_count
        &&& forall|r: int, c: int|
            post.spec_cell(r, c) == (if r == row && c == col && pre.spec_in_grid(r, c) {
                if pre.spec_cell(r, c) == CellState::Populated {
                    CellState::Vacant
                } else {
                    CellState::Populated
                }
            } else {
                pre.spec_cell(r, c)
            })
    }

    pub fn toggle_cell_state(&mut self, row: u32, col: u32)
        requires
            old(self).wf(),
        ensures
            LifeGrid::toggle_step(*old(self), *final(self), row as int, col as int),
    {
        let new_state = match self.cell_state(row, col) {
            CellState::Populated => CellState::Vacant,
            _ => CellState::Populated,
        };
        self.set_cell_state(row, col, new_state);
    }

    /// Two toggles of the same in-bounds or out-of-bounds address restore
    /// every slot of the board.
    pub proof fn lemma_toggle_involutive(
        a: LifeGrid,
        b: LifeGrid,
        c: LifeGrid,
        row: int,
        col: int,
    )
        requires
            a.wf(),
            LifeGrid::toggle_step(a, b, row, col),
            LifeGrid::toggle_step(b, c, row, col),
        ensures
            LifeGrid::same_grid(c, a),
    {
        assert forall|r: int, cc: int| c.spec_cell(r, cc) == a.spec_cell(r, cc) by {
            if r == row && cc == col && a.spec_in_grid(r, cc) {
                LifeGrid::lemma_cell_valid(a, r, cc);
            }
        }
    }

    /// Sets every slot of the board to `Vacant`.
    pub fn vacate_all_cells(&mut self)
        requires
            old(self).wf(),
        ensures
            final(self).wf(),
            final(self).cell_count == old(self).cell_count,
            forall|r: int, c: int|
                final(self).spec_in_grid(r, c) ==> final(self).spec_cell(r, c) == CellState::Vacant,
    {
        let total: usize = self.cell_states.len();
        let mut i: usize = 0;
        while i < total
            invariant
                i <= total,
                total == self.cell_states@.len(),
                self.cell_count == old(self).cell_count,
                self.cell_states@.len() == old(self).cell_states@.len(),
                forall|k: int| 0 <= k < i as int ==> self.cell_states@[k] == CellState::Vacant,
                forall|k: int|
                    i as int <= k < total as int ==> self.cell_states@[k] == old(
                        self,
                    ).cell_states@[k],
            decreases total - i,
        {
            self.cell_states.set(i, CellState::Vacant);
            i = i + 1;
        }
        proof {
            assert forall|r: int, c: int|
                self.spec_in_grid(r, c) implies self.spec_cell(r, c) == CellState::Vacant by {
                lemma_index(self.side(), r, c);
            }
        }
    }

    /// One if the cell at (row, col) is populated, else zero.
    pub open spec fn pop1(self, row: int, col: int) -> int {
        if self.populated(row, col) {
            1int
        } else {
            0int
        }
    }

    /// How many of the eight neighbors of (row, col) are populated; a
    /// neighbor outside the board counts as not populated.
    pub open spec fn spec_neighbors(self, row: int, col: int) -> int {
        self.pop1(row - 1, col - 1) + self.pop1(row - 1, col) + self.pop1(row - 1, col + 1)
            + self.pop1(row, col - 1) + self.pop1(row, col + 1) + self.pop1(row + 1, col - 1)
            + self.pop1(row + 1, col) + self.pop1(row + 1, col + 1)
    }

    /// The state of (row, col) in the next generation: a populated cell
    /// survives with two or three populated neighbors, a vacant cell is born
    /// with exactly three; every other cell is vacant.
    pub open spec fn next_state(self, row: int, col: int) -> CellState {
        if self.populated(row, col) && (self.spec_neighbors(row, col) == 2 || self.spec_neighbors(
            row,
            col,
        ) == 3) {
            CellState::Populated
        } else if self.spec_cell(row, col) == CellState::Vacant && self.spec_neighbors(row, col)
            == 3 {
            CellState::Populated
        } else {
            CellState::Vacant
        }
    }

    pub fn count_neighbors(&self, row: u32, col: u32) -> (n: u32)
        requires
            self.wf(),
        ensures
            n as int == self.spec_neighbors(row as int, col as int),
    {
        let r: i64 = row as i64;
        let c: i64 = col as i64;
        let mut n: u32 = 0;
        if self.is_populated(r - 1, c - 1) {
            n = n + 1;
        }
        if self.is_populated(r - 1, c) {
            n = n + 1;
        }
        if self.is_populated(r - 1, c + 1) {
            n = n + 1;
        }
        if self.is_populated(r, c - 1) {
            n = n + 1;
        }
        if self.is_populated(r, c + 1) {
            n = n + 1;
        }
        if self.is_populated(r + 1, c - 1) {
            n = n + 1;
        }
        if self.is_populated(r + 1, c) {
            n = n + 1;
        }
        if self.is_populated(r + 1, c + 1) {
            n = n + 1;
        }
        n
    }

    /// Clears the board and marks exactly the listed cells populated; a
    /// listed cell outside the board is dropped by `set_cell_state`.
    pub fn set_populated_cells(&mut self, populated_cells: Vec<Cell>)
        requires
            old(self).wf(),
        ensures
            final(self).wf(),
            final(self).cell_count == old(self).cell_count,
            forall|r: int, c: int|
                final(self).spec_in_grid(r, c) ==> (final(self).populated(r, c)
                    <==> populated_cells@.contains(Cell { row: r as u32, col: c as u32 })),
    {
        self.vacate_all_cells();
        let n: usize = populated_cells.len();
        let mut i: usize = 0;
        while i < n
            invariant
                i <= n,
                n == populated_cells@.len(),
                self.wf(),
                self.cell_count == old(self).cell_count,
                forall|r: int, c: int|
                    self.spec_in_grid(r, c) ==> (self.populated(r, c) <==> exists|k: int|
                        0 <= k < i as int && populated_cells@[k] == (Cell {
                            row: r as u32,
                            col: c as u32,
                        })),
            decreases n - i,
        {
            let cl = populated_cells[i];
            self.set_cell_state(cl.row, cl.col, CellState::Populated);
            proof {
                assert forall|r: int, c: int|
                    self.spec_in_grid(r, c) implies (self.populated(r, c) <==> exists|k: int|
                        0 <= k < i as int + 1 && populated_cells@[k] == (Cell {
                            row: r as u32,
                            col: c as u32,
                        })) by {
                    let target = Cell { row: r as u32, col: c as u32 };
                    if self.populated(r, c) {
                        if r == cl.row as int && c == cl.col as int {
                            assert(populated_cells@[i as int] == target);
                        }
                    } else {
                        assert forall|k: int|
                            0 <= k < i as int + 1 implies populated_cells@[k] != target by {
                            if k == i as int {
                                if populated_cells@[k] == target {
                                    assert(self.populated(r, c));
                                }
                            }
                        }
                    }
                }
            }
            i = i + 1;
        }
        proof {
            assert forall|r: int, c: int|
                self.spec_in_grid(r, c) implies (self.populated(r, c)
                    <==> populated_cells@.contains(Cell { row: r as u32, col: c as u32 })) by {
            }
        }
    }

    /// How one `evolve` call relates the board before to the board after:
    /// every cell takes its `next_state`, all judged against the old
    /// generation at once.
    pub open spec fn evolve_step(pre: LifeGrid, post: LifeGrid) -> bool {
        &&& post.wf()
        &&& post.cell_count == pre.cell_count
        &&& forall|r: int, c: int|
            pre.spec_in_grid(r, c) ==> post.spec_cell(r, c) == pre.next_state(r, c)
    }

    /// Replaces the whole board by the next generation of the standard rule.
    pub fn evolve(&mut self)
        requires
            old(self).wf(),
        ensures
            LifeGrid::evolve_step(*old(self), *final(self)),
    {
        let mut next_generation: Vec<Cell> = Vec::new();
        let mut row: u32 = 0;
        while row < self.cell_count
            invariant
                *self == *old(self),
                self.wf(),
                row <= self.cell_count,
                forall|cl: Cell|
                    next_generation@.contains(cl) <==> ((cl.row as int) < row as int
                        && self.spec_in_grid(cl.row as int, cl.col as int) && self.next_state(
                        cl.row as int,
                        cl.col as int,
                    ) == CellState::Populated),
            decreases self.cell_count - row,
        {
            let mut col: u32 = 0;
            while col < self.cell_count
                invariant
                    *self == *old(self),
                    self.wf(),
                    row < self.cell_count,
                    col <= self.cell_count,
                    forall|cl: Cell|
                        next_generation@.contains(cl) <==> (self.spec_in_grid(
                            cl.row as int,
                            cl.col as int,
                        ) && self.next_state(cl.row as int, cl.col as int) == CellState::Populated
                            && ((cl.row as int) < row as int || (cl.row as int == row as int
                            && (cl.col as int) < col as int))),
                decreases self.cell_count - col,
            {
                let state = self.cell_state(row, col);
                let neighbors = self.count_neighbors(row, col);
                let lives = if state == CellState::Populated {
                    neighbors == 2 || neighbors == 3
                } else if state == CellState::Vacant {
                    neighbors == 3
                } else {
                    false
                };
                if lives {
                    let ghost prev = next_generation@;
                    next_generation.push(Cell::new(row, col));
                    proof {
                        assert forall|cl: Cell|
                            next_generation@.contains(cl) <==> (self.spec_in_grid(
                                cl.row as int,
                                cl.col as int,
                            ) && self.next_state(cl.row as int, cl.col as int)
                                == CellState::Populated && ((cl.row as int) < row as int || (
                            cl.row as int == row as int && (cl.col as int) < col as int + 1))) by {
                            let pushed = Cell { row, col };
                            assert(next_generation@ == prev.push(pushed));
                            if cl == pushed {
                                assert(next_generation@[prev.len() as int] == pushed);
                                assert(next_generation@.contains(cl));
                            } else {
                                assert(next_generation@.contains(cl) <==> prev.contains(cl)) by {
                                    if next_generation@.contains(cl) {
                                        let k = choose|k: int|
                                            0 <= k < next_generation@.len()
                                                && next_generation@[k] == cl;
                                        assert(prev[k] == cl);
                                    } else {
                                        if prev.contains(cl) {
                                            let k = choose|k: int|
                                                0 <= k < prev.len() && prev[k] == cl;
                                            assert(next_generation@[k] == cl);
                                        }
                                    }
                                }
                            }
                        }
                    }
                } else {
                    proof {
                        assert forall|cl: Cell|
                            next_generation@.contains(cl) <==> (self.spec_in_grid(
                                cl.row as int,
                                cl.col as int,
                            ) && self.next_state(cl.row as int, cl.col as int)
                                == CellState::Populated && ((cl.row as int) < row as int || (
                            cl.row as int == row as int && (cl.col as int) < col as int + 1))) by {
                            if cl.row as int == row as int && cl.col as int == col as int {
                                assert(self.next_state(row as int, col as int)
                                    != CellState::Populated);
                            }
                        }
                    }
                }
                col = col + 1;
            }
            row = row + 1;
        }
        self.set_populated_cells(next_generation);
        proof {
            assert forall|r: int, c: int|
                old(self).spec_in_grid(r, c) implies self.spec_cell(r, c) == old(self).next_state(
                r,
                c,
            ) by {
                let target = Cell { row: r as u32, col: c as u32 };
                assert(self.populated(r, c) <==> (old(self).next_state(r, c)
                    == CellState::Populated));
                LifeGrid::lemma_cell_valid(*self, r, c);
                LifeGrid::lemma_cell_valid(*old(self), r, c);
            }
        }
    }

    /// One generation of an empty board is an empty board.
    pub proof fn lemma_evolve_empty(a: LifeGrid, b: LifeGrid)
        requires
            a.wf(),
            a.spec_empty(),
            LifeGrid::evolve_step(a, b),
        ensures
            b.spec_empty(),
    {
        assert forall|r: int, c: int| !b.populated(r, c) by {
            if b.spec_in_grid(r, c) {
                assert(a.spec_neighbors(r, c) == 0);
                assert(b.spec_cell(r, c) == a.next_state(r, c));
            }
        }
    }

    /// r is an occupied row and no occupied cell lies above it.
    pub open spec fn row_is_min(self, r: int) -> bool {
        &&& exists|c: int| self.populated(r, c)
        &&& forall|r2: int, c2: int| self.populated(r2, c2) ==> r <= r2
    }

    pub open spec fn col_is_min(self, c: int) -> bool {
        &&& exists|r: int| self.populated(r, c)
        &&& forall|r2: int, c2: int| self.populated(r2, c2) ==> c <= c2
    }

    pub open spec fn row_is_max(self, r: int) -> bool {
        &&& exists|c: int| self.populated(r, c)
        &&& forall|r2: int, c2: int| self.populated(r2, c2) ==> r2 <= r
    }

    pub open spec fn col_is_max(self, c: int) -> bool {
        &&& exists|r: int| self.populated(r, c)
        &&& forall|r2: int, c2: int| self.populated(r2, c2) ==> c2 <= c
    }

    /// The least occupied row. Meaningful only on a non-empty board.
    pub open spec fn spec_min_row(self) -> int {
        choose|r: int| self.row_is_min(r)
    }

    pub open spec fn spec_min_col(self) -> int {
        choose|c: int| self.col_is_min(c)
    }

    pub open spec fn spec_max_row(self) -> int {
        choose|r: int| self.row_is_max(r)
    }

    pub open spec fn spec_max_col(self) -> int {
        choose|c: int| self.col_is_max(c)
    }

    proof fn lemma_min_row_exists(g: LifeGrid, r0: int, c0: int)
        requires
            g.populated(r0, c0),
        ensures
            exists|r: int| g.row_is_min(r),
        decreases r0,
    {
        if forall|r2: int, c2: int| g.populated(r2, c2) ==> r0 <= r2 {
            assert(g.row_is_min(r0));
        } else {
            let (r2, c2) = choose|r2: int, c2: int| g.populated(r2, c2) && r2 < r0;
            LifeGrid::lemma_min_row_exists(g, r2, c2);
        }
    }

    proof fn lemma_min_col_exists(g: LifeGrid, r0: int, c0: int)
        requires
            g.populated(r0, c0),
        ensures
            exists|c: int| g.col_is_min(c),
        decreases c0,
    {
        if forall|r2: int, c2: int| g.populated(r2, c2) ==> c0 <= c2 {
            assert(g.col_is_min(c0));
        } else {
            let (r2, c2) = choose|r2: int, c2: int| g.populated(r2, c2) && c2 < c0;
            LifeGrid::lemma_min_col_exists(g, r2, c2);
        }
    }

    proof fn lemma_max_row_exists(g: LifeGrid, r0: int, c0: int)
        requires
            g.populated(r0, c0),
        ensures
            exists|r: int| g.row_is_max(r),
        decreases g.side() - r0,
    {
        if forall|r2: int, c2: int| g.populated(r2, c2) ==> r2 <= r0 {
            assert(g.row_is_max(r0));
        } else {
            let (r2, c2) = choose|r2: int, c2: int| g.populated(r2, c2) && r0 < r2;
            LifeGrid::lemma_max_row_exists(g, r2, c2);
        }
    }

    proof fn lemma_max_col_exists(g: LifeGrid, r0: int, c0: int)
        requires
            g.populated(r0, c0),
        ensures
            exists|c: int| g.col_is_max(c),
        decreases g.side() - c0,
    {
        if forall|r2: int, c2: int| g.populated(r2, c2) ==> c2 <= c0 {
            assert(g.col_is_max(c0));
        } else {
            let (r2, c2) = choose|r2: int, c2: int| g.populated(r2, c2) && c0 < c2;
            LifeGrid::lemma_max_col_exists(g, r2, c2);
        }
    }

    /// On a non-empty board the four bound functions do name occupied
    /// extremes, and every occupied cell lies inside the box they draw.
    pub proof fn lemma_bounds_characterize(g: LifeGrid)
        requires
            g.wf(),
            !g.spec_empty(),
        ensures
            g.row_is_min(g.spec_min_row()),
            g.col_is_min(g.spec_min_col()),
            g.row_is_max(g.spec_max_row()),
            g.col_is_max(g.spec_max_col()),
            0 <= g.spec_min_row() <= g.spec_max_row() < g.side(),
            0 <= g.spec_min_col() <= g.spec_max_col() < g.side(),
    {
        let (r0, c0) = choose|r: int, c: int| g.populated(r, c);
        assert(g.populated(r0, c0));
        LifeGrid::lemma_min_row_exists(g, r0, c0);
        LifeGrid::lemma_min_col_exists(g, r0, c0);
        LifeGrid::lemma_max_row_exists(g, r0, c0);
        LifeGrid::lemma_max_col_exists(g, r0, c0);
        let mr = g.spec_min_row();
        let xc = choose|c: int| g.populated(mr, c);
        assert(g.populated(mr, xc));
        let xr = g.spec_max_row();
        let yc = choose|c: int| g.populated(xr, c);
        assert(g.populated(xr, yc));
        let mc = g.spec_min_col();
        let zr = choose|r: int| g.populated(r, mc);
        assert(g.populated(zr, mc));
        let hc = g.spec_max_col();
        let wr = choose|r: int| g.populated(r, hc);
        assert(g.populated(wr, hc));
    }

    /// Whatever is an occupied-row minimum is the occupied-row minimum.
    pub proof fn lemma_min_row_is(g: LifeGrid, r: int)
        requires
            g.row_is_min(r),
        ensures
            g.spec_min_row() == r,
    {
        assert(g.row_is_min(g.spec_min_row()));
        let m = g.spec_min_row();
        let c1 = choose|c: int| g.populated(r, c);
        assert(g.populated(r, c1));
        let c2 = choose|c: int| g.populated(m, c);
        assert(g.populated(m, c2));
    }

    pub proof fn lemma_min_col_is(g: LifeGrid, c: int)
        requires
            g.col_is_min(c),
        ensures
            g.spec_min_col() == c,
    {
        assert(g.col_is_min(g.spec_min_col()));
        let m = g.spec_min_col();
        let r1 = choose|r: int| g.populated(r, c);
        assert(g.populated(r1, c));
        let r2 = choose|r: int| g.populated(r, m);
        assert(g.populated(r2, m));
    }

    pub proof fn lemma_max_row_is(g: LifeGrid, r: int)
        requires
            g.row_is_max(r),
        ensures
            g.spec_max_row() == r,
    {
        assert(g.row_is_max(g.spec_max_row()));
        let m = g.spec_max_row();
        let c1 = choose|c: int| g.populated(r, c);
        assert(g.populated(r, c1));
        let c2 = choose|c: int| g.populated(m, c);
        assert(g.populated(m, c2));
    }

    pub proof fn lemma_max_col_is(g: LifeGrid, c: int)
        requires
            g.col_is_max(c),
        ensures
            g.spec_max_col() == c,
    {
        assert(g.col_is_max(g.spec_max_col()));
        let m = g.spec_max_col();
        let r1 = choose|r: int| g.populated(r, c);
        assert(g.populated(r1, c));
        let r2 = choose|r: int| g.populated(r, m);
        assert(g.populated(r2, m));
    }

    fn make_odd(n: u32) -> (r: u32)
        requires
            n < u32::MAX,
        ensures
            r as int == LifeGrid::spec_make_odd(n as int),
    {
        if n % 2 == 0 {
            n + 1
        } else {
            n
        }
    }

    pub open spec fn spec_make_odd(n: int) -> int {
        if n % 2 == 0 {
            n + 1
        } else {
            n
        }
    }

    /// The least occupied row and column, or (u32::MAX, u32::MAX) when the
    /// board is empty.
    pub fn lower_bounds(&self) -> (b: Cell)
        requires
            self.wf(),
        ensures
            self.spec_empty() ==> b == (Cell { row: u32::MAX, col: u32::MAX }),
            !self.spec_empty() ==> b.row as int == self.spec_min_row() && b.col as int
                == self.spec_min_col(),
    {
        let mut low_row: u32 = u32::MAX;
        let mut low_col: u32 = u32::MAX;
        let mut row: u32 = 0;
        while row < self.cell_count
            invariant
                self.wf(),
                row <= self.cell_count,
                (low_row == u32::MAX && low_col == u32::MAX) <==> (forall|r: int, c: int|
                    r < row as int ==> !self.populated(r, c)),
                low_row == u32::MAX <==> low_col == u32::MAX,
                forall|r: int, c: int|
                    r < row as int && self.populated(r, c) ==> low_row as int <= r
                        && low_col as int <= c,
                low_row != u32::MAX ==> (exists|r: int, c: int|
                    r < row as int && self.populated(r, c) && r == low_row as int),
                low_row != u32::MAX ==> (exists|r: int, c: int|
                    r < row as int && self.populated(r, c) && c == low_col as int),
            decreases self.cell_count - row,
        {
            let mut col: u32 = 0;
            while col < self.cell_count
                invariant
                    self.wf(),
                    row < self.cell_count,
                    col <= self.cell_count,
                    (low_row == u32::MAX && low_col == u32::MAX) <==> (forall|r: int, c: int|
                        scanned_before(row as int, col as int, r, c) ==> !self.populated(r, c)),
                    low_row == u32::MAX <==> low_col == u32::MAX,
                    forall|r: int, c: int|
                        scanned_before(row as int, col as int, r, c) && self.populated(r, c)
                            ==> low_row as int <= r && low_col as int <= c,
                    low_row != u32::MAX ==> (exists|r: int, c: int|
                        scanned_before(row as int, col as int, r, c) && self.populated(r, c) && r
                            == low_row as int),
                    low_row != u32::MAX ==> (exists|r: int, c: int|
                        scanned_before(row as int, col as int, r, c) && self.populated(r, c) && c
                            == low_col as int),
                decreases self.cell_count - col,
            {
                let ghost prev_row = low_row;
                let ghost prev_col = low_col;
                if self.cell_state(row, col) == CellState::Populated {
                    if row < low_row {
                        low_row = row;
                    }
                    if col < low_col {
                        low_col = col;
                    }
                    proof {
                        assert(self.populated(row as int, col as int));
                        assert(scanned_before(row as int, col as int + 1, row as int, col as int));
                        if low_row as int == row as int {
                        } else {
                            assert(low_row == prev_row && prev_row != u32::MAX);
                        }
                        if low_col as int == col as int {
                        } else {
                            assert(low_col == prev_col && prev_col != u32::MAX);
                        }
                    }
                } else {
                    proof {
                        assert forall|r: int, c: int|
                            scanned_before(row as int, col as int + 1, r, c) && self.populated(
                                r,
                                c,
                            ) implies scanned_before(row as int, col as int, r, c) by {}
                    }
                }
                col = col + 1;
            }
            row = row + 1;
        }
        proof {
            if !self.spec_empty() {
                let (r0, c0) = choose|r: int, c: int| self.populated(r, c);
                assert(self.populated(r0, c0));
                assert(r0 < self.cell_count as int);
                assert(low_row != u32::MAX);
                let (ar, ac) = choose|r: int, c: int|
                    r < self.cell_count as int && self.populated(r, c) && r == low_row as int;
                assert(self.populated(ar, ac));
                assert(self.row_is_min(low_row as int));
                LifeGrid::lemma_min_row_is(*self, low_row as int);
                let (br, bc) = choose|r: int, c: int|
                    r < self.cell_count as int && self.populated(r, c) && c == low_col as int;
                assert(self.populated(br, bc));
                assert(self.col_is_min(low_col as int));
                LifeGrid::lemma_min_col_is(*self, low_col as int);
            }
        }
        Cell { row: low_row, col: low_col }
    }

    /// The greatest occupied row and column, or (0, 0) when the board is
    /// empty.
    pub fn upper_bounds(&self) -> (b: Cell)
        requires
            self.wf(),
        ensures
            self.spec_empty() ==> b == (Cell { row: 0, col: 0 }),
            !self.spec_empty() ==> b.row as int == self.spec_max_row() && b.col as int
                == self.spec_max_col(),
    {
        let mut high_row: u32 = 0;
        let mut high_col: u32 = 0;
        let mut row: u32 = 0;
        while row < self.cell_count
            invariant
                self.wf(),
                row <= self.cell_count,
                forall|r: int, c: int|
                    r < row as int && self.populated(r, c) ==> r <= high_row as int && c
                        <= high_col as int,
                (forall|r: int, c: int| r < row as int ==> !self.populated(r, c)) ==> high_row == 0
                    && high_col == 0,
                high_row != 0 ==> (exists|r: int, c: int|
                    r < row as int && self.populated(r, c) && r == high_row as int),
                high_col != 0 ==> (exists|r: int, c: int|
                    r < row as int && self.populated(r, c) && c == high_col as int),
            decreases self.cell_count - row,
        {
            let mut col: u32 = 0;
            while col < self.cell_count
                invariant
                    self.wf(),
                    row < self.cell_count,
                    col <= self.cell_count,
                    forall|r: int, c: int|
                        scanned_before(row as int, col as int, r, c) && self.populated(r, c) ==> r
                            <= high_row as int && c <= high_col as int,
                    (forall|r: int, c: int|
                        scanned_before(row as int, col as int, r, c) ==> !self.populated(r, c))
                        ==> high_row == 0 && high_col == 0,
                    high_row != 0 ==> (exists|r: int, c: int|
                        scanned_before(row as int, col as int, r, c) && self.populated(r, c) && r
                            == high_row as int),
                    high_col != 0 ==> (exists|r: int, c: int|
                        scanned_before(row as int, col as int, r, c) && self.populated(r, c) && c
                            == high_col as int),
                decreases self.cell_count - col,
            {
                if self.cell_state(row, col) == CellState::Populated {
                    if row > high_row {
                        high_row = row;
                    }
                    if col > high_col {
                        high_col = col;
                    }
                    proof {
                        assert(self.populated(row as int, col as int));
                        assert(scanned_before(row as int, col as int + 1, row as int, col as int));
                    }
                } else {
                    proof {
                        assert forall|r: int, c: int|
                            scanned_before(row as int, col as int + 1, r, c) && self.populated(
                                r,
                                c,
                            ) implies scanned_before(row as int, col as int, r, c) by {}
                    }
                }
                col = col + 1;
            }
            row = row + 1;
        }
        proof {
            if !self.spec_empty() {
                let (r0, c0) = choose|r: int, c: int| self.populated(r, c);
                assert(self.populated(r0, c0));
                assert(r0 < self.cell_count as int && c0 < self.cell_count as int);
                if high_row == 0 {
                    assert(self.populated(r0, c0) && r0 <= 0 && 0 <= r0);
                    assert(self.populated(0, c0) && high_row as int == 0);
                }
                assert(self.row_is_max(high_row as int));
                LifeGrid::lemma_max_row_is(*self, high_row as int);
                if high_col == 0 {
                    assert(self.populated(r0, c0) && c0 <= 0 && 0 <= c0);
                    assert(self.populated(r0, 0) && high_col as int == 0);
                }
                assert(self.col_is_max(high_col as int));
                LifeGrid::lemma_max_col_is(*self, high_col as int);
            }
        }
        Cell { row: high_row, col: high_col }
    }

    /// Height and width of the bounding box of the population, and the side
    /// of the odd square the rotations spin inside. Meaningful only on a
    /// non-empty board.
    pub open spec fn spec_height(self) -> int {
        self.spec_max_row() - self.spec_min_row() + 1
    }

    pub open spec fn spec_width(self) -> int {
        self.spec_max_col() - self.spec_min_col() + 1
    }

    pub open spec fn spec_square_size(self) -> int {
        if self.spec_width() > self.spec_height() {
            LifeGrid::spec_make_odd(self.spec_width())
        } else {
            LifeGrid::spec_make_odd(self.spec_height())
        }
    }

    /// Top row and left column of the odd square, centered on the bounding
    /// box; either may stick out of the board, even below zero.
    pub open spec fn spec_square_row(self) -> int {
        self.spec_min_row() - (self.spec_square_size() - self.spec_height()) / 2
    }

    pub open spec fn spec_square_col(self) -> int {
        self.spec_min_col() - (self.spec_square_size() - self.spec_width()) / 2
    }

    /// After a clockwise rotation the cell (r, c) is populated exactly when
    /// (r, c) lies in the square and its preimage under the quarter turn was.
    pub open spec fn rot_cw_source(self, r: int, c: int) -> bool {
        let s = self.spec_square_row();
        let t = self.spec_square_col();
        let n = self.spec_square_size();
        &&& s <= r < s + n
        &&& t <= c < t + n
        &&& self.populated(s + (n - 1) - (c - t), t + (r - s))
    }

    pub open spec fn rot_ccw_source(self, r: int, c: int) -> bool {
        let s = self.spec_square_row();
        let t = self.spec_square_col();
        let n = self.spec_square_size();
        &&& s <= r < s + n
        &&& t <= c < t + n
        &&& self.populated(s + (c - t), t + (n - 1) - (r - s))
    }

    /// `rot_cw_source` restricted to the square offsets a scan at (i, j) has
    /// already visited.
    pub open spec fn rot_cw_partial(self, r: int, c: int, i: int, j: int) -> bool {
        let s = self.spec_square_row();
        let t = self.spec_square_col();
        let n = self.spec_square_size();
        &&& self.spec_in_grid(r, c)
        &&& s <= r < s + n
        &&& t <= c < t + n
        &&& (r - s < i || (r - s == i && c - t < j))
        &&& self.populated(s + (n - 1) - (c - t), t + (r - s))
    }

    pub open spec fn rot_ccw_partial(self, r: int, c: int, i: int, j: int) -> bool {
        let s = self.spec_square_row();
        let t = self.spec_square_col();
        let n = self.spec_square_size();
        &&& self.spec_in_grid(r, c)
        &&& s <= r < s + n
        &&& t <= c < t + n
        &&& (r - s < i || (r - s == i && c - t < j))
        &&& self.populated(s + (c - t), t + (n - 1) - (r - s))
    }

    /// How one `rotate_clockwise` call relates the board before to the board
    /// after. An empty board is left as it is; else the population inside
    /// the odd square turns a quarter clockwise and whatever would land
    /// outside the board is dropped.
    pub open spec fn rot_cw_step(pre: LifeGrid, post: LifeGrid) -> bool {
        &&& post.wf()
        &&& post.cell_count == pre.cell_count
        &&& (pre.spec_empty() ==> LifeGrid::same_grid(post, pre))
        &&& (!pre.spec_empty() ==> forall|r: int, c: int|
            post.spec_in_grid(r, c) ==> (post.populated(r, c) <==> pre.rot_cw_source(r, c)))
    }

    pub open spec fn rot_ccw_step(pre: LifeGrid, post: LifeGrid) -> bool {
        &&& post.wf()
        &&& post.cell_count == pre.cell_count
        &&& (pre.spec_empty() ==> LifeGrid::same_grid(post, pre))
        &&& (!pre.spec_empty() ==> forall|r: int, c: int|
            post.spec_in_grid(r, c) ==> (post.populated(r, c) <==> pre.rot_ccw_source(r, c)))
    }

    /// Rotates the live population a quarter turn clockwise inside the odd
    /// square centered on its bounding box.
    pub fn rotate_clockwise(&mut self)
        requires
            old(self).wf(),
        ensures
            LifeGrid::rot_cw_step(*old(self), *final(self)),
    {
        proof {
            lemma_side_bound(self.side());
        }
        let lower = self.lower_bounds();
        if lower.row == u32::MAX {
            proof {
                if !self.spec_empty() {
                    LifeGrid::lemma_bounds_characterize(*self);
                }
            }
            return ;
        }
        proof {
            LifeGrid::lemma_bounds_characterize(*self);
        }
        let upper = self.upper_bounds();
        let height: u32 = upper.row - lower.row + 1;
        let width: u32 = upper.col - lower.col + 1;
        let size: u32 = if width > height {
            Self::make_odd(width)
        } else {
            Self::make_odd(height)
        };
        let sq_row: i64 = lower.row as i64 - ((size - height) / 2) as i64;
        let sq_col: i64 = lower.col as i64 - ((size - width) / 2) as i64;
        let cc: i64 = self.cell_count as i64;
        let ghost pre = *self;
        proof {
            assert(size as int == pre.spec_square_size());
            assert(sq_row as int == pre.spec_square_row());
            assert(sq_col as int == pre.spec_square_col());
        }
        let mut rotated: Vec<Cell> = Vec::new();
        let mut i: u32 = 0;
        while i < size
            invariant
                *self == pre,
                pre.wf(),
                !pre.spec_empty(),
                i <= size,
                cc == pre.side(),
                0 < size <= 65536,
                -70000 <= sq_row <= 70000,
                -70000 <= sq_col <= 70000,
                size as int == pre.spec_square_size(),
                sq_row as int == pre.spec_square_row(),
                sq_col as int == pre.spec_square_col(),
                forall|cl: Cell|
                    rotated@.contains(cl) <==> pre.rot_cw_partial(
                        cl.row as int,
                        cl.col as int,
                        i as int,
                        0,
                    ),
            decreases size - i,
        {
            let mut j: u32 = 0;
            while j < size
                invariant
                    *self == pre,
                    pre.wf(),
                    !pre.spec_empty(),
                    i < size,
                    j <= size,
                    cc == pre.side(),
                    0 < size <= 65536,
                    -70000 <= sq_row <= 70000,
                    -70000 <= sq_col <= 70000,
                    size as int == pre.spec_square_size(),
                    sq_row as int == pre.spec_square_row(),
                    sq_col as int == pre.spec_square_col(),
                    forall|cl: Cell|
                        rotated@.contains(cl) <==> pre.rot_cw_partial(
                            cl.row as int,
                            cl.col as int,
                            i as int,
                            j as int,
                        ),
                decreases size - j,
            {
                let tr: i64 = sq_row + i as i64;
                let tc: i64 = sq_col + j as i64;
                let sr: i64 = sq_row + (size - 1 - j) as i64;
                let sc: i64 = sq_col + i as i64;
                let ghost prev = rotated@;
                if self.in_grid_signed(tr, tc) && self.is_populated(sr, sc) {
                    rotated.push(Cell::new(tr as u32, tc as u32));
                    proof {
                        let pushed = Cell { row: tr as u32, col: tc as u32 };
                        assert(pushed.row as int == tr as int && pushed.col as int == tc as int);
                        assert forall|cl: Cell|
                            rotated@.contains(cl) <==> pre.rot_cw_partial(
                                cl.row as int,
                                cl.col as int,
                                i as int,
                                j as int + 1,
                            ) by {
                            lemma_push_contains(prev, pushed, cl);
                        }
                    }
                } else {
                    proof {
                        assert forall|cl: Cell|
                            rotated@.contains(cl) <==> pre.rot_cw_partial(
                                cl.row as int,
                                cl.col as int,
                                i as int,
                                j as int + 1,
                            ) by {}
                    }
                }
                j = j + 1;
            }
            i = i + 1;
        }
        self.set_populated_cells(rotated);
        proof {
            assert forall|r: int, c: int|
                self.spec_in_grid(r, c) implies (self.populated(r, c) <==> pre.rot_cw_source(
                r,
                c,
            )) by {
                let target = Cell { row: r as u32, col: c as u32 };
                assert(self.populated(r, c) <==> rotated@.contains(target));
                assert(target.row as int == r && target.col as int == c);
            }
        }
    }

    /// Rotates the live population a quarter turn counter-clockwise inside
    /// the odd square centered on its bounding box.
    pub fn rotate_counter_clockwise(&mut self)
        requires
            old(self).wf(),
        ensures
            LifeGrid::rot_ccw_step(*old(self), *final(self)),
    {
        proof {
            lemma_side_bound(self.side());
        }
        let lower = self.lower_bounds();
        if lower.row == u32::MAX {
            proof {
                if !self.spec_empty() {
                    LifeGrid::lemma_bounds_characterize(*self);
                }
            }
            return ;
        }
        proof {
            LifeGrid::lemma_bounds_characterize(*self);
        }
        let upper = self.upper_bounds();
        let height: u32 = upper.row - lower.row + 1;
        let width: u32 = upper.col - lower.col + 1;
        let size: u32 = if width > height {
            Self::make_odd(width)
        } else {
            Self::make_odd(height)
        };
        let sq_row: i64 = lower.row as i64 - ((size - height) / 2) as i64;
        let sq_col: i64 = lower.col as i64 - ((size - width) / 2) as i64;
        let cc: i64 = self.cell_count as i64;
        let ghost pre = *self;
        proof {
            assert(size as int == pre.spec_square_size());
            assert(sq_row as int == pre.spec_square_row());
            assert(sq_col as int == pre.spec_square_col());
        }
        let mut rotated: Vec<Cell> = Vec::new();
        let mut i: u32 = 0;
        while i < size
            invariant
                *self == pre,
                pre.wf(),
                !pre.spec_empty(),
                i <= size,
                cc == pre.side(),
                0 < size <= 65536,
                -70000 <= sq_row <= 70000,
                -70000 <= sq_col <= 70000,
                size as int == pre.spec_square_size(),
                sq_row as int == pre.spec_square_row(),
                sq_col as int == pre.spec_square_col(),
                forall|cl: Cell|
                    rotated@.contains(cl) <==> pre.rot_ccw_partial(
                        cl.row as int,
                        cl.col as int,
                        i as int,
                        0,
                    ),
            decreases size - i,
        {
            let mut j: u32 = 0;
            while j < size
                invariant
                    *self == pre,
                    pre.wf(),
                    !pre.spec_empty(),
                    i < size,
                    j <= size,
                    cc == pre.side(),
                    0 < size <= 65536,
                    -70000 <= sq_row <= 70000,
                    -70000 <= sq_col <= 70000,
                    size as int == pre.spec_square_size(),
                    sq_row as int == pre.spec_square_row(),
                    sq_col as int == pre.spec_square_col(),
                    forall|cl: Cell|
                        rotated@.contains(cl) <==> pre.rot_ccw_partial(
                            cl.row as int,
                            cl.col as int,
                            i as int,
                            j as int,
                        ),
                decreases size - j,
            {
                let tr: i64 = sq_row + i as i64;
                let tc: i64 = sq_col + j as i64;
                let sr: i64 = sq_row + j as i64;
                let sc: i64 = sq_col + (size - 1 - i) as i64;
                let ghost prev = rotated@;
                if self.in_grid_signed(tr, tc) && self.is_populated(sr, sc) {
                    rotated.push(Cell::new(tr as u32, tc as u32));
                    proof {
                        let pushed = Cell { row: tr as u32, col: tc as u32 };
                        assert(pushed.row as int == tr as int && pushed.col as int == tc as int);
                        assert forall|cl: Cell|
                            rotated@.contains(cl) <==> pre.rot_ccw_partial(
                                cl.row as int,
                                cl.col as int,
                                i as int,
                                j as int + 1,
                            ) by {
                            lemma_push_contains(prev, pushed, cl);
                        }
                    }
                } else {
                    proof {
                        assert forall|cl: Cell|
                            rotated@.contains(cl) <==> pre.rot_ccw_partial(
                                cl.row as int,
                                cl.col as int,
                                i as int,
                                j as int + 1,
                            ) by {}
                    }
                }
                j = j + 1;
            }
            i = i + 1;
        }
        self.set_populated_cells(rotated);
        proof {
            assert forall|r: int, c: int|
                self.spec_in_grid(r, c) implies (self.populated(r, c) <==> pre.rot_ccw_source(
                r,
                c,
            )) by {
                let target = Cell { row: r as u32, col: c as u32 };
                assert(self.populated(r, c) <==> rotated@.contains(target));
                assert(target.row as int == r && target.col as int == c);
            }
        }
    }

    /// After a horizontal flip the cell (r, c) is populated exactly when
    /// (r, c) lies in the bounding box and its mirror across the box's
    /// horizontal midline was.
    pub open spec fn flip_h_source(self, r: int, c: int) -> bool {
        &&& self.spec_min_row() <= r <= self.spec_max_row()
        &&& self.spec_min_col() <= c <= self.spec_max_col()
        &&& self.populated(self.spec_min_row() + self.spec_max_row() - r, c)
    }

    pub open spec fn flip_v_source(self, r: int, c: int) -> bool {
        &&& self.spec_min_row() <= r <= self.spec_max_row()
        &&& self.spec_min_col() <= c <= self.spec_max_col()
        &&& self.populated(r, self.spec_min_col() + self.spec_max_col() - c)
    }

    pub open spec fn flip_h_partial(self, r: int, c: int, i: int, j: int) -> bool {
        &&& self.flip_h_source(r, c)
        &&& (r - self.spec_min_row() < i || (r - self.spec_min_row() == i && c
            - self.spec_min_col() < j))
    }

    pub open spec fn flip_v_partial(self, r: int, c: int, i: int, j: int) -> bool {
        &&& self.flip_v_source(r, c)
        &&& (r - self.spec_min_row() < i || (r - self.spec_min_row() == i && c
            - self.spec_min_col() < j))
    }

    /// How one `flip_horizontal` call relates the board before to the board
    /// after. An empty board is left as it is; else the population is
    /// mirrored across the horizontal midline of its bounding box. Every
    /// live cell lies in that box, so although the whole board is rebuilt,
    /// only the box can hold life afterwards, as before.
    pub open spec fn flip_h_step(pre: LifeGrid, post: LifeGrid) -> bool {
        &&& post.wf()
        &&& post.cell_count == pre.cell_count
        &&& (pre.spec_empty() ==> LifeGrid::same_grid(post, pre))
        &&& (!pre.spec_empty() ==> forall|r: int, c: int|
            post.spec_in_grid(r, c) ==> (post.populated(r, c) <==> pre.flip_h_source(r, c)))
    }

    pub open spec fn flip_v_step(pre: LifeGrid, post: LifeGrid) -> bool {
        &&& post.wf()
        &&& post.cell_count == pre.cell_count
        &&& (pre.spec_empty() ==> LifeGrid::same_grid(post, pre))
        &&& (!pre.spec_empty() ==> forall|r: int, c: int|
            post.spec_in_grid(r, c) ==> (post.populated(r, c) <==> pre.flip_v_source(r, c)))
    }

    /// Mirrors the live population across the horizontal midline of its
    /// bounding box.
    pub fn flip_horizontal(&mut self)
        requires
            old(self).wf(),
        ensures
            LifeGrid::flip_h_step(*old(self), *final(self)),
    {
        proof {
            lemma_side_bound(self.side());
        }
        let lower = self.lower_bounds();
        if lower.row == u32::MAX {
            proof {
                if !self.spec_empty() {
                    LifeGrid::lemma_bounds_characterize(*self);
                }
            }
            return ;
        }
        proof {
            LifeGrid::lemma_bounds_characterize(*self);
        }
        let upper = self.upper_bounds();
        let ghost pre = *self;
        let mut flipped: Vec<Cell> = Vec::new();
        let mut r: u32 = lower.row;
        while r <= upper.row
            invariant
                *self == pre,
                pre.wf(),
                !pre.spec_empty(),
                lower.row as int == pre.spec_min_row(),
                lower.col as int == pre.spec_min_col(),
                upper.row as int == pre.spec_max_row(),
                upper.col as int == pre.spec_max_col(),
                0 <= lower.row as int <= upper.row as int,
                (upper.row as int) < pre.side(),
                pre.side() <= 65535,
                0 <= lower.col as int <= upper.col as int,
                (upper.col as int) < pre.side(),
                lower.row <= r,
                r as int <= upper.row as int + 1,
                forall|cl: Cell|
                    flipped@.contains(cl) <==> pre.flip_h_partial(
                        cl.row as int,
                        cl.col as int,
                        r as int - lower.row as int,
                        0,
                    ),
            decreases upper.row as int + 1 - r as int,
        {
            let mut c: u32 = lower.col;
            while c <= upper.col
                invariant
                    *self == pre,
                    pre.wf(),
                    !pre.spec_empty(),
                    lower.row as int == pre.spec_min_row(),
                    lower.col as int == pre.spec_min_col(),
                    upper.row as int == pre.spec_max_row(),
                    upper.col as int == pre.spec_max_col(),
                    0 <= lower.row as int <= upper.row as int,
                    (upper.row as int) < pre.side(),
                    pre.side() <= 65535,
                    0 <= lower.col as int <= upper.col as int,
                    (upper.col as int) < pre.side(),
                    lower.row <= r && r <= upper.row,
                    lower.col <= c,
                    c as int <= upper.col as int + 1,
                    forall|cl: Cell|
                        flipped@.contains(cl) <==> pre.flip_h_partial(
                            cl.row as int,
                            cl.col as int,
                            r as int - lower.row as int,
                            c as int - lower.col as int,
                        ),
                decreases upper.col as int + 1 - c as int,
            {
                let source_row: u32 = lower.row + upper.row - r;
                let ghost prev = flipped@;
                if self.cell_state(source_row, c) == CellState::Populated {
                    flipped.push(Cell::new(r, c));
                    proof {
                        let pushed = Cell { row: r, col: c };
                        assert forall|cl: Cell|
                            flipped@.contains(cl) <==> pre.flip_h_partial(
                                cl.row as int,
                                cl.col as int,
                                r as int - lower.row as int,
                                c as int - lower.col as int + 1,
                            ) by {
                            lemma_push_contains(prev, pushed, cl);
                        }
                    }
                } else {
                    proof {
                        assert forall|cl: Cell|
                            flipped@.contains(cl) <==> pre.flip_h_partial(
                                cl.row as int,
                                cl.col as int,
                                r as int - lower.row as int,
                                c as int - lower.col as int + 1,
                            ) by {}
                    }
                }
                c = c + 1;
            }
            r = r + 1;
        }
        self.set_populated_cells(flipped);
        proof {
            assert forall|rr: int, cc2: int|
                self.spec_in_grid(rr, cc2) implies (self.populated(rr, cc2)
                    <==> pre.flip_h_source(rr, cc2)) by {
                let target = Cell { row: rr as u32, col: cc2 as u32 };
                assert(self.populated(rr, cc2) <==> flipped@.contains(target));
                assert(target.row as int == rr && target.col as int == cc2);
            }
        }
    }

    /// Mirrors the live population across the vertical midline of its
    /// bounding box.
    pub fn flip_vertical(&mut self)
        requires
            old(self).wf(),
        ensures
            LifeGrid::flip_v_step(*old(self), *final(self)),
    {
        proof {
            lemma_side_bound(self.side());
        }
        let lower = self.lower_bounds();
        if lower.row == u32::MAX {
            proof {
                if !self.spec_empty() {
                    LifeGrid::lemma_bounds_characterize(*self);
                }
            }
            return ;
        }
        proof {
            LifeGrid::lemma_bounds_characterize(*self);
        }
        let upper = self.upper_bounds();
        let ghost pre = *self;
        let mut flipped: Vec<Cell> = Vec::new();
        let mut r: u32 = lower.row;
        while r <= upper.row
            invariant
                *self == pre,
                pre.wf(),
                !pre.spec_empty(),
                lower.row as int == pre.spec_min_row(),
                lower.col as int == pre.spec_min_col(),
                upper.row as int == pre.spec_max_row(),
                upper.col as int == pre.spec_max_col(),
                0 <= lower.row as int <= upper.row as int,
                (upper.row as int) < pre.side(),
                pre.side() <= 65535,
                0 <= lower.col as int <= upper.col as int,
                (upper.col as int) < pre.side(),
                lower.row <= r,
                r as int <= upper.row as int + 1,
                forall|cl: Cell|
                    flipped@.contains(cl) <==> pre.flip_v_partial(
                        cl.row as int,
                        cl.col as int,
                        r as int - lower.row as int,
                        0,
                    ),
            decreases upper.row as int + 1 - r as int,
        {
            let mut c: u32 = lower.col;
            while c <= upper.col
                invariant
                    *self == pre,
                    pre.wf(),
                    !pre.spec_empty(),
                    lower.row as int == pre.spec_min_row(),
                    lower.col as int == pre.spec_min_col(),
                    upper.row as int == pre.spec_max_row(),
                    upper.col as int == pre.spec_max_col(),
                    0 <= lower.row as int <= upper.row as int,
                    (upper.row as int) < pre.side(),
                    pre.side() <= 65535,
                    0 <= lower.col as int <= upper.col as int,
                    (upper.col as int) < pre.side(),
                    lower.row <= r && r <= upper.row,
                    lower.col <= c,
                    c as int <= upper.col as int + 1,
                    forall|cl: Cell|
                        flipped@.contains(cl) <==> pre.flip_v_partial(
                            cl.row as int,
                            cl.col as int,
                            r as int - lower.row as int,
                            c as int - lower.col as int,
                        ),
                decreases upper.col as int + 1 - c as int,
            {
                let source_col: u32 = lower.col + upper.col - c;
                let ghost prev = flipped@;
                if self.cell_state(r, source_col) == CellState::Populated {
                    flipped.push(Cell::new(r, c));
                    proof {
                        let pushed = Cell { row: r, col: c };
                        assert forall|cl: Cell|
                            flipped@.contains(cl) <==> pre.flip_v_partial(
                                cl.row as int,
                                cl.col as int,
                                r as int - lower.row as int,
                                c as int - lower.col as int + 1,
                            ) by {
                            lemma_push_contains(prev, pushed, cl);
                        }
                    }
                } else {
                    proof {
                        assert forall|cl: Cell|
                            flipped@.contains(cl) <==> pre.flip_v_partial(
                                cl.row as int,
                                cl.col as int,
                                r as int - lower.row as int,
                                c as int - lower.col as int + 1,
                            ) by {}
                    }
                }
                c = c + 1;
            }
            r = r + 1;
        }
        self.set_populated_cells(flipped);
        proof {
            assert forall|rr: int, cc2: int|
                self.spec_in_grid(rr, cc2) implies (self.populated(rr, cc2)
                    <==> pre.flip_v_source(rr, cc2)) by {
                let target = Cell { row: rr as u32, col: cc2 as u32 };
                assert(self.populated(rr, cc2) <==> flipped@.contains(target));
                assert(target.row as int == rr && target.col as int == cc2);
            }
        }
    }

    /// How one `shift_up` call relates the board before to the board after:
    /// every row moves up one step and the top row wraps to the bottom.
    pub open spec fn shift_up_step(pre: LifeGrid, post: LifeGrid) -> bool {
        &&& post.wf()
        &&& post.cell_count == pre.cell_count
        &&& forall|r: int, c: int|
            post.spec_in_grid(r, c) ==> post.spec_cell(r, c) == pre.spec_cell(
                if r == pre.side() - 1 {
                    0
                } else {
                    r + 1
                },
                c,
            )
    }

    pub open spec fn shift_down_step(pre: LifeGrid, post: LifeGrid) -> bool {
        &&& post.wf()
        &&& post.cell_count == pre.cell_count
        &&& forall|r: int, c: int|
            post.spec_in_grid(r, c) ==> post.spec_cell(r, c) == pre.spec_cell(
                if r == 0 {
                    pre.side() - 1
                } else {
                    r - 1
                },
                c,
            )
    }

    pub open spec fn shift_left_step(pre: LifeGrid, post: LifeGrid) -> bool {
        &&& post.wf()
        &&& post.cell_count == pre.cell_count
        &&& forall|r: int, c: int|
            post.spec_in_grid(r, c) ==> post.spec_cell(r, c) == pre.spec_cell(
                r,
                if c == pre.side() - 1 {
                    0
                } else {
                    c + 1
                },
            )
    }

    pub open spec fn shift_right_step(pre: LifeGrid, post: LifeGrid) -> bool {
        &&& post.wf()
        &&& post.cell_count == pre.cell_count
        &&& forall|r: int, c: int|
            post.spec_in_grid(r, c) ==> post.spec_cell(r, c) == pre.spec_cell(
                r,
                if c == 0 {
                    pre.side() - 1
                } else {
                    c - 1
                },
            )
    }

    /// Moves the whole board up one row; the top row wraps to the bottom.
    pub fn shift_up(&mut self)
        requires
            old(self).wf(),
        ensures
            LifeGrid::shift_up_step(*old(self), *final(self)),
    {
        if self.cell_count == 0 {
            return ;
        }
        let max_row: u32 = self.cell_count - 1;
        let mut top_row: Vec<CellState> = Vec::new();
        let mut col: u32 = 0;
        while col < self.cell_count
            invariant
                *self == *old(self),
                self.wf(),
                col <= self.cell_count,
                top_row@.len() == col as int,
                forall|k: int| 0 <= k < col as int ==> top_row@[k] == self.spec_cell(0, k),
            decreases self.cell_count - col,
        {
            top_row.push(self.cell_state(0, col));
            col = col + 1;
        }
        let mut row: u32 = 0;
        while row < max_row
            invariant
                self.wf(),
                self.cell_count == old(self).cell_count,
                old(self).wf(),
                max_row as int == self.side() - 1,
                row <= max_row,
                top_row@.len() == self.side(),
                forall|k: int| 0 <= k < top_row@.len() ==> top_row@[k] == old(self).spec_cell(0, k),
                forall|r: int, c: int|
                    #![trigger self.spec_cell(r, c)]
                    self.spec_in_grid(r, c) && r < row as int ==> self.spec_cell(r, c) == old(
                        self,
                    ).spec_cell(r + 1, c),
                forall|r: int, c: int|
                    #![trigger self.spec_cell(r, c)]
                    self.spec_in_grid(r, c) && r >= row as int ==> self.spec_cell(r, c) == old(
                        self,
                    ).spec_cell(r, c),
            decreases max_row - row,
        {
            let mut col2: u32 = 0;
            while col2 < self.cell_count
                invariant
                    self.wf(),
                    self.cell_count == old(self).cell_count,
                    old(self).wf(),
                old(self).wf(),
                    max_row as int == self.side() - 1,
                    row < max_row,
                    col2 <= self.cell_count,
                    forall|r: int, c: int|
                        #![trigger self.spec_cell(r, c)]
                        self.spec_in_grid(r, c) && r < row as int ==> self.spec_cell(r, c) == old(
                            self,
                        ).spec_cell(r + 1, c),
                    forall|c: int|
                        #![trigger self.spec_cell(row as int, c)]
                        0 <= c < col2 as int ==> self.spec_cell(row as int, c) == old(
                            self,
                        ).spec_cell(row as int + 1, c),
                    forall|c: int|
                        #![trigger self.spec_cell(row as int, c)]
                        col2 as int <= c < self.side() ==> self.spec_cell(row as int, c) == old(
                            self,
                        ).spec_cell(row as int, c),
                    forall|r: int, c: int|
                        #![trigger self.spec_cell(r, c)]
                        self.spec_in_grid(r, c) && r > row as int ==> self.spec_cell(r, c) == old(
                            self,
                        ).spec_cell(r, c),
                decreases self.cell_count - col2,
            {
                let state = self.cell_state(row + 1, col2);
                proof {
                    LifeGrid::lemma_cell_valid(*self, row as int + 1, col2 as int);
                }
                self.set_cell_state(row, col2, state);
                col2 = col2 + 1;
            }
            row = row + 1;
        }
        let mut col3: u32 = 0;
        while col3 < self.cell_count
            invariant
                self.wf(),
                self.cell_count == old(self).cell_count,
                old(self).wf(),
                max_row as int == self.side() - 1,
                col3 <= self.cell_count,
                top_row@.len() == self.side(),
                forall|k: int| 0 <= k < top_row@.len() ==> top_row@[k] == old(self).spec_cell(0, k),
                forall|r: int, c: int|
                    #![trigger self.spec_cell(r, c)]
                    self.spec_in_grid(r, c) && r < max_row as int ==> self.spec_cell(r, c) == old(
                        self,
                    ).spec_cell(r + 1, c),
                forall|c: int|
                    #![trigger self.spec_cell(max_row as int, c)]
                    0 <= c < col3 as int ==> self.spec_cell(max_row as int, c) == old(
                        self,
                    ).spec_cell(0, c),
                forall|c: int|
                    #![trigger self.spec_cell(max_row as int, c)]
                    col3 as int <= c < self.side() ==> self.spec_cell(max_row as int, c) == old(
                        self,
                    ).spec_cell(max_row as int, c),
            decreases self.cell_count - col3,
        {
            let state = top_row[col3 as usize];
            proof {
                LifeGrid::lemma_cell_valid(*old(self), 0, col3 as int);
            }
            self.set_cell_state(max_row, col3, state);
            col3 = col3 + 1;
        }
    }

    /// Moves the whole board down one row; the bottom row wraps to the top.
    #[verifier::rlimit(30)]
    pub fn shift_down(&mut self)
        requires
            old(self).wf(),
        ensures
            LifeGrid::shift_down_step(*old(self), *final(self)),
    {
        if self.cell_count == 0 {
            return ;
        }
        let max_row: u32 = self.cell_count - 1;
        let mut bottom_row: Vec<CellState> = Vec::new();
        let mut col: u32 = 0;
        while col < self.cell_count
            invariant
                *self == *old(self),
                self.wf(),
                col <= self.cell_count,
                max_row as int == self.side() - 1,
                bottom_row@.len() == col as int,
                forall|k: int|
                    0 <= k < col as int ==> bottom_row@[k] == self.spec_cell(max_row as int, k),
            decreases self.cell_count - col,
        {
            bottom_row.push(self.cell_state(max_row, col));
            col = col + 1;
        }
        let mut row: u32 = max_row;
        while row > 0
            invariant
                self.wf(),
                self.cell_count == old(self).cell_count,
                old(self).wf(),
                max_row as int == self.side() - 1,
                row <= max_row,
                bottom_row@.len() == self.side(),
                forall|k: int|
                    0 <= k < bottom_row@.len() ==> bottom_row@[k] == old(self).spec_cell(
                        max_row as int,
                        k,
                    ),
                forall|r: int, c: int|
                    self.spec_in_grid(r, c) && r > row as int ==> self.spec_cell(r, c) == old(
                        self,
                    ).spec_cell(r - 1, c),
                forall|r: int, c: int|
                    self.spec_in_grid(r, c) && r <= row as int ==> self.spec_cell(r, c) == old(
                        self,
                    ).spec_cell(r, c),
            decreases row,
        {
            let mut col2: u32 = 0;
            while col2 < self.cell_count
                invariant
                    self.wf(),
                    self.cell_count == old(self).cell_count,
                    old(self).wf(),
                old(self).wf(),
                    max_row as int == self.side() - 1,
                    0 < row <= max_row,
                    col2 <= self.cell_count,
                    forall|r: int, c: int|
                        self.spec_in_grid(r, c) && r > row as int ==> self.spec_cell(r, c) == old(
                            self,
                        ).spec_cell(r - 1, c),
                    forall|c: int|
                        0 <= c < col2 as int ==> self.spec_cell(row as int, c) == old(
                            self,
                        ).spec_cell(row as int - 1, c),
                    forall|c: int|
                        col2 as int <= c < self.side() ==> self.spec_cell(row as int, c) == old(
                            self,
                        ).spec_cell(row as int, c),
                    forall|r: int, c: int|
                        self.spec_in_grid(r, c) && r < row as int ==> self.spec_cell(r, c) == old(
                            self,
                        ).spec_cell(r, c),
                decreases self.cell_count - col2,
            {
                let state = self.cell_state(row - 1, col2);
                proof {
                    LifeGrid::lemma_cell_valid(*self, row as int - 1, col2 as int);
                }
                self.set_cell_state(row, col2, state);
                col2 = col2 + 1;
            }
            row = row - 1;
        }
        let mut col3: u32 = 0;
        while col3 < self.cell_count
            invariant
                self.wf(),
                self.cell_count == old(self).cell_count,
                old(self).wf(),
                max_row as int == self.side() - 1,
                col3 <= self.cell_count,
                bottom_row@.len() == self.side(),
                forall|k: int|
                    0 <= k < bottom_row@.len() ==> bottom_row@[k] == old(self).spec_cell(
                        max_row as int,
                        k,
                    ),
                forall|r: int, c: int|
                    self.spec_in_grid(r, c) && r > 0 ==> self.spec_cell(r, c) == old(
                        self,
                    ).spec_cell(r - 1, c),
                forall|c: int|
                    0 <= c < col3 as int ==> self.spec_cell(0, c) == old(self).spec_cell(
                        max_row as int,
                        c,
                    ),
                forall|c: int|
                    col3 as int <= c < self.side() ==> self.spec_cell(0, c) == old(self).spec_cell(
                        0,
                        c,
                    ),
            decreases self.cell_count - col3,
        {
            let state = bottom_row[col3 as usize];
            proof {
                LifeGrid::lemma_cell_valid(*old(self), max_row as int, col3 as int);
            }
            self.set_cell_state(0, col3, state);
            col3 = col3 + 1;
        }
    }

    /// Moves the whole board left one column; the left column wraps to the
    /// right edge.
    #[verifier::rlimit(30)]
    pub fn shift_left(&mut self)
        requires
            old(self).wf(),
        ensures
            LifeGrid::shift_left_step(*old(self), *final(self)),
    {
        if self.cell_count == 0 {
            return ;
        }
        let max_col: u32 = self.cell_count - 1;
        let mut left_column: Vec<CellState> = Vec::new();
        let mut row: u32 = 0;
        while row < self.cell_count
            invariant
                *self == *old(self),
                self.wf(),
                row <= self.cell_count,
                left_column@.len() == row as int,
                forall|k: int| 0 <= k < row as int ==> left_column@[k] == self.spec_cell(k, 0),
            decreases self.cell_count - row,
        {
            left_column.push(self.cell_state(row, 0));
            row = row + 1;
        }
        let mut col: u32 = 0;
        while col < max_col
            invariant
                self.wf(),
                self.cell_count == old(self).cell_count,
                old(self).wf(),
                max_col as int == self.side() - 1,
                col <= max_col,
                left_column@.len() == self.side(),
                forall|k: int|
                    0 <= k < left_column@.len() ==> left_column@[k] == old(self).spec_cell(k, 0),
                forall|r: int, c: int|
                    self.spec_in_grid(r, c) && c < col as int ==> self.spec_cell(r, c) == old(
                        self,
                    ).spec_cell(r, c + 1),
                forall|r: int, c: int|
                    self.spec_in_grid(r, c) && c >= col as int ==> self.spec_cell(r, c) == old(
                        self,
                    ).spec_cell(r, c),
            decreases max_col - col,
        {
            let mut row2: u32 = 0;
            while row2 < self.cell_count
                invariant
                    self.wf(),
                    self.cell_count == old(self).cell_count,
                    old(self).wf(),
                old(self).wf(),
                    max_col as int == self.side() - 1,
                    col < max_col,
                    row2 <= self.cell_count,
                    forall|r: int, c: int|
                        self.spec_in_grid(r, c) && c < col as int ==> self.spec_cell(r, c) == old(
                            self,
                        ).spec_cell(r, c + 1),
                    forall|r: int|
                        0 <= r < row2 as int ==> self.spec_cell(r, col as int) == old(
                            self,
                        ).spec_cell(r, col as int + 1),
                    forall|r: int|
                        row2 as int <= r < self.side() ==> self.spec_cell(r, col as int) == old(
                            self,
                        ).spec_cell(r, col as int),
                    forall|r: int, c: int|
                        self.spec_in_grid(r, c) && c > col as int ==> self.spec_cell(r, c) == old(
                            self,
                        ).spec_cell(r, c),
                decreases self.cell_count - row2,
            {
                let state = self.cell_state(row2, col + 1);
                proof {
                    LifeGrid::lemma_cell_valid(*self, row2 as int, col as int + 1);
                }
                self.set_cell_state(row2, col, state);
                row2 = row2 + 1;
            }
            col = col + 1;
        }
        let mut row3: u32 = 0;
        while row3 < self.cell_count
            invariant
                self.wf(),
                self.cell_count == old(self).cell_count,
                old(self).wf(),
                max_col as int == self.side() - 1,
                row3 <= self.cell_count,
                left_column@.len() == self.side(),
                forall|k: int|
                    0 <= k < left_column@.len() ==> left_column@[k] == old(self).spec_cell(k, 0),
                forall|r: int, c: int|
                    self.spec_in_grid(r, c) && c < max_col as int ==> self.spec_cell(r, c) == old(
                        self,
                    ).spec_cell(r, c + 1),
                forall|r: int|
                    0 <= r < row3 as int ==> self.spec_cell(r, max_col as int) == old(
                        self,
                    ).spec_cell(r, 0),
                forall|r: int|
                    row3 as int <= r < self.side() ==> self.spec_cell(r, max_col as int) == old(
                        self,
                    ).spec_cell(r, max_col as int),
            decreases self.cell_count - row3,
        {
            let state = left_column[row3 as usize];
            proof {
                LifeGrid::lemma_cell_valid(*old(self), row3 as int, 0);
            }
            self.set_cell_state(row3, max_col, state);
            row3 = row3 + 1;
        }
    }

    /// Moves the whole board right one column; the right column wraps to the
    /// left edge.
    #[verifier::rlimit(30)]
    pub fn shift_right(&mut self)
        requires
            old(self).wf(),
        ensures
            LifeGrid::shift_right_step(*old(self), *final(self)),
    {
        if self.cell_count == 0 {
            return ;
        }
        let max_col: u32 = self.cell_count - 1;
        let mut right_column: Vec<CellState> = Vec::new();
        let mut row: u32 = 0;
        while row < self.cell_count
            invariant
                *self == *old(self),
                self.wf(),
                row <= self.cell_count,
                max_col as int == self.side() - 1,
                right_column@.len() == row as int,
                forall|k: int|
                    0 <= k < row as int ==> right_column@[k] == self.spec_cell(k, max_col as int),
            decreases self.cell_count - row,
        {
            right_column.push(self.cell_state(row, max_col));
            row = row + 1;
        }
        let mut col: u32 = max_col;
        while col > 0
            invariant
                self.wf(),
                self.cell_count == old(self).cell_count,
                old(self).wf(),
                max_col as int == self.side() - 1,
                col <= max_col,
                right_column@.len() == self.side(),
                forall|k: int|
                    0 <= k < right_column@.len() ==> right_column@[k] == old(self).spec_cell(
                        k,
                        max_col as int,
                    ),
                forall|r: int, c: int|
                    self.spec_in_grid(r, c) && c > col as int ==> self.spec_cell(r, c) == old(
                        self,
                    ).spec_cell(r, c - 1),
                forall|r: int, c: int|
                    self.spec_in_grid(r, c) && c <= col as int ==> self.spec_cell(r, c) == old(
                        self,
                    ).spec_cell(r, c),
            decreases col,
        {
            let mut row2: u32 = 0;
            while row2 < self.cell_count
                invariant
                    self.wf(),
                    self.cell_count == old(self).cell_count,
                    old(self).wf(),
                old(self).wf(),
                    max_col as int == self.side() - 1,
                    0 < col <= max_col,
                    row2 <= self.cell_count,
                    forall|r: int, c: int|
                        self.spec_in_grid(r, c) && c > col as int ==> self.spec_cell(r, c) == old(
                            self,
                        ).spec_cell(r, c - 1),
                    forall|r: int|
                        0 <= r < row2 as int ==> self.spec_cell(r, col as int) == old(
                            self,
                        ).spec_cell(r, col as int - 1),
                    forall|r: int|
                        row2 as int <= r < self.side() ==> self.spec_cell(r, col as int) == old(
                            self,
                        ).spec_cell(r, col as int),
                    forall|r: int, c: int|
                        self.spec_in_grid(r, c) && c < col as int ==> self.spec_cell(r, c) == old(
                            self,
                        ).spec_cell(r, c),
                decreases self.cell_count - row2,
            {
                let state = self.cell_state(row2, col - 1);
                proof {
                    LifeGrid::lemma_cell_valid(*self, row2 as int, col as int - 1);
                }
                self.set_cell_state(row2, col, state);
                row2 = row2 + 1;
            }
            col = col - 1;
        }
        let mut row3: u32 = 0;
        while row3 < self.cell_count
            invariant
                self.wf(),
                self.cell_count == old(self).cell_count,
                old(self).wf(),
                max_col as int == self.side() - 1,
                row3 <= self.cell_count,
                right_column@.len() == self.side(),
                forall|k: int|
                    0 <= k < right_column@.len() ==> right_column@[k] == old(self).spec_cell(
                        k,
                        max_col as int,
                    ),
                forall|r: int, c: int|
                    self.spec_in_grid(r, c) && c > 0 ==> self.spec_cell(r, c) == old(
                        self,
                    ).spec_cell(r, c - 1),
                forall|r: int|
                    0 <= r < row3 as int ==> self.spec_cell(r, 0) == old(self).spec_cell(
                        r,
                        max_col as int,
                    ),
                forall|r: int|
                    row3 as int <= r < self.side() ==> self.spec_cell(r, 0) == old(self).spec_cell(
                        r,
                        0,
                    ),
            decreases self.cell_count - row3,
        {
            let state = right_column[row3 as usize];
            proof {
                LifeGrid::lemma_cell_valid(*old(self), row3 as int, max_col as int);
            }
            self.set_cell_state(row3, 0, state);
            row3 = row3 + 1;
        }
    }

    /// Shifting up and then down restores every slot of the board; the
    /// wrap-around translation is lossless and invertible.
    pub proof fn lemma_shift_up_down(a: LifeGrid, b: LifeGrid, c: LifeGrid)
        requires
            LifeGrid::shift_up_step(a, b),
            LifeGrid::shift_down_step(b, c),
        ensures
            LifeGrid::same_grid(c, a),
    {
        assert forall|r: int, cc: int| c.spec_cell(r, cc) == a.spec_cell(r, cc) by {
            if c.spec_in_grid(r, cc) {
                if r == 0 {
                    assert(c.spec_cell(r, cc) == b.spec_cell(b.side() - 1, cc));
                } else {
                    assert(c.spec_cell(r, cc) == b.spec_cell(r - 1, cc));
                }
            }
        }
    }

    /// Shifting left and then right restores every slot of the board.
    pub proof fn lemma_shift_left_right(a: LifeGrid, b: LifeGrid, c: LifeGrid)
        requires
            LifeGrid::shift_left_step(a, b),
            LifeGrid::shift_right_step(b, c),
        ensures
            LifeGrid::same_grid(c, a),
    {
        assert forall|r: int, cc: int| c.spec_cell(r, cc) == a.spec_cell(r, cc) by {
            if c.spec_in_grid(r, cc) {
                if cc == 0 {
                    assert(c.spec_cell(r, cc) == b.spec_cell(r, b.side() - 1));
                } else {
                    assert(c.spec_cell(r, cc) == b.spec_cell(r, cc - 1));
                }
            }
        }
    }

    /// Two horizontal flips restore every slot of the board.
    pub proof fn lemma_flip_h_involutive(a: LifeGrid, b: LifeGrid, c: LifeGrid)
        requires
            a.wf(),
            LifeGrid::flip_h_step(a, b),
            LifeGrid::flip_h_step(b, c),
        ensures
            LifeGrid::same_grid(c, a),
    {
        if a.spec_empty() {
            assert forall|r: int, c2: int| !b.populated(r, c2) by {
                assert(!a.populated(r, c2));
                assert(b.spec_cell(r, c2) == a.spec_cell(r, c2));
            }
            assert(b.spec_empty());
            assert forall|r: int, c2: int| c.spec_cell(r, c2) == a.spec_cell(r, c2) by {
                assert(c.spec_cell(r, c2) == b.spec_cell(r, c2));
            }
        } else {
            LifeGrid::lemma_bounds_characterize(a);
            let lo_r = a.spec_min_row();
            let hi_r = a.spec_max_row();
            let lo_c = a.spec_min_col();
            let hi_c = a.spec_max_col();
            let (r0, c0) = choose|r: int, c: int| a.populated(r, c);
            assert(a.populated(r0, c0));
            assert(b.populated(lo_r + hi_r - r0, c0)) by {
                assert(a.flip_h_source(lo_r + hi_r - r0, c0));
            }
            assert(!b.spec_empty());
            assert(b.row_is_min(lo_r)) by {
                let ct = choose|c2: int| a.populated(hi_r, c2);
                assert(a.populated(hi_r, ct));
                assert(a.flip_h_source(lo_r, ct));
                assert(b.populated(lo_r, ct));
                assert forall|r2: int, c2: int| b.populated(r2, c2) implies lo_r <= r2 by {
                    assert(a.flip_h_source(r2, c2));
                }
            }
            LifeGrid::lemma_min_row_is(b, lo_r);
            assert(b.row_is_max(hi_r)) by {
                let ct = choose|c2: int| a.populated(lo_r, c2);
                assert(a.populated(lo_r, ct));
                assert(a.flip_h_source(hi_r, ct));
                assert(b.populated(hi_r, ct));
                assert forall|r2: int, c2: int| b.populated(r2, c2) implies r2 <= hi_r by {
                    assert(a.flip_h_source(r2, c2));
                }
            }
            LifeGrid::lemma_max_row_is(b, hi_r);
            assert(b.col_is_min(lo_c)) by {
                let rt = choose|r2: int| a.populated(r2, lo_c);
                assert(a.populated(rt, lo_c));
                assert(a.flip_h_source(lo_r + hi_r - rt, lo_c));
                assert(b.populated(lo_r + hi_r - rt, lo_c));
                assert forall|r2: int, c2: int| b.populated(r2, c2) implies lo_c <= c2 by {
                    assert(a.flip_h_source(r2, c2));
                }
            }
            LifeGrid::lemma_min_col_is(b, lo_c);
            assert(b.col_is_max(hi_c)) by {
                let rt = choose|r2: int| a.populated(r2, hi_c);
                assert(a.populated(rt, hi_c));
                assert(a.flip_h_source(lo_r + hi_r - rt, hi_c));
                assert(b.populated(lo_r + hi_r - rt, hi_c));
                assert forall|r2: int, c2: int| b.populated(r2, c2) implies c2 <= hi_c by {
                    assert(a.flip_h_source(r2, c2));
                }
            }
            LifeGrid::lemma_max_col_is(b, hi_c);
            assert forall|r: int, c2: int| c.spec_cell(r, c2) == a.spec_cell(r, c2) by {
                if c.spec_in_grid(r, c2) {
                    assert(c.populated(r, c2) <==> b.flip_h_source(r, c2));
                    if lo_r <= r <= hi_r && lo_c <= c2 <= hi_c {
                        assert(b.populated(lo_r + hi_r - r, c2) <==> a.flip_h_source(
                            lo_r + hi_r - r,
                            c2,
                        ));
                        assert(c.populated(r, c2) <==> a.populated(r, c2));
                    } else {
                        assert(!c.populated(r, c2));
                        assert(!a.populated(r, c2));
                    }
                    LifeGrid::lemma_cell_valid(a, r, c2);
                    LifeGrid::lemma_cell_valid(c, r, c2);
                }
            }
        }
    }

    /// Two vertical flips restore every slot of the board.
    pub proof fn lemma_flip_v_involutive(a: LifeGrid, b: LifeGrid, c: LifeGrid)
        requires
            a.wf(),
            LifeGrid::flip_v_step(a, b),
            LifeGrid::flip_v_step(b, c),
        ensures
            LifeGrid::same_grid(c, a),
    {
        if a.spec_empty() {
            assert forall|r: int, c2: int| !b.populated(r, c2) by {
                assert(!a.populated(r, c2));
                assert(b.spec_cell(r, c2) == a.spec_cell(r, c2));
            }
            assert(b.spec_empty());
            assert forall|r: int, c2: int| c.spec_cell(r, c2) == a.spec_cell(r, c2) by {
                assert(c.spec_cell(r, c2) == b.spec_cell(r, c2));
            }
        } else {
            LifeGrid::lemma_bounds_characterize(a);
            let lo_r = a.spec_min_row();
            let hi_r = a.spec_max_row();
            let lo_c = a.spec_min_col();
            let hi_c = a.spec_max_col();
            let (r0, c0) = choose|r: int, c: int| a.populated(r, c);
            assert(a.populated(r0, c0));
            assert(b.populated(r0, lo_c + hi_c - c0)) by {
                assert(a.flip_v_source(r0, lo_c + hi_c - c0));
            }
            assert(!b.spec_empty());
            assert(b.col_is_min(lo_c)) by {
                let rt = choose|r2: int| a.populated(r2, hi_c);
                assert(a.populated(rt, hi_c));
                assert(a.flip_v_source(rt, lo_c));
                assert(b.populated(rt, lo_c));
                assert forall|r2: int, c2: int| b.populated(r2, c2) implies lo_c <= c2 by {
                    assert(a.flip_v_source(r2, c2));
                }
            }
            LifeGrid::lemma_min_col_is(b, lo_c);
            assert(b.col_is_max(hi_c)) by {
                let rt = choose|r2: int| a.populated(r2, lo_c);
                assert(a.populated(rt, lo_c));
                assert(a.flip_v_source(rt, hi_c));
                assert(b.populated(rt, hi_c));
                assert forall|r2: int, c2: int| b.populated(r2, c2) implies c2 <= hi_c by {
                    assert(a.flip_v_source(r2, c2));
                }
            }
            LifeGrid::lemma_max_col_is(b, hi_c);
            assert(b.row_is_min(lo_r)) by {
                let ct = choose|c2: int| a.populated(lo_r, c2);
                assert(a.populated(lo_r, ct));
                assert(a.flip_v_source(lo_r, lo_c + hi_c - ct));
                assert(b.populated(lo_r, lo_c + hi_c - ct));
                assert forall|r2: int, c2: int| b.populated(r2, c2) implies lo_r <= r2 by {
                    assert(a.flip_v_source(r2, c2));
                }
            }
            LifeGrid::lemma_min_row_is(b, lo_r);
            assert(b.row_is_max(hi_r)) by {
                let ct = choose|c2: int| a.populated(hi_r, c2);
                assert(a.populated(hi_r, ct));
                assert(a.flip_v_source(hi_r, lo_c + hi_c - ct));
                assert(b.populated(hi_r, lo_c + hi_c - ct));
                assert forall|r2: int, c2: int| b.populated(r2, c2) implies r2 <= hi_r by {
                    assert(a.flip_v_source(r2, c2));
                }
            }
            LifeGrid::lemma_max_row_is(b, hi_r);
            assert forall|r: int, c2: int| c.spec_cell(r, c2) == a.spec_cell(r, c2) by {
                if c.spec_in_grid(r, c2) {
                    assert(c.populated(r, c2) <==> b.flip_v_source(r, c2));
                    if lo_r <= r <= hi_r && lo_c <= c2 <= hi_c {
                        assert(b.populated(r, lo_c + hi_c - c2) <==> a.flip_v_source(
                            r,
                            lo_c + hi_c - c2,
                        ));
                        assert(c.populated(r, c2) <==> a.populated(r, c2));
                    } else {
                        assert(!c.populated(r, c2));
                        assert(!a.populated(r, c2));
                    }
                    LifeGrid::lemma_cell_valid(a, r, c2);
                    LifeGrid::lemma_cell_valid(c, r, c2);
                }
            }
        }
    }

    /// One clockwise quarter turn of a population whose bounding box is a
    /// square of odd side: the box is preserved and every cell moves by the
    /// exact quarter-turn map inside it.
    proof fn lemma_rot_cw_square_step(a: LifeGrid, b: LifeGrid)
        requires
            a.wf(),
            !a.spec_empty(),
            LifeGrid::rot_cw_step(a, b),
            a.spec_height() == a.spec_width(),
            a.spec_height() % 2 == 1,
        ensures
            b.wf(),
            !b.spec_empty(),
            b.cell_count == a.cell_count,
            b.spec_min_row() == a.spec_min_row(),
            b.spec_max_row() == a.spec_max_row(),
            b.spec_min_col() == a.spec_min_col(),
            b.spec_max_col() == a.spec_max_col(),
            b.spec_height() == b.spec_width(),
            b.spec_height() % 2 == 1,
            forall|r: int, c: int|
                b.populated(r, c) <==> (a.spec_min_row() <= r <= a.spec_max_row()
                    && a.spec_min_col() <= c <= a.spec_max_col() && a.populated(
                    a.spec_min_row() + (a.spec_height() - 1) - (c - a.spec_min_col()),
                    a.spec_min_col() + (r - a.spec_min_row()),
                )),
    {
        LifeGrid::lemma_bounds_characterize(a);
        let lo_r = a.spec_min_row();
        let hi_r = a.spec_max_row();
        let lo_c = a.spec_min_col();
        let hi_c = a.spec_max_col();
        let n = a.spec_height();
        assert(a.spec_square_size() == n);
        assert(a.spec_square_row() == lo_r);
        assert(a.spec_square_col() == lo_c);
        assert forall|r: int, c: int|
            b.populated(r, c) <==> (lo_r <= r <= hi_r && lo_c <= c <= hi_c && a.populated(
                lo_r + (n - 1) - (c - lo_c),
                lo_c + (r - lo_r),
            )) by {
            if b.spec_in_grid(r, c) {
                assert(b.populated(r, c) <==> a.rot_cw_source(r, c));
            } else {
                assert(!b.populated(r, c));
            }
        }
        assert(b.row_is_min(lo_r)) by {
            let rt = choose|r2: int| a.populated(r2, lo_c);
            assert(a.populated(rt, lo_c));
            assert(b.populated(lo_r, lo_c + (n - 1) - (rt - lo_r)));
        }
        LifeGrid::lemma_min_row_is(b, lo_r);
        assert(b.row_is_max(hi_r)) by {
            let rt = choose|r2: int| a.populated(r2, hi_c);
            assert(a.populated(rt, hi_c));
            assert(b.populated(hi_r, lo_c + (n - 1) - (rt - lo_r)));
        }
        LifeGrid::lemma_max_row_is(b, hi_r);
        assert(b.col_is_min(lo_c)) by {
            let ct = choose|c2: int| a.populated(hi_r, c2);
            assert(a.populated(hi_r, ct));
            assert(b.populated(lo_r + (ct - lo_c), lo_c));
        }
        LifeGrid::lemma_min_col_is(b, lo_c);
        assert(b.col_is_max(hi_c)) by {
            let ct = choose|c2: int| a.populated(lo_r, c2);
            assert(a.populated(lo_r, ct));
            assert(b.populated(lo_r + (ct - lo_c), hi_c));
        }
        LifeGrid::lemma_max_col_is(b, hi_c);
        let (r0, c0) = choose|r: int, c: int| a.populated(r, c);
        assert(a.populated(r0, c0));
        assert(b.populated(lo_r + (c0 - lo_c), hi_c - (r0 - lo_r)));
    }

    /// Four clockwise quarter turns restore every slot of the board, when
    /// the bounding box of the population is already a square of odd side,
    /// so that the turns spin inside one fixed square.
    #[verifier::rlimit(100)]
    pub proof fn lemma_rotate_cw_four(a: LifeGrid, b: LifeGrid, c: LifeGrid, d: LifeGrid, e: LifeGrid)
        requires
            a.wf(),
            !a.spec_empty(),
            a.spec_height() == a.spec_width(),
            a.spec_height() % 2 == 1,
            LifeGrid::rot_cw_step(a, b),
            LifeGrid::rot_cw_step(b, c),
            LifeGrid::rot_cw_step(c, d),
            LifeGrid::rot_cw_step(d, e),
        ensures
            LifeGrid::same_grid(e, a),
    {
        LifeGrid::lemma_bounds_characterize(a);
        LifeGrid::lemma_rot_cw_square_step(a, b);
        LifeGrid::lemma_rot_cw_square_step(b, c);
        LifeGrid::lemma_rot_cw_square_step(c, d);
        LifeGrid::lemma_rot_cw_square_step(d, e);
        let lo_r = a.spec_min_row();
        let hi_r = a.spec_max_row();
        let lo_c = a.spec_min_col();
        let hi_c = a.spec_max_col();
        let n = a.spec_height();
        assert forall|r: int, c2: int| e.spec_cell(r, c2) == a.spec_cell(r, c2) by {
            if lo_r <= r <= hi_r && lo_c <= c2 <= hi_c {
                let r1 = lo_r + (n - 1) - (c2 - lo_c);
                let c1 = lo_c + (r - lo_r);
                let r2 = lo_r + (n - 1) - (c1 - lo_c);
                let c2b = lo_c + (r1 - lo_r);
                let r3 = lo_r + (n - 1) - (c2b - lo_c);
                let c3 = lo_c + (r2 - lo_r);
                let r4 = lo_r + (n - 1) - (c3 - lo_c);
                let c4 = lo_c + (r3 - lo_r);
                assert(e.populated(r, c2) <==> d.populated(r1, c1));
                assert(d.populated(r1, c1) <==> c.populated(r2, c2b));
                assert(c.populated(r2, c2b) <==> b.populated(r3, c3));
                assert(b.populated(r3, c3) <==> a.populated(r4, c4));
                assert(r4 == r && c4 == c2);
            } else {
                assert(!e.populated(r, c2));
                assert(!a.populated(r, c2));
            }
            if a.spec_in_grid(r, c2) {
                LifeGrid::lemma_cell_valid(a, r, c2);
                LifeGrid::lemma_cell_valid(e, r, c2);
            }
        }
    }
}

} // verus!
