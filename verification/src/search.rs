//! The dense table that the fuzzy resolver fills while aligning a query
//! against a document.

use vstd::prelude::*;

verus! {

/// The neighbour from which a cell of the alignment table took its cost.
#[derive(Clone, Copy, Debug, PartialEq, Eq, Structural)]
pub enum SearchDirection {
    /// From the row above: a query byte was consumed alone.
    Up,
    /// From the column to the left: a document byte was consumed alone.
    Left,
    /// From the cell above and to the left: both bytes were consumed.
    Diagonal,
}

impl SearchDirection {
    /// The position of a direction in the order that breaks ties between
    /// equal costs: `Up` before `Left` before `Diagonal`.
    pub open spec fn rank(self) -> int {
        match self {
            SearchDirection::Up => 0,
            SearchDirection::Left => 1,
            SearchDirection::Diagonal => 2,
        }
    }

    /// Whether `self` comes strictly before `other` in the tie-breaking order.
    pub fn precedes(self, other: SearchDirection) -> (b: bool)
        ensures
            b == (self.rank() < other.rank()),
    {
        match self {
            SearchDirection::Up => !matches!(other, SearchDirection::Up),
            SearchDirection::Left => matches!(other, SearchDirection::Diagonal),
            SearchDirection::Diagonal => false,
        }
    }
}

/// One cell of the alignment table: the cheapest cost found for it and the
/// neighbour that cost came from.
#[derive(Clone, Copy, Debug, PartialEq, Eq, Structural)]
pub struct SearchState {
    pub cost: u32,
    pub direction: SearchDirection,
}

impl SearchState {
    pub fn new(cost: u32, direction: SearchDirection) -> (state: Self)
        ensures
            state == (SearchState { cost, direction }),
    {
        Self { cost, direction }
    }

    /// Whether `self` is chosen over `other`: its cost is lower, or the costs
    /// are equal and its direction does not come after the other's.
    pub open spec fn at_most(self, other: SearchState) -> bool {
        self.cost < other.cost || (self.cost == other.cost && self.direction.rank()
            <= other.direction.rank())
    }

    /// The smaller of two states, by cost first and direction second.
    pub open spec fn least(self, other: SearchState) -> SearchState {
        if self.at_most(other) {
            self
        } else {
            other
        }
    }

    /// The smaller of two states; `self` when they are equal.
    pub fn min(self, other: SearchState) -> (state: SearchState)
        ensures
            state == self.least(other),
    {
        if self.cost < other.cost {
            self
        } else if self.cost == other.cost && !other.direction.precedes(self.direction) {
            self
        } else {
            other
        }
    }
}

/// The state every cell holds before it is filled.
pub open spec fn blank_state() -> SearchState {
    SearchState { cost: 0, direction: SearchDirection::Diagonal }
}

/// A table of `rows` by `cols` search states, stored row after row.
pub struct SearchMatrix {
    rows: usize,
    cols: usize,
    data: Vec<SearchState>,
}

impl SearchMatrix {
    pub closed spec fn rows(&self) -> nat {
        self.rows as nat
    }

    pub closed spec fn cols(&self) -> nat {
        self.cols as nat
    }

    /// The stored cells cover the table exactly.
    pub closed spec fn well_formed(&self) -> bool {
        &&& self.data@.len() == self.rows * self.cols
        &&& self.rows * self.cols <= usize::MAX
    }

    /// The state at `row` and `col`.
    pub closed spec fn cell(&self, row: int, col: int) -> SearchState {
        self.data@[row * self.cols + col]
    }

    /// Whether `row` and `col` name a cell of the table.
    pub open spec fn in_bounds(&self, row: int, col: int) -> bool {
        0 <= row < self.rows() && 0 <= col < self.cols()
    }

    /// A table of the given size with every cell blank.
    pub fn new(rows: usize, cols: usize) -> (matrix: Self)
        requires
            rows * cols <= usize::MAX,
        ensures
            matrix.well_formed(),
            matrix.rows() == rows,
            matrix.cols() == cols,
            forall|row: int, col: int|
                matrix.in_bounds(row, col) ==> #[trigger] matrix.cell(row, col) == blank_state(),
    {
        let blank = SearchState::new(0, SearchDirection::Diagonal);
        let matrix = SearchMatrix { rows, cols, data: vec![blank; rows * cols] };
        proof {
            assert forall|row: int, col: int| matrix.in_bounds(row, col) implies #[trigger]
                matrix.cell(row, col) == blank_state() by {
                lemma_flat_index(row, col, rows as int, cols as int);
            }
        }
        matrix
    }

    pub fn get(&self, row: usize, col: usize) -> (state: SearchState)
        requires
            self.well_formed(),
            self.in_bounds(row as int, col as int),
        ensures
            state == self.cell(row as int, col as int),
    {
        proof {
            lemma_flat_index(row as int, col as int, self.rows as int, self.cols as int);
        }
        self.data[row * self.cols + col]
    }

    pub fn set(&mut self, row: usize, col: usize, cost: SearchState)
        requires
            old(self).well_formed(),
            old(self).in_bounds(row as int, col as int),
        ensures
            final(self).well_formed(),
            final(self).rows() == old(self).rows(),
            final(self).cols() == old(self).cols(),
            final(self).cell(row as int, col as int) == cost,
            forall|r: int, c: int|
                old(self).in_bounds(r, c) && (r != row || c != col) ==> #[trigger] final(self).cell(
                    r,
                    c,
                ) == old(self).cell(r, c),
    {
        proof {
            lemma_flat_index(row as int, col as int, self.rows as int, self.cols as int);
        }
        let index: usize = row * self.cols + col;
        self.data.set(index, cost);
        proof {
            assert forall|r: int, c: int|
                old(self).in_bounds(r, c) && (r != row || c != col) implies #[trigger] self.cell(
                r,
                c,
            ) == old(self).cell(r, c) by {
                lemma_flat_index(r, c, self.rows as int, self.cols as int);
                lemma_flat_index_distinct(r, c, row as int, col as int, self.cols as int);
            }
        }
    }
}

/// A cell inside the table has its place inside the row-major storage.
proof fn lemma_flat_index(row: int, col: int, rows: int, cols: int)
    requires
        0 <= row < rows,
        0 <= col < cols,
    ensures
        0 <= row * cols,
        0 <= row * cols + col < rows * cols,
{
    assert(0 <= row * cols) by (nonlinear_arith)
        requires
            0 <= row,
            0 <= cols,
    ;
    assert((row + 1) * cols <= rows * cols) by (nonlinear_arith)
        requires
            row + 1 <= rows,
            0 <= cols,
    ;
    assert((row + 1) * cols == row * cols + cols) by (nonlinear_arith);
}

/// Two different cells never share a place in the storage.
proof fn lemma_flat_index_distinct(r1: int, c1: int, r2: int, c2: int, cols: int)
    requires
        0 <= r1,
        0 <= r2,
        0 <= c1 < cols,
        0 <= c2 < cols,
        r1 != r2 || c1 != c2,
    ensures
        r1 * cols + c1 != r2 * cols + c2,
{
    if r1 < r2 {
        assert((r1 + 1) * cols <= r2 * cols) by (nonlinear_arith)
            requires
                r1 + 1 <= r2,
                0 <= cols,
        ;
        assert((r1 + 1) * cols == r1 * cols + cols) by (nonlinear_arith);
    } else if r2 < r1 {
        assert((r2 + 1) * cols <= r1 * cols) by (nonlinear_arith)
            requires
                r2 + 1 <= r1,
                0 <= cols,
        ;
        assert((r2 + 1) * cols == r2 * cols + cols) by (nonlinear_arith);
    }
}

} // verus!
