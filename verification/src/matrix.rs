//! The bookkeeping of a matrix: its size, its transpose, and the smaller
//! matrix that is left when a row and a column are struck out.
//!
//! Nothing here computes with the elements, so they may be of any type that
//! can be copied.

use vstd::prelude::*;

verus! {

/// A matrix as its rows from the top down, each row from left to right.
#[derive(Clone, Debug)]
pub struct Matrix<T> {
    pub m: Vec<Vec<T>>,
}

impl<T> View for Matrix<T> {
    type V = Seq<Seq<T>>;

    open spec fn view(&self) -> Seq<Seq<T>> {
        Seq::new(self.m@.len(), |i: int| self.m@[i]@)
    }
}

/// Whether `grid` has `rows` rows of `cols` elements each.
pub open spec fn is_grid<T>(grid: Seq<Seq<T>>, rows: nat, cols: nat) -> bool {
    &&& grid.len() == rows
    &&& forall|i: int| 0 <= i < grid.len() ==> (#[trigger] grid[i]).len() == cols
}

/// The number of columns of a grid: the length of its first row, and zero
/// for a grid without rows.
pub open spec fn width_of<T>(grid: Seq<Seq<T>>) -> nat {
    if grid.len() == 0 {
        0
    } else {
        grid[0].len()
    }
}

/// Whether all rows of `grid` are as long as the first.
pub open spec fn is_rectangular<T>(grid: Seq<Seq<T>>) -> bool {
    is_grid(grid, grid.len(), width_of(grid))
}

/// Whether `grid` has as many columns as rows.
pub open spec fn is_square<T>(grid: Seq<Seq<T>>) -> bool {
    is_grid(grid, grid.len(), grid.len())
}

/// The grid with rows and columns exchanged: its element in row `j` and
/// column `i` is the element of `grid` in row `i` and column `j`.
pub open spec fn transposed<T>(grid: Seq<Seq<T>>) -> Seq<Seq<T>> {
    Seq::new(width_of(grid), |j: int| Seq::new(grid.len(), |i: int| grid[i][j]))
}

/// A sequence without its element at place `at`; the sequence itself where
/// it has no such place.
pub open spec fn without<A>(s: Seq<A>, at: int) -> Seq<A> {
    if 0 <= at < s.len() {
        s.remove(at)
    } else {
        s
    }
}

/// The grid without row `row` and without column `col`.
pub open spec fn submatrix_of<T>(grid: Seq<Seq<T>>, row: int, col: int) -> Seq<Seq<T>> {
    without(grid, row).map_values(|r: Seq<T>| without(r, col))
}

/// Striking a row and a column out of an `n` by `n` grid leaves a grid of
/// `n - 1` by `n - 1`.
pub proof fn lemma_submatrix_is_smaller<T>(grid: Seq<Seq<T>>, n: nat, row: int, col: int)
    requires
        is_grid(grid, n, n),
        0 <= row < n,
        0 <= col < n,
    ensures
        is_grid(submatrix_of(grid, row, col), (n - 1) as nat, (n - 1) as nat),
{
}

/// Exchanging rows and columns twice gives back the grid, where it is
/// rectangular and has a column.
pub proof fn lemma_transposed_twice<T>(grid: Seq<Seq<T>>)
    requires
        is_rectangular(grid),
        width_of(grid) > 0,
    ensures
        transposed(transposed(grid)) == grid,
{
    let back = transposed(transposed(grid));
    assert forall|i: int| 0 <= i < grid.len() implies back[i] == grid[i] by {
        assert(back[i] =~= grid[i]);
    }
}

/// Whether the cofactor at row `row` and column `col` is the minor with its
/// sign changed: it is where `row + col` is odd.
pub fn cofactor_is_negated(row: usize, col: usize) -> (negated: bool)
    ensures
        negated == ((row + col) % 2 == 1),
{
    row % 2 != col % 2
}

impl<T: Copy> Matrix<T> {
    /// The number of rows.
    pub fn rows(&self) -> (n: usize)
        ensures
            n == self@.len(),
    {
        self.m.len()
    }

    /// The number of columns, read off the first row.
    pub fn cols(&self) -> (n: usize)
        requires
            self@.len() > 0,
        ensures
            n == self@[0].len(),
    {
        self.m[0].len()
    }

    /// Whether every row has `cols` elements.
    fn rows_have(&self, cols: usize) -> (all: bool)
        ensures
            all == is_grid(self@, self@.len(), cols as nat),
    {
        let mut i: usize = 0;
        while i < self.m.len()
            invariant
                i <= self@.len(),
                forall|a: int| 0 <= a < i ==> (#[trigger] self@[a]).len() == cols,
            decreases self@.len() - i,
        {
            if self.m[i].len() != cols {
                assert(self@[i as int].len() != cols);
                return false;
            }
            i += 1;
        }
        true
    }

    /// Whether all rows are as long as the first.
    pub fn is_rectangular(&self) -> (all: bool)
        ensures
            all == is_rectangular(self@),
    {
        if self.m.len() == 0 {
            true
        } else {
            self.rows_have(self.m[0].len())
        }
    }

    /// Whether the matrix has as many columns as rows.
    pub fn is_square(&self) -> (square: bool)
        ensures
            square == is_square(self@),
    {
        self.rows_have(self.m.len())
    }

    /// The matrix with rows and columns exchanged.
    pub fn transpose(&self) -> (t: Self)
        requires
            is_rectangular(self@),
        ensures
            t@ == transposed(self@),
    {
        let rows = self.m.len();
        let cols = if rows == 0 {
            0
        } else {
            self.m[0].len()
        };
        let mut m: Vec<Vec<T>> = Vec::new();
        let mut j: usize = 0;
        while j < cols
            invariant
                is_rectangular(self@),
                rows == self@.len(),
                cols == width_of(self@),
                j <= cols,
                m@.len() == j,
                forall|b: int| 0 <= b < j ==> (#[trigger] m@[b])@ == transposed(self@)[b],
            decreases cols - j,
        {
            let mut column: Vec<T> = Vec::new();
            let mut i: usize = 0;
            while i < rows
                invariant
                    is_rectangular(self@),
                    rows == self@.len(),
                    cols == width_of(self@),
                    j < cols,
                    i <= rows,
                    column@.len() == i,
                    forall|a: int| 0 <= a < i ==> column@[a] == self@[a][j as int],
                decreases rows - i,
            {
                assert(self@[i as int].len() == cols);
                column.push(self.m[i][j]);
                i += 1;
            }
            m.push(column);
            j += 1;
        }
        Matrix { m }
    }

    /// The matrix without row `row` and without column `col`. A row or a
    /// column that the matrix does not have takes nothing away.
    pub fn submatrix(&self, row: usize, col: usize) -> (rest: Self)
        ensures
            rest@ == submatrix_of(self@, row as int, col as int),
    {
        let mut m: Vec<Vec<T>> = Vec::new();
        let mut r: usize = 0;
        while r < self.m.len()
            invariant
                r <= self@.len(),
                m@.len() == without(self@.take(r as int), row as int).len(),
                forall|a: int|
                    0 <= a < m@.len() ==> (#[trigger] m@[a])@ == submatrix_of(
                        self@.take(r as int),
                        row as int,
                        col as int,
                    )[a],
            decreases self@.len() - r,
        {
            if r != row {
                let mut m_row: Vec<T> = Vec::new();
                let mut c: usize = 0;
                while c < self.m[r].len()
                    invariant
                        r < self@.len(),
                        c <= self@[r as int].len(),
                        m_row@ == without(self@[r as int].take(c as int), col as int),
                    decreases self@[r as int].len() - c,
                {
                    let ghost line = self@[r as int];
                    if c != col {
                        m_row.push(self.m[r][c]);
                    }
                    assert(without(line.take(c + 1), col as int) =~= if c != col {
                        without(line.take(c as int), col as int).push(line[c as int])
                    } else {
                        without(line.take(c as int), col as int)
                    });
                    c += 1;
                }
                m.push(m_row);
            }
            r += 1;
        }
        Matrix { m }
    }
}

} // verus!
