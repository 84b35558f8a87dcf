//! Matrices of reals, stored column after column.

use vstd::prelude::*;

use crate::scalar::{ONE, ZERO};

verus! {

/// What a `Matrix` stands for: its shape and its entries, column after
/// column.
pub struct MatrixView {
    /// The number of rows.
    pub rows: nat,
    /// The number of columns.
    pub cols: nat,
    /// The entries: the first column from top to bottom, then the second,
    /// and so on.
    pub cells: Seq<u64>,
}

impl MatrixView {
    /// Whether there is one entry for each pair of a row and a column.
    pub open spec fn wf(self) -> bool {
        self.cells.len() == self.rows * self.cols
    }

    /// The entry in row `r` and column `c`.
    pub open spec fn at(self, r: int, c: int) -> u64
        recommends
            0 <= r < self.rows,
            0 <= c < self.cols,
    {
        self.cells[c * self.rows + r]
    }

    /// Whether the matrix is a single row of `width` entries.
    pub open spec fn is_row(self, width: nat) -> bool {
        self.rows == 1 && self.cols == width
    }

    /// Whether `other` has the same numbers of rows and of columns.
    pub open spec fn same_shape(self, other: MatrixView) -> bool {
        self.rows == other.rows && self.cols == other.cols
    }

    /// The matrix of `rows` by `cols` entries that all are `element`.
    pub open spec fn filled(rows: nat, cols: nat, element: u64) -> MatrixView {
        MatrixView { rows, cols, cells: Seq::new(rows * cols, |i: int| element) }
    }

    /// The identity matrix of `n` rows: one on the diagonal, zero elsewhere.
    pub open spec fn identity(n: nat) -> MatrixView {
        MatrixView {
            rows: n,
            cols: n,
            cells: Seq::new(
                n * n,
                |i: int|
                    if i / (n as int) == i % (n as int) {
                        ONE
                    } else {
                        ZERO
                    },
            ),
        }
    }

    /// The matrix whose rows are the columns of this one.
    pub open spec fn transposed(self) -> MatrixView {
        MatrixView {
            rows: self.cols,
            cols: self.rows,
            cells: Seq::new(
                self.rows * self.cols,
                |i: int| self.at(i / (self.cols as int), i % (self.cols as int)),
            ),
        }
    }
}

/// A matrix of reals.
#[derive(Debug)]
pub struct Matrix {
    rows: usize,
    cols: usize,
    cells: Vec<u64>,
}

impl View for Matrix {
    type V = MatrixView;

    closed spec fn view(&self) -> MatrixView {
        MatrixView { rows: self.rows as nat, cols: self.cols as nat, cells: self.cells@ }
    }
}

impl Clone for Matrix {
    fn clone(&self) -> (m: Matrix)
        ensures
            m@ == self@,
    {
        proof {
            use_type_invariant(self);
        }
        let cells = self.cells.clone();
        Matrix { rows: self.rows, cols: self.cols, cells }
    }
}

impl Matrix {
    #[verifier::type_invariant]
    spec fn inv(self) -> bool {
        self.cells@.len() == self.rows * self.cols
    }

    /// The matrix of the given shape and entries, which are taken column
    /// after column; `None` unless there is one entry for each pair of a row
    /// and a column.
    pub fn new(rows: usize, cols: usize, cells: Vec<u64>) -> (r: Option<Matrix>)
        ensures
            r.is_some() <==> cells@.len() == rows * cols,
            r matches Some(m) ==> m@.wf() && m@ == (MatrixView {
                rows: rows as nat,
                cols: cols as nat,
                cells: cells@,
            }),
    {
        let len = cells.len();
        match rows.checked_mul(cols) {
            Some(area) => {
                if len == area {
                    Some(Matrix { rows, cols, cells })
                } else {
                    None
                }
            },
            None => None,
        }
    }

    /// The matrix of `rows` by `cols` entries that all are `element`;
    /// `None` where that many entries cannot be addressed.
    pub fn from_element(rows: usize, cols: usize, element: u64) -> (r: Option<Matrix>)
        ensures
            r.is_some() <==> rows * cols <= usize::MAX,
            r matches Some(m) ==> m@.wf() && m@ == MatrixView::filled(
                rows as nat,
                cols as nat,
                element,
            ),
    {
        let area = match rows.checked_mul(cols) {
            Some(area) => area,
            None => {
                return None;
            },
        };
        let mut cells: Vec<u64> = Vec::new();
        let mut i: usize = 0;
        while i < area
            invariant
                i <= area,
                cells@.len() == i,
                forall|j: int| 0 <= j < i ==> cells@[j] == element,
            decreases area - i,
        {
            cells.push(element);
            i += 1;
        }
        let m = Matrix { rows, cols, cells };
        assert(m@.cells =~= MatrixView::filled(rows as nat, cols as nat, element).cells);
        Some(m)
    }

    /// The identity matrix of `n` rows; `None` where that many entries
    /// cannot be addressed.
    pub fn identity(n: usize) -> (r: Option<Matrix>)
        ensures
            r.is_some() <==> n * n <= usize::MAX,
            r matches Some(m) ==> m@.wf() && m@ == MatrixView::identity(n as nat),
    {
        let area = match n.checked_mul(n) {
            Some(area) => area,
            None => {
                return None;
            },
        };
        let mut cells: Vec<u64> = Vec::new();
        let mut i: usize = 0;
        while i < area
            invariant
                i <= area,
                area == n * n,
                cells@.len() == i,
                forall|j: int|
                    0 <= j < i ==> cells@[j] == (if j / (n as int) == j % (n as int) {
                        ONE
                    } else {
                        ZERO
                    }),
            decreases area - i,
        {
            assert(n > 0) by (nonlinear_arith)
                requires
                    i < n * n,
            ;
            cells.push(
                if i / n == i % n {
                    ONE
                } else {
                    ZERO
                },
            );
            i += 1;
        }
        let m = Matrix { rows: n, cols: n, cells };
        assert(m@.cells =~= MatrixView::identity(n as nat).cells);
        Some(m)
    }

    /// The matrix whose rows are the columns of this one.
    pub fn transpose(&self) -> (m: Matrix)
        ensures
            m@ == self@.transposed(),
            m@.wf(),
    {
        proof {
            use_type_invariant(self);
        }
        let rows = self.rows;
        let cols = self.cols;
        let area = self.cells.len();
        assert(cols * rows == rows * cols) by (nonlinear_arith);
        let mut cells: Vec<u64> = Vec::new();
        let mut i: usize = 0;
        while i < area
            invariant
                i <= area,
                area == rows * cols,
                area == self.cells@.len(),
                rows == self.rows,
                cols == self.cols,
                cells@.len() == i,
                forall|j: int|
                    0 <= j < i ==> cells@[j] == self@.at(j / (cols as int), j % (cols as int)),
            decreases area - i,
        {
            assert(cols > 0) by (nonlinear_arith)
                requires
                    i < rows * cols,
            ;
            let r = i / cols;
            let c = i % cols;
            assert(r < rows && c * rows + r < rows * cols) by (nonlinear_arith)
                requires
                    i < rows * cols,
                    cols > 0,
                    r == i as int / cols as int,
                    c == i as int % cols as int,
            ;
            cells.push(self.cells[c * rows + r]);
            i += 1;
        }
        let m = Matrix { rows: cols, cols: rows, cells };
        assert(m@.cells =~= self@.transposed().cells);
        m
    }

    /// The matrix of the shape of this one and of the given entries.
    pub(crate) fn with_cells(&self, cells: Vec<u64>) -> (m: Matrix)
        requires
            cells@.len() == self@.cells.len(),
        ensures
            m@ == (MatrixView { rows: self@.rows, cols: self@.cols, cells: cells@ }),
            m@.wf(),
    {
        proof {
            use_type_invariant(self);
        }
        Matrix { rows: self.rows, cols: self.cols, cells }
    }

    /// This matrix, if its shape is `rows` by `cols`.
    pub fn shaped(self, rows: usize, cols: usize) -> (r: Option<Matrix>)
        ensures
            r.is_some() <==> (self@.rows == rows && self@.cols == cols),
            r matches Some(m) ==> m == self && m@.wf(),
    {
        proof {
            use_type_invariant(&self);
        }
        if self.rows == rows && self.cols == cols {
            Some(self)
        } else {
            None
        }
    }

    /// The number of rows.
    pub fn nrows(&self) -> (n: usize)
        ensures
            n == self@.rows,
            self@.wf(),
    {
        proof {
            use_type_invariant(self);
        }
        self.rows
    }

    /// The number of columns.
    pub fn ncols(&self) -> (n: usize)
        ensures
            n == self@.cols,
            self@.wf(),
    {
        proof {
            use_type_invariant(self);
        }
        self.cols
    }

    /// The entries, column after column.
    pub fn as_slice(&self) -> (cells: &[u64])
        ensures
            cells@ == self@.cells,
            self@.wf(),
    {
        proof {
            use_type_invariant(self);
        }
        self.cells.as_slice()
    }
}

} // verus!
