//! The arithmetic on reals, which the library leaves to its caller.
//!
//! The library decides which operation is applied to which values, in which
//! order, and hands the operation itself to an implementation of `Reals`.
//! Nothing is assumed of what an operation returns: each contract of the
//! library speaks of "a result of the operation", and a matrix of another
//! shape than the operation has is refused.

use vstd::prelude::*;

use crate::matrix::{Matrix, MatrixView};

verus! {

/// The operations on reals that the library calls.
pub trait Reals {
    /// The matrix product `a × b`.
    fn product(&self, a: &Matrix, b: &Matrix) -> Matrix
        requires
            a@.cols == b@.rows,
    ;

    /// The entrywise sum `a + b`.
    fn sum(&self, a: &Matrix, b: &Matrix) -> Matrix
        requires
            a@.same_shape(b@),
    ;

    /// The entrywise product `a ⊙ b`.
    fn hadamard(&self, a: &Matrix, b: &Matrix) -> Matrix
        requires
            a@.same_shape(b@),
    ;

    /// One step down a slope: `from - rate × slope`, entry by entry.
    fn descend(&self, from: &Matrix, rate: u64, slope: &Matrix) -> Matrix
        requires
            from@.same_shape(slope@),
    ;

    /// The logistic function, `1 / (1 + e^-x)`.
    fn logistic(&self, x: u64) -> u64;

    /// The derivative of the logistic function, `e^-x / (1 + e^-x)^2`.
    fn logistic_slope(&self, x: u64) -> u64;

    /// `x - 1`.
    fn less_one(&self, x: u64) -> u64;

    /// The sum of the squares of the entries of `m`.
    fn square_sum(&self, m: &Matrix) -> u64;

    /// The mean of `seen + 1` values, where `mean` is the mean of the first
    /// `seen` of them and `next` the last: `(mean × seen + next) / (seen + 1)`.
    fn mean_step(&self, mean: u64, seen: usize, next: u64) -> u64;

    /// A matrix of `rows` by `cols` entries drawn uniformly from the unit
    /// interval.
    fn uniform(&self, rows: usize, cols: usize) -> Matrix;

    /// Moves a point of the unit interval to the interval of width `scale`
    /// around zero: `x × scale - scale / 2`.
    fn spread(&self, x: u64, scale: u64) -> u64;
}

/// `r` is a result of the matrix product of `a` and `b`.
pub open spec fn product_of<K: Reals>(k: &K, a: MatrixView, b: MatrixView, r: MatrixView) -> bool {
    exists|x: Matrix, y: Matrix, z: Matrix|
        x@ == a && y@ == b && z@ == r && #[trigger] call_ensures(K::product, (k, &x, &y), z)
}

/// `r` is a result of the entrywise sum of `a` and `b`.
pub open spec fn sum_of<K: Reals>(k: &K, a: MatrixView, b: MatrixView, r: MatrixView) -> bool {
    exists|x: Matrix, y: Matrix, z: Matrix|
        x@ == a && y@ == b && z@ == r && #[trigger] call_ensures(K::sum, (k, &x, &y), z)
}

/// `r` is a result of the entrywise product of `a` and `b`.
pub open spec fn hadamard_of<K: Reals>(k: &K, a: MatrixView, b: MatrixView, r: MatrixView) -> bool {
    exists|x: Matrix, y: Matrix, z: Matrix|
        x@ == a && y@ == b && z@ == r && #[trigger] call_ensures(K::hadamard, (k, &x, &y), z)
}

/// `r` is a result of one step of `rate` from `from` down `slope`.
pub open spec fn descend_of<K: Reals>(
    k: &K,
    from: MatrixView,
    rate: u64,
    slope: MatrixView,
    r: MatrixView,
) -> bool {
    exists|x: Matrix, y: Matrix, z: Matrix|
        x@ == from && y@ == slope && z@ == r && #[trigger] call_ensures(
            K::descend,
            (k, &x, rate, &y),
            z,
        )
}

/// `r` is a result of drawing a matrix of `rows` by `cols` entries.
pub open spec fn uniform_of<K: Reals>(k: &K, rows: usize, cols: usize, r: MatrixView) -> bool {
    exists|z: Matrix| z@ == r && #[trigger] call_ensures(K::uniform, (k, rows, cols), z)
}

/// Whether `r` is what is kept of a matrix `m` that an operation returned
/// where a matrix of `rows` by `cols` entries was due: `m` itself where it
/// has that shape, and nothing where it has another.
pub open spec fn kept(m: MatrixView, rows: nat, cols: nat, r: Option<Matrix>) -> bool {
    match r {
        Some(z) => z@ == m && m.rows == rows && m.cols == cols,
        None => !(m.rows == rows && m.cols == cols),
    }
}

/// The product `a × b`, or `None` where the arithmetic returned a matrix
/// that has not the rows of `a` and the columns of `b`.
pub(crate) fn product<K: Reals>(k: &K, a: &Matrix, b: &Matrix) -> (r: Option<Matrix>)
    requires
        a@.cols == b@.rows,
    ensures
        exists|m: MatrixView| #[trigger] product_of(k, a@, b@, m) && kept(m, a@.rows, b@.cols, r),
        r matches Some(m) ==> {
            &&& product_of(k, a@, b@, m@)
            &&& m@.rows == a@.rows
            &&& m@.cols == b@.cols
            &&& m@.wf()
        },
{
    let m = k.product(a, b);
    assert(product_of(k, a@, b@, m@));
    m.shaped(a.nrows(), b.ncols())
}

/// The sum `a + b`, or `None` where the arithmetic returned a matrix of
/// another shape than that of `a`.
pub(crate) fn sum<K: Reals>(k: &K, a: &Matrix, b: &Matrix) -> (r: Option<Matrix>)
    requires
        a@.same_shape(b@),
    ensures
        exists|m: MatrixView| #[trigger] sum_of(k, a@, b@, m) && kept(m, a@.rows, a@.cols, r),
        r matches Some(m) ==> sum_of(k, a@, b@, m@) && m@.same_shape(a@) && m@.wf(),
{
    let m = k.sum(a, b);
    assert(sum_of(k, a@, b@, m@));
    m.shaped(a.nrows(), a.ncols())
}

/// The entrywise product `a ⊙ b`, or `None` where the arithmetic returned a
/// matrix of another shape than that of `a`.
pub(crate) fn hadamard<K: Reals>(k: &K, a: &Matrix, b: &Matrix) -> (r: Option<Matrix>)
    requires
        a@.same_shape(b@),
    ensures
        exists|m: MatrixView| #[trigger] hadamard_of(k, a@, b@, m) && kept(m, a@.rows, a@.cols, r),
        r matches Some(m) ==> hadamard_of(k, a@, b@, m@) && m@.same_shape(a@) && m@.wf(),
{
    let m = k.hadamard(a, b);
    assert(hadamard_of(k, a@, b@, m@));
    m.shaped(a.nrows(), a.ncols())
}

/// The step `from - rate × slope`, or `None` where the arithmetic returned
/// a matrix of another shape than that of `from`.
pub(crate) fn descend<K: Reals>(k: &K, from: &Matrix, rate: u64, slope: &Matrix) -> (r: Option<Matrix>)
    requires
        from@.same_shape(slope@),
    ensures
        exists|m: MatrixView| #[trigger] descend_of(k, from@, rate, slope@, m) && kept(m, from@.rows, from@.cols, r),
        r matches Some(m) ==> {
            &&& descend_of(k, from@, rate, slope@, m@)
            &&& m@.same_shape(from@)
            &&& m@.wf()
        },
{
    let m = k.descend(from, rate, slope);
    assert(descend_of(k, from@, rate, slope@, m@));
    m.shaped(from.nrows(), from.ncols())
}

/// A matrix of `rows` by `cols` entries drawn from the unit interval, or
/// `None` where the arithmetic returned a matrix of another shape.
pub(crate) fn uniform<K: Reals>(k: &K, rows: usize, cols: usize) -> (r: Option<Matrix>)
    ensures
        exists|m: MatrixView| #[trigger] uniform_of(k, rows, cols, m) && kept(m, rows as nat, cols as nat, r),
        r matches Some(m) ==> {
            &&& uniform_of(k, rows, cols, m@)
            &&& m@.rows == rows
            &&& m@.cols == cols
            &&& m@.wf()
        },
{
    let m = k.uniform(rows, cols);
    assert(uniform_of(k, rows, cols, m@));
    m.shaped(rows, cols)
}

} // verus!
