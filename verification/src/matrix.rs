//! Row-major matrices of field elements, as `p3_matrix::dense::DenseMatrix` stores them.
use crate::field::Fp;
use p3_matrix::dense::DenseMatrix;
use p3_matrix::Matrix;
use vstd::prelude::*;

verus! {

/// `p3_matrix`'s dense matrix: a vector of values read row by row, and a width.
#[verifier::external_type_specification]
#[verifier::external_body]
#[verifier::reject_recursive_types(T)]
#[verifier::reject_recursive_types(V)]
pub struct ExDenseMatrix<T, V>(DenseMatrix<T, V>);

/// The values of a row-major matrix, row after row.
pub uninterp spec fn matrix_values(m: DenseMatrix<Fp, Vec<Fp>>) -> Seq<Fp>;

/// The width that a row-major matrix was made with.
pub uninterp spec fn matrix_width(m: DenseMatrix<Fp, Vec<Fp>>) -> nat;

/// The number of rows: the number of values divided by the width (0 for width 0).
pub open spec fn matrix_height(m: DenseMatrix<Fp, Vec<Fp>>) -> nat {
    if matrix_width(m) == 0 {
        0
    } else {
        matrix_values(m).len() / matrix_width(m)
    }
}

/// The entry in row `r` and column `c`.
pub open spec fn matrix_entry(m: DenseMatrix<Fp, Vec<Fp>>, r: int, c: int) -> Fp {
    matrix_values(m)[r * matrix_width(m) + c]
}

/// Every value of the matrix is a canonical field element.
pub open spec fn matrix_wf(m: DenseMatrix<Fp, Vec<Fp>>) -> bool {
    forall|i: int| 0 <= i < matrix_values(m).len() ==> (#[trigger] matrix_values(m)[i]).wf()
}

/// `DenseMatrix::new`: the matrix holds `values` with the given width. Its debug assertion
/// that the width divides the number of values is in `requires`.
#[verifier::external_body]
pub(crate) fn matrix_new(values: Vec<Fp>, width: usize) -> (m: DenseMatrix<Fp, Vec<Fp>>)
    requires
        width > 0,
        values@.len() % (width as nat) == 0,
    ensures
        matrix_values(m) == values@,
        matrix_width(m) == width,
{
    DenseMatrix::new(values, width)
}

/// `Matrix::width` of a dense matrix: the width it was made with.
#[verifier::external_body]
pub(crate) fn matrix_width_of(m: &DenseMatrix<Fp, Vec<Fp>>) -> (r: usize)
    ensures
        r == matrix_width(*m),
{
    m.width()
}

/// `Matrix::height` of a dense matrix: the number of values divided by the width, or 0 when
/// the width is 0.
#[verifier::external_body]
pub(crate) fn matrix_height_of(m: &DenseMatrix<Fp, Vec<Fp>>) -> (r: usize)
    ensures
        r == matrix_height(*m),
{
    m.height()
}

/// `Matrix::get` of a dense matrix: the value at index `r * width + c`. It panics when that
/// index is out of range; `requires` keeps the position inside the matrix.
#[verifier::external_body]
pub(crate) fn matrix_get(m: &DenseMatrix<Fp, Vec<Fp>>, r: usize, c: usize) -> (x: Fp)
    requires
        r < matrix_height(*m),
        c < matrix_width(*m),
    ensures
        x == matrix_entry(*m, r as int, c as int),
{
    m.get(r, c)
}

/// The row-major matrix of `values` with rows of `width` entries.
pub fn row_major_matrix(values: Vec<Fp>, width: usize) -> (m: DenseMatrix<Fp, Vec<Fp>>)
    requires
        width > 0,
        values@.len() % (width as nat) == 0,
    ensures
        matrix_values(m) == values@,
        matrix_width(m) == width,
        matrix_height(m) == values@.len() / (width as nat),
{
    matrix_new(values, width)
}

/// The entry in row `r` and column `c` of the matrix.
pub fn matrix_entry_at(m: &DenseMatrix<Fp, Vec<Fp>>, r: usize, c: usize) -> (x: Fp)
    requires
        r < matrix_height(*m),
        c < matrix_width(*m),
    ensures
        x == matrix_entry(*m, r as int, c as int),
{
    matrix_get(m, r, c)
}

/// Bounds for entry `(r, c)` of a matrix.
pub proof fn lemma_entry_index(m: DenseMatrix<Fp, Vec<Fp>>, r: int, c: int)
    requires
        0 <= r < matrix_height(m),
        0 <= c < matrix_width(m),
    ensures
        0 <= r * matrix_width(m) + c < matrix_values(m).len(),
{
    let w = matrix_width(m) as int;
    let n = matrix_values(m).len() as int;
    assert(r + 1 <= n / w);
    vstd::arithmetic::mul::lemma_mul_inequality(r + 1, n / w, w);
    vstd::arithmetic::div_mod::lemma_fundamental_div_mod(n, w);
    vstd::arithmetic::mul::lemma_mul_is_commutative(n / w, w);
    vstd::arithmetic::mul::lemma_mul_nonnegative(r, w);
    assert((r + 1) * w == r * w + w) by (nonlinear_arith);
}

} // verus!
