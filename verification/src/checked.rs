//! What the executable operations on vectors and matrices of fractions
//! compute, step by step, including the point at which they give up.
//!
//! An operation on exact fractions has an answer only while every sum and
//! product on its way fits a [`Ratio`]. The functions here follow the
//! executable operations through each of these steps: they are `None` (or
//! `Err(FilterError::Overflow)`) exactly when a step does not fit, and hold
//! the stored fractions of the answer otherwise.

use crate::ratio::Ratio;
use vstd::prelude::*;

verus! {

/// The real numbers that a sequence of fractions stands for.
pub open spec fn vector_values(x: Seq<Ratio>) -> Seq<real> {
    Seq::new(x.len(), |i: int| x[i].value())
}

/// The real matrix that rows of fractions stand for.
pub open spec fn matrix_values(m: Seq<Seq<Ratio>>) -> Seq<Seq<real>> {
    Seq::new(m.len(), |i: int| vector_values(m[i]))
}

/// Whether `m` has `n` rows of `n` fractions each.
pub open spec fn is_fraction_matrix(m: Seq<Seq<Ratio>>, n: nat) -> bool {
    &&& m.len() == n
    &&& forall|i: int| 0 <= i < n ==> (#[trigger] m[i]).len() == n
}

/// All the values of `s`, if none is missing.
pub open spec fn collected<T>(s: Seq<Option<T>>) -> Option<Seq<T>> {
    if forall|i: int| 0 <= i < s.len() ==> (#[trigger] s[i]).is_some() {
        Some(Seq::new(s.len(), |i: int| s[i].unwrap()))
    } else {
        None
    }
}

/// A sequence of present values collects to these values.
pub proof fn lemma_collected_some<T>(s: Seq<Option<T>>, out: Seq<T>)
    requires
        out.len() == s.len(),
        forall|i: int| 0 <= i < s.len() ==> #[trigger] s[i] == Some(out[i]),
    ensures
        collected(s) == Some(out),
{
    assert(Seq::new(s.len(), |i: int| s[i].unwrap()) =~= out);
}

/// A sequence with a missing value collects to nothing.
pub proof fn lemma_collected_none<T>(s: Seq<Option<T>>, i: int)
    requires
        0 <= i < s.len(),
        s[i] is None,
    ensures
        collected(s) is None,
{
}

/// The entrywise sum of two vectors.
pub open spec fn checked_vector_sum(x: Seq<Ratio>, y: Seq<Ratio>) -> Option<Seq<Ratio>> {
    collected(Seq::new(x.len(), |i: int| x[i].plus(y[i])))
}

/// The entrywise sum of two matrices.
pub open spec fn checked_matrix_sum(a: Seq<Seq<Ratio>>, b: Seq<Seq<Ratio>>) -> Option<
    Seq<Seq<Ratio>>,
> {
    collected(Seq::new(a.len(), |i: int| checked_vector_sum(a[i], b[i])))
}

/// The sum `x[0] * y[0] + ... + x[k - 1] * y[k - 1]`, taken from left to
/// right.
pub open spec fn checked_dot(x: Seq<Ratio>, y: Seq<Ratio>, k: nat) -> Option<Ratio>
    decreases k,
{
    if k == 0 {
        Some(Ratio::integer(0))
    } else {
        match checked_dot(x, y, (k - 1) as nat) {
            None => None,
            Some(acc) => match x[k - 1].times(y[k - 1]) {
                None => None,
                Some(term) => acc.plus(term),
            },
        }
    }
}

/// Once a partial sum does not fit, the whole sum does not.
pub proof fn lemma_checked_dot_stops(x: Seq<Ratio>, y: Seq<Ratio>, k: nat, n: nat)
    requires
        k <= n,
        checked_dot(x, y, k) is None,
    ensures
        checked_dot(x, y, n) is None,
    decreases n,
{
    if k < n {
        lemma_checked_dot_stops(x, y, k, (n - 1) as nat);
    }
}

/// Column `j` of a matrix.
pub open spec fn column(b: Seq<Seq<Ratio>>, j: int) -> Seq<Ratio> {
    Seq::new(b.len(), |k: int| b[k][j])
}

/// A row of a matrix product: the row `x` times the matrix `b`.
pub open spec fn checked_product_row(x: Seq<Ratio>, b: Seq<Seq<Ratio>>) -> Option<Seq<Ratio>> {
    collected(Seq::new(b.len(), |j: int| checked_dot(x, column(b, j), b.len())))
}

/// The matrix product `a * b`.
pub open spec fn checked_matrix_product(a: Seq<Seq<Ratio>>, b: Seq<Seq<Ratio>>) -> Option<
    Seq<Seq<Ratio>>,
> {
    collected(Seq::new(a.len(), |i: int| checked_product_row(a[i], b)))
}

/// The matrix `a` applied to the vector `x`.
pub open spec fn checked_matrix_apply(a: Seq<Seq<Ratio>>, x: Seq<Ratio>) -> Option<Seq<Ratio>> {
    collected(Seq::new(a.len(), |i: int| checked_dot(a[i], x, a.len())))
}

/// The fraction `alpha * x + beta * y`.
pub open spec fn checked_combination(alpha: Ratio, x: Ratio, beta: Ratio, y: Ratio) -> Option<
    Ratio,
> {
    match alpha.times(x) {
        None => None,
        Some(u) => match beta.times(y) {
            None => None,
            Some(v) => u.plus(v),
        },
    }
}

/// The row `alpha * x + beta * y`.
pub open spec fn checked_combined_row(alpha: Ratio, x: Seq<Ratio>, beta: Ratio, y: Seq<Ratio>) -> Option<
    Seq<Ratio>,
> {
    collected(Seq::new(x.len(), |c: int| checked_combination(alpha, x[c], beta, y[c])))
}

/// The matrix `m` with row `i` replaced by `alpha * m[i] + beta * m[p]`.
pub open spec fn checked_row_combine(
    m: Seq<Seq<Ratio>>,
    i: int,
    alpha: Ratio,
    p: int,
    beta: Ratio,
) -> Option<Seq<Seq<Ratio>>> {
    match checked_combined_row(alpha, m[i], beta, m[p]) {
        None => None,
        Some(row) => Some(m.update(i, row)),
    }
}

/// The matrix with `diagonal` on its diagonal and `off` everywhere else.
pub open spec fn diagonal_fractions(diagonal: Seq<Ratio>, off: Ratio) -> Seq<Seq<Ratio>> {
    Seq::new(
        diagonal.len(),
        |i: int|
            Seq::new(
                diagonal.len(),
                |j: int|
                    if i == j {
                        diagonal[i]
                    } else {
                        off
                    },
            ),
    )
}

} // verus!
