//! Vectors and square matrices of exact fractions, of a size fixed by their
//! type.
//!
//! Each has two models: the fractions that it stores, and, as its view, the
//! real numbers that these stand for.

use crate::algebra::{
    apply_term, is_matrix, lemma_matrix_equal, matrix_apply, matrix_product, matrix_sum,
    product_term, row_combine, sum, vector_sum,
};
use crate::checked::{
    checked_combination, checked_combined_row, checked_dot, checked_matrix_apply,
    checked_matrix_product, checked_matrix_sum, checked_product_row, checked_row_combine,
    checked_vector_sum, column, diagonal_fractions, is_fraction_matrix, lemma_checked_dot_stops,
    lemma_collected_none, lemma_collected_some, matrix_values, vector_values,
};
use crate::ratio::Ratio;
use vstd::prelude::*;

verus! {

/// A vector of `SIZE` exact fractions.
#[derive(Clone, Copy, Debug, PartialEq, Eq)]
pub struct SimpleVector<const SIZE: usize> {
    entries: [Ratio; SIZE],
}

/// A matrix of `SIZE` rows and `SIZE` columns of exact fractions.
#[derive(Clone, Copy, Debug, PartialEq, Eq)]
pub struct SimpleSquareMatrix<const SIZE: usize> {
    rows: [[Ratio; SIZE]; SIZE],
}

impl<const SIZE: usize> View for SimpleVector<SIZE> {
    type V = Seq<real>;

    /// The real vector that the entries stand for.
    open spec fn view(&self) -> Seq<real> {
        vector_values(self.fractions())
    }
}

impl<const SIZE: usize> View for SimpleSquareMatrix<SIZE> {
    type V = Seq<Seq<real>>;

    /// The real matrix that the entries stand for, as a sequence of rows.
    open spec fn view(&self) -> Seq<Seq<real>> {
        matrix_values(self.fractions())
    }
}

/// The entrywise sum of two rows, if every entry of it fits.
fn sum_of_rows<const SIZE: usize>(x: &[Ratio; SIZE], y: &[Ratio; SIZE]) -> (r: Option<
    [Ratio; SIZE],
>)
    ensures
        match r {
            Some(z) => checked_vector_sum(x@, y@) == Some(z@),
            None => checked_vector_sum(x@, y@) is None,
        },
        r matches Some(z) ==> forall|k: int|
            0 <= k < SIZE ==> (#[trigger] z[k]).value() == x[k].value() + y[k].value(),
{
    let ghost terms = Seq::new(x@.len(), |i: int| x@[i].plus(y@[i]));
    let mut z: [Ratio; SIZE] = *x;
    let mut i: usize = 0;
    while i < SIZE
        invariant
            i <= SIZE,
            terms == Seq::new(x@.len(), |i: int| x@[i].plus(y@[i])),
            forall|k: int| 0 <= k < i ==> #[trigger] terms[k] == Some(z@[k]),
            forall|k: int|
                0 <= k < i ==> (#[trigger] z[k]).value() == x[k].value() + y[k].value(),
        decreases SIZE - i,
    {
        match x[i].checked_add(y[i]) {
            Some(s) => {
                z[i] = s;
            },
            None => {
                proof {
                    lemma_collected_none(terms, i as int);
                }
                return None;
            },
        }
        i += 1;
    }
    proof {
        lemma_collected_some(terms, z@);
    }
    Some(z)
}

impl<const SIZE: usize> SimpleVector<SIZE> {
    /// The fractions that the vector stores.
    pub closed spec fn fractions(&self) -> Seq<Ratio> {
        self.entries@
    }

    /// A vector has `SIZE` entries.
    pub proof fn lemma_length(self)
        ensures
            self.fractions().len() == SIZE,
            self@.len() == SIZE,
    {
    }

    /// Two vectors that store the same fractions are the same vector.
    pub proof fn lemma_fractions_determine(self, other: Self)
        requires
            self.fractions() == other.fractions(),
        ensures
            self == other,
    {
        assert(self.entries =~= other.entries);
    }

    /// The vector with the given entries.
    pub fn new(entries: [Ratio; SIZE]) -> (v: Self)
        ensures
            v.fractions() == entries@,
    {
        SimpleVector { entries }
    }

    /// The entry at index `i`, if there is one.
    pub fn entry(&self, i: usize) -> (r: Option<Ratio>)
        ensures
            r == if i < SIZE {
                Some(self.fractions()[i as int])
            } else {
                None
            },
    {
        if i < SIZE {
            Some(self.entries[i])
        } else {
            None
        }
    }

    /// The entrywise sum, if every entry of it fits.
    pub fn checked_add(&self, other: &Self) -> (r: Option<Self>)
        ensures
            match r {
                Some(v) => checked_vector_sum(self.fractions(), other.fractions()) == Some(
                    v.fractions(),
                ),
                None => checked_vector_sum(self.fractions(), other.fractions()) is None,
            },
            r matches Some(v) ==> v@ == vector_sum(self@, other@),
    {
        match sum_of_rows(&self.entries, &other.entries) {
            Some(entries) => {
                let out = SimpleVector { entries };
                assert(out@ =~= vector_sum(self@, other@));
                Some(out)
            },
            None => None,
        }
    }
}

impl<const SIZE: usize> SimpleSquareMatrix<SIZE> {
    /// The fractions that the matrix stores, as a sequence of rows.
    pub closed spec fn fractions(&self) -> Seq<Seq<Ratio>> {
        Self::rows_of(self.rows)
    }

    /// The rows of an array of rows.
    pub open spec fn rows_of(rows: [[Ratio; SIZE]; SIZE]) -> Seq<Seq<Ratio>> {
        Seq::new(SIZE as nat, |i: int| rows[i]@)
    }

    /// A matrix has `SIZE` rows of `SIZE` entries.
    pub proof fn lemma_shape(self)
        ensures
            is_fraction_matrix(self.fractions(), SIZE as nat),
            is_matrix(self@, SIZE as nat),
    {
    }

    /// Two matrices that store the same fractions are the same matrix.
    pub proof fn lemma_fractions_determine(self, other: Self)
        requires
            self.fractions() == other.fractions(),
        ensures
            self == other,
    {
        assert forall|i: int| 0 <= i < SIZE implies self.rows[i] == other.rows[i] by {
            assert(self.fractions()[i] == other.fractions()[i]);
            assert(self.rows[i] =~= other.rows[i]);
        }
        assert(self.rows =~= other.rows);
    }

    /// The matrix with the given rows.
    pub fn new(rows: [[Ratio; SIZE]; SIZE]) -> (m: Self)
        ensures
            m.fractions() == Self::rows_of(rows),
    {
        SimpleSquareMatrix { rows }
    }

    /// The entry in row `i` and column `j`, if there is one.
    pub fn entry(&self, i: usize, j: usize) -> (r: Option<Ratio>)
        ensures
            r == if i < SIZE && j < SIZE {
                Some(self.fractions()[i as int][j as int])
            } else {
                None
            },
    {
        if i < SIZE && j < SIZE {
            Some(self.rows[i][j])
        } else {
            None
        }
    }

    /// The entry in row `i` and column `j`.
    pub(crate) fn at(&self, i: usize, j: usize) -> (x: Ratio)
        requires
            i < SIZE,
            j < SIZE,
        ensures
            x == self.fractions()[i as int][j as int],
            x.value() == self@[i as int][j as int],
    {
        self.rows[i][j]
    }

    /// The matrix with `diagonal` on its diagonal and `off` everywhere else.
    pub(crate) fn diagonal(diagonal: &SimpleVector<SIZE>, off: Ratio) -> (m: Self)
        ensures
            m.fractions() == diagonal_fractions(diagonal.fractions(), off),
    {
        let mut rows: [[Ratio; SIZE]; SIZE] = [[off; SIZE]; SIZE];
        let mut i: usize = 0;
        while i < SIZE
            invariant
                i <= SIZE,
                forall|r: int, c: int|
                    0 <= r < SIZE && 0 <= c < SIZE ==> #[trigger] rows[r][c] == if r == c && r
                        < i {
                        diagonal.fractions()[r]
                    } else {
                        off
                    },
            decreases SIZE - i,
        {
            let mut row: [Ratio; SIZE] = rows[i];
            row[i] = diagonal.entries[i];
            rows[i] = row;
            i += 1;
        }
        let out = SimpleSquareMatrix { rows };
        proof {
            let target = diagonal_fractions(diagonal.fractions(), off);
            assert forall|r: int| 0 <= r < SIZE implies #[trigger] out.fractions()[r]
                == target[r] by {
                assert(out.fractions()[r] =~= target[r]);
            }
            assert(out.fractions() =~= target);
        }
        out
    }

    /// The entrywise sum, if every entry of it fits.
    pub fn checked_add(&self, other: &Self) -> (r: Option<Self>)
        ensures
            match r {
                Some(m) => checked_matrix_sum(self.fractions(), other.fractions()) == Some(
                    m.fractions(),
                ),
                None => checked_matrix_sum(self.fractions(), other.fractions()) is None,
            },
            r matches Some(m) ==> m@ == matrix_sum(self@, other@),
    {
        let ghost a = self.fractions();
        let ghost b = other.fractions();
        let ghost sums = Seq::new(a.len(), |i: int| checked_vector_sum(a[i], b[i]));
        let mut rows: [[Ratio; SIZE]; SIZE] = self.rows;
        let mut i: usize = 0;
        while i < SIZE
            invariant
                i <= SIZE,
                a == self.fractions(),
                b == other.fractions(),
                sums == Seq::new(a.len(), |i: int| checked_vector_sum(a[i], b[i])),
                forall|r: int| 0 <= r < i ==> #[trigger] sums[r] == Some(rows[r]@),
                forall|r: int, c: int|
                    0 <= r < i && 0 <= c < SIZE ==> (#[trigger] rows[r][c]).value()
                        == self@[r][c] + other@[r][c],
            decreases SIZE - i,
        {
            match sum_of_rows(&self.rows[i], &other.rows[i]) {
                Some(row) => {
                    rows[i] = row;
                },
                None => {
                    proof {
                        lemma_collected_none(sums, i as int);
                    }
                    return None;
                },
            }
            i += 1;
        }
        let out = SimpleSquareMatrix { rows };
        proof {
            lemma_collected_some(sums, out.fractions());
            lemma_matrix_equal(out@, matrix_sum(self@, other@), SIZE as nat);
        }
        Some(out)
    }

    /// The sum `self[i][0] * other[0][j] + ...`, if every step of it fits.
    fn checked_product_entry(&self, other: &Self, i: usize, j: usize) -> (r: Option<Ratio>)
        requires
            i < SIZE,
            j < SIZE,
        ensures
            r == checked_dot(
                self.fractions()[i as int],
                column(other.fractions(), j as int),
                SIZE as nat,
            ),
            r matches Some(x) ==> x.value() == matrix_product(self@, other@)[i as int][j as int],
    {
        let ghost x = self.fractions()[i as int];
        let ghost y = column(other.fractions(), j as int);
        let mut acc: Ratio = Ratio::from_integer(0);
        let mut k: usize = 0;
        while k < SIZE
            invariant
                i < SIZE,
                j < SIZE,
                k <= SIZE,
                x == self.fractions()[i as int],
                y == column(other.fractions(), j as int),
                checked_dot(x, y, k as nat) == Some(acc),
                acc.value() == sum(product_term(self@, other@, i as int, j as int), k as nat),
            decreases SIZE - k,
        {
            let term = match self.rows[i][k].checked_mul(other.rows[k][j]) {
                Some(t) => t,
                None => {
                    proof {
                        assert(checked_dot(x, y, (k + 1) as nat) is None);
                        lemma_checked_dot_stops(x, y, (k + 1) as nat, SIZE as nat);
                    }
                    return None;
                },
            };
            acc = match acc.checked_add(term) {
                Some(s) => s,
                None => {
                    proof {
                        assert(checked_dot(x, y, (k + 1) as nat) is None);
                        lemma_checked_dot_stops(x, y, (k + 1) as nat, SIZE as nat);
                    }
                    return None;
                },
            };
            k += 1;
        }
        Some(acc)
    }

    /// Row `i` of the matrix product, if every step of it fits.
    fn checked_product_row(&self, other: &Self, i: usize) -> (r: Option<[Ratio; SIZE]>)
        requires
            i < SIZE,
        ensures
            match r {
                Some(row) => checked_product_row(self.fractions()[i as int], other.fractions())
                    == Some(row@),
                None => checked_product_row(self.fractions()[i as int], other.fractions())
                    is None,
            },
            r matches Some(row) ==> forall|c: int|
                0 <= c < SIZE ==> (#[trigger] row[c]).value() == matrix_product(
                    self@,
                    other@,
                )[i as int][c],
    {
        let ghost x = self.fractions()[i as int];
        let ghost b = other.fractions();
        let ghost dots = Seq::new(b.len(), |j: int| checked_dot(x, column(b, j), b.len()));
        let mut row: [Ratio; SIZE] = self.rows[i];
        let mut j: usize = 0;
        while j < SIZE
            invariant
                i < SIZE,
                j <= SIZE,
                x == self.fractions()[i as int],
                b == other.fractions(),
                dots == Seq::new(b.len(), |j: int| checked_dot(x, column(b, j), b.len())),
                forall|c: int| 0 <= c < j ==> #[trigger] dots[c] == Some(row@[c]),
                forall|c: int|
                    0 <= c < j ==> (#[trigger] row[c]).value() == matrix_product(
                        self@,
                        other@,
                    )[i as int][c],
            decreases SIZE - j,
        {
            match self.checked_product_entry(other, i, j) {
                Some(s) => {
                    row[j] = s;
                },
                None => {
                    proof {
                        lemma_collected_none(dots, j as int);
                    }
                    return None;
                },
            }
            j += 1;
        }
        proof {
            lemma_collected_some(dots, row@);
        }
        Some(row)
    }

    /// The matrix product, if every step of it fits.
    pub fn checked_mul(&self, other: &Self) -> (r: Option<Self>)
        ensures
            match r {
                Some(m) => checked_matrix_product(self.fractions(), other.fractions()) == Some(
                    m.fractions(),
                ),
                None => checked_matrix_product(self.fractions(), other.fractions()) is None,
            },
            r matches Some(m) ==> m@ == matrix_product(self@, other@),
    {
        let ghost a = self.fractions();
        let ghost b = other.fractions();
        let ghost products = Seq::new(a.len(), |i: int| checked_product_row(a[i], b));
        let mut rows: [[Ratio; SIZE]; SIZE] = self.rows;
        let mut i: usize = 0;
        while i < SIZE
            invariant
                i <= SIZE,
                a == self.fractions(),
                b == other.fractions(),
                products == Seq::new(a.len(), |i: int| checked_product_row(a[i], b)),
                forall|r: int| 0 <= r < i ==> #[trigger] products[r] == Some(rows[r]@),
                forall|r: int, c: int|
                    0 <= r < i && 0 <= c < SIZE ==> (#[trigger] rows[r][c]).value()
                        == matrix_product(self@, other@)[r][c],
            decreases SIZE - i,
        {
            match self.checked_product_row(other, i) {
                Some(row) => {
                    rows[i] = row;
                },
                None => {
                    proof {
                        lemma_collected_none(products, i as int);
                    }
                    return None;
                },
            }
            i += 1;
        }
        let out = SimpleSquareMatrix { rows };
        proof {
            lemma_collected_some(products, out.fractions());
            lemma_matrix_equal(out@, matrix_product(self@, other@), SIZE as nat);
        }
        Some(out)
    }

    /// Entry `i` of this matrix applied to `x`, if every step of it fits.
    fn checked_apply_entry(&self, x: &SimpleVector<SIZE>, i: usize) -> (r: Option<Ratio>)
        requires
            i < SIZE,
        ensures
            r == checked_dot(self.fractions()[i as int], x.fractions(), SIZE as nat),
            r matches Some(v) ==> v.value() == matrix_apply(self@, x@)[i as int],
    {
        let ghost row = self.fractions()[i as int];
        let ghost y = x.fractions();
        let mut acc: Ratio = Ratio::from_integer(0);
        let mut k: usize = 0;
        while k < SIZE
            invariant
                i < SIZE,
                k <= SIZE,
                row == self.fractions()[i as int],
                y == x.fractions(),
                checked_dot(row, y, k as nat) == Some(acc),
                acc.value() == sum(apply_term(self@, x@, i as int), k as nat),
            decreases SIZE - k,
        {
            let term = match self.rows[i][k].checked_mul(x.entries[k]) {
                Some(t) => t,
                None => {
                    proof {
                        assert(checked_dot(row, y, (k + 1) as nat) is None);
                        lemma_checked_dot_stops(row, y, (k + 1) as nat, SIZE as nat);
                    }
                    return None;
                },
            };
            acc = match acc.checked_add(term) {
                Some(s) => s,
                None => {
                    proof {
                        assert(checked_dot(row, y, (k + 1) as nat) is None);
                        lemma_checked_dot_stops(row, y, (k + 1) as nat, SIZE as nat);
                    }
                    return None;
                },
            };
            k += 1;
        }
        Some(acc)
    }

    /// This matrix applied to a vector, if every step of it fits.
    pub fn checked_apply(&self, x: &SimpleVector<SIZE>) -> (r: Option<SimpleVector<SIZE>>)
        ensures
            match r {
                Some(v) => checked_matrix_apply(self.fractions(), x.fractions()) == Some(
                    v.fractions(),
                ),
                None => checked_matrix_apply(self.fractions(), x.fractions()) is None,
            },
            r matches Some(v) ==> v@ == matrix_apply(self@, x@),
    {
        let ghost a = self.fractions();
        let ghost y = x.fractions();
        let ghost dots = Seq::new(a.len(), |i: int| checked_dot(a[i], y, a.len()));
        let mut entries: [Ratio; SIZE] = x.entries;
        let mut i: usize = 0;
        while i < SIZE
            invariant
                i <= SIZE,
                a == self.fractions(),
                y == x.fractions(),
                dots == Seq::new(a.len(), |i: int| checked_dot(a[i], y, a.len())),
                forall|r: int| 0 <= r < i ==> #[trigger] dots[r] == Some(entries@[r]),
                forall|r: int|
                    0 <= r < i ==> (#[trigger] entries[r]).value() == matrix_apply(self@, x@)[r],
            decreases SIZE - i,
        {
            match self.checked_apply_entry(x, i) {
                Some(s) => {
                    entries[i] = s;
                },
                None => {
                    proof {
                        lemma_collected_none(dots, i as int);
                    }
                    return None;
                },
            }
            i += 1;
        }
        let out = SimpleVector { entries };
        proof {
            lemma_collected_some(dots, out.fractions());
            assert(out@ =~= matrix_apply(self@, x@));
        }
        Some(out)
    }

    /// The matrix with row `i` replaced by `alpha * row i + beta * row p`, if
    /// every entry of the new row fits.
    pub(crate) fn row_combined(&self, i: usize, alpha: Ratio, p: usize, beta: Ratio) -> (r:
        Option<Self>)
        requires
            i < SIZE,
            p < SIZE,
        ensures
            match r {
                Some(m) => checked_row_combine(self.fractions(), i as int, alpha, p as int, beta)
                    == Some(m.fractions()),
                None => checked_row_combine(self.fractions(), i as int, alpha, p as int, beta)
                    is None,
            },
            r matches Some(m) ==> m@ == row_combine(
                self@,
                i as int,
                alpha.value(),
                p as int,
                beta.value(),
            ),
    {
        let ghost x = self.fractions()[i as int];
        let ghost y = self.fractions()[p as int];
        let ghost terms = Seq::new(x.len(), |c: int| checked_combination(alpha, x[c], beta, y[c]));
        let mut row: [Ratio; SIZE] = self.rows[i];
        let mut c: usize = 0;
        while c < SIZE
            invariant
                i < SIZE,
                p < SIZE,
                c <= SIZE,
                x == self.fractions()[i as int],
                y == self.fractions()[p as int],
                terms == Seq::new(x.len(), |c: int| checked_combination(alpha, x[c], beta, y[c])),
                forall|k: int| 0 <= k < c ==> #[trigger] terms[k] == Some(row@[k]),
                forall|k: int|
                    0 <= k < c ==> (#[trigger] row[k]).value() == alpha.value() * self@[i as int][k]
                        + beta.value() * self@[p as int][k],
            decreases SIZE - c,
        {
            let u = match alpha.checked_mul(self.rows[i][c]) {
                Some(t) => t,
                None => {
                    proof {
                        lemma_collected_none(terms, c as int);
                    }
                    return None;
                },
            };
            let v = match beta.checked_mul(self.rows[p][c]) {
                Some(t) => t,
                None => {
                    proof {
                        lemma_collected_none(terms, c as int);
                    }
                    return None;
                },
            };
            match u.checked_add(v) {
                Some(s) => {
                    row[c] = s;
                },
                None => {
                    proof {
                        lemma_collected_none(terms, c as int);
                    }
                    return None;
                },
            }
            c += 1;
        }
        let mut rows: [[Ratio; SIZE]; SIZE] = self.rows;
        rows[i] = row;
        let out = SimpleSquareMatrix { rows };
        proof {
            lemma_collected_some(terms, row@);
            assert(checked_combined_row(alpha, x, beta, y) == Some(row@));
            assert(out.fractions() =~= self.fractions().update(i as int, row@));
            let target = row_combine(self@, i as int, alpha.value(), p as int, beta.value());
            lemma_matrix_equal(out@, target, SIZE as nat);
        }
        Some(out)
    }
}

} // verus!
