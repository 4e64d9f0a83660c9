//! Dense polynomials over a finite field: a vector of coefficients, the
//! constant term first.
use crate::field::{power, FieldSpec, FiniteField};
use crate::field_lemmas::{lemma_minus_is_zero, lemma_times_nonzero};
use crate::lagrange::{
    basis_sum, denominator, distinct_abscissas, lagrange_at_zero, lagrange_poly, lagrange_sum,
    lemma_fold_finish, lemma_fold_step, lemma_poly_fold_finish, lemma_poly_fold_step, monomial,
    numerator, numerator_poly, lemma_lagrange_new_interpolates,
};
use vstd::prelude::*;

verus! {

/// A polynomial, as the sequence of its coefficients from the constant term
/// upwards. Trailing zero coefficients are allowed; `truncate` strips them.
#[derive(Clone, Debug)]
pub struct Polynomial<F> {
    pub coeffs: Vec<F>,
}

impl<F> View for Polynomial<F> {
    type V = Seq<F>;

    open spec fn view(&self) -> Seq<F> {
        self.coeffs@
    }
}

/// The constant polynomial zero.
pub open spec fn poly_zero<F: FieldSpec>() -> Seq<F> {
    seq![F::zero_spec()]
}

/// The constant polynomial one.
pub open spec fn poly_one<F: FieldSpec>() -> Seq<F> {
    seq![F::one_spec()]
}

/// The coefficients without the run of zeros at their high end.
pub open spec fn poly_trim<F: FieldSpec>(c: Seq<F>) -> Seq<F>
    decreases c.len(),
{
    if c.len() > 0 && c.last() == F::zero_spec() {
        poly_trim(c.drop_last())
    } else {
        c
    }
}

/// The coefficient of the sum at position `i`.
pub open spec fn add_coeff<F: FieldSpec>(a: Seq<F>, b: Seq<F>, i: int) -> F {
    if i < a.len() && i < b.len() {
        a[i].plus(b[i])
    } else if i < a.len() {
        a[i]
    } else {
        b[i]
    }
}

/// The sum, as long as the longer of the two.
pub open spec fn poly_add<F: FieldSpec>(a: Seq<F>, b: Seq<F>) -> Seq<F> {
    Seq::new(
        if a.len() >= b.len() {
            a.len()
        } else {
            b.len()
        },
        |i: int| add_coeff(a, b, i),
    )
}

/// What `a[i]` contributes to the coefficient of the product at position `k`.
pub open spec fn conv_term<F: FieldSpec>(a: Seq<F>, b: Seq<F>, k: int, i: int) -> F {
    if 0 <= k - i < b.len() {
        a[i].times(b[k - i])
    } else {
        F::zero_spec()
    }
}

/// The contributions of the first `n` coefficients of `a` to the coefficient
/// of the product at position `k`.
pub open spec fn conv_sum<F: FieldSpec>(a: Seq<F>, b: Seq<F>, k: int, n: nat) -> F
    decreases n,
{
    if n == 0 {
        F::zero_spec()
    } else {
        conv_sum(a, b, k, (n - 1) as nat).plus(conv_term(a, b, k, n - 1))
    }
}

/// The product: the convolution of the two coefficient sequences, with as
/// many coefficients as both factors have together.
pub open spec fn poly_mul<F: FieldSpec>(a: Seq<F>, b: Seq<F>) -> Seq<F> {
    Seq::new(a.len() + b.len(), |k: int| conv_sum(a, b, k, a.len()))
}

/// Every coefficient multiplied by `s`.
pub open spec fn poly_scale<F: FieldSpec>(a: Seq<F>, s: F) -> Seq<F> {
    Seq::new(a.len(), |i: int| a[i].times(s))
}

/// The sum of the first `n` terms `c[i] * x^i`.
pub open spec fn eval_sum<F: FieldSpec>(c: Seq<F>, x: F, n: nat) -> F
    decreases n,
{
    if n == 0 {
        F::zero_spec()
    } else {
        eval_sum(c, x, (n - 1) as nat).plus(c[n - 1].times(power(x, (n - 1) as nat)))
    }
}

/// The value of the polynomial at `x`.
pub open spec fn poly_eval<F: FieldSpec>(c: Seq<F>, x: F) -> F {
    eval_sum(c, x, c.len())
}

impl<F: FiniteField> Polynomial<F> {
    /// The constant polynomial zero.
    pub fn zero() -> (r: Self)
        ensures
            r@ == poly_zero::<F>(),
    {
        let mut coeffs: Vec<F> = Vec::new();
        coeffs.push(F::zero());
        assert(coeffs@ =~= poly_zero::<F>());
        Polynomial { coeffs }
    }

    /// The constant polynomial one.
    pub fn one() -> (r: Self)
        ensures
            r@ == poly_one::<F>(),
    {
        let mut coeffs: Vec<F> = Vec::new();
        coeffs.push(F::one());
        assert(coeffs@ =~= poly_one::<F>());
        Polynomial { coeffs }
    }

    /// The polynomial with the given coefficients, constant term first.
    pub fn new(coeffs: Vec<F>) -> (r: Self)
        ensures
            r@ == coeffs@,
    {
        Polynomial { coeffs }
    }

    /// Drops the highest coefficient for as long as it is zero.
    pub fn truncate(&mut self)
        ensures
            final(self)@ == poly_trim(old(self)@),
    {
        let mut n: usize = self.coeffs.len();
        while n > 0 && self.coeffs[n - 1].equals(F::zero())
            invariant
                n == self.coeffs@.len(),
                poly_trim(self@) == poly_trim(old(self)@),
            decreases n,
        {
            self.coeffs.pop();
            n = n - 1;
        }
    }

    /// The sum of two polynomials.
    pub fn add(&self, rhs: &Self) -> (r: Self)
        ensures
            r@ == poly_add(self@, rhs@),
    {
        let longer_is_self = self.coeffs.len() > rhs.coeffs.len();
        let (long, short) = if longer_is_self {
            (self, rhs)
        } else {
            (rhs, self)
        };
        let n: usize = long.coeffs.len();
        let m: usize = short.coeffs.len();
        let mut coeffs: Vec<F> = Vec::new();
        let mut i: usize = 0;
        while i < n
            invariant
                i <= n,
                n == long@.len(),
                m == short@.len(),
                m <= n,
                coeffs@.len() == i,
                long@ == (if longer_is_self { self@ } else { rhs@ }),
                short@ == (if longer_is_self { rhs@ } else { self@ }),
                forall|k: int| 0 <= k < i ==> coeffs@[k] == add_coeff(self@, rhs@, k),
            decreases n - i,
        {
            let c = if i < m {
                long.coeffs[i].add(short.coeffs[i])
            } else {
                long.coeffs[i]
            };
            proof {
                if i < m {
                    F::lemma_plus_commutative(long@[i as int], short@[i as int]);
                }
            }
            coeffs.push(c);
            i = i + 1;
        }
        assert(coeffs@ =~= poly_add(self@, rhs@));
        Polynomial { coeffs }
    }

    /// The product of two polynomials. The result is not truncated: it has
    /// as many coefficients as both factors together.
    pub fn mul(&self, rhs: &Self) -> (r: Self)
        requires
            self@.len() + rhs@.len() <= usize::MAX,
        ensures
            r@ == poly_mul(self@, rhs@),
    {
        let n: usize = self.coeffs.len();
        let m: usize = rhs.coeffs.len();
        let total: usize = n + m;
        let mut out: Vec<F> = Vec::new();
        let mut k: usize = 0;
        while k < total
            invariant
                k <= total,
                out@.len() == k,
                forall|p: int| 0 <= p < k ==> out@[p] == F::zero_spec(),
            decreases total - k,
        {
            out.push(F::zero());
            k = k + 1;
        }
        let mut i: usize = 0;
        while i < n
            invariant
                i <= n,
                n == self@.len(),
                m == rhs@.len(),
                total == n + m,
                out@.len() == total,
                forall|p: int| 0 <= p < total ==> out@[p] == conv_sum(self@, rhs@, p, i as nat),
            decreases n - i,
        {
            let a = self.coeffs[i];
            let mut j: usize = 0;
            while j < m
                invariant
                    j <= m,
                    i < n,
                    n == self@.len(),
                    m == rhs@.len(),
                    total == n + m,
                    out@.len() == total,
                    a == self@[i as int],
                    forall|p: int|
                        0 <= p < total ==> out@[p] == (if i <= p < i + j {
                            conv_sum(self@, rhs@, p, (i + 1) as nat)
                        } else {
                            conv_sum(self@, rhs@, p, i as nat)
                        }),
                decreases m - j,
            {
                let b = rhs.coeffs[j];
                let sum = out[i + j].add(a.mul(b));
                out[i + j] = sum;
                j = j + 1;
            }
            proof {
                assert forall|p: int| 0 <= p < total implies out@[p] == conv_sum(
                    self@,
                    rhs@,
                    p,
                    (i + 1) as nat,
                ) by {
                    if !(i <= p < i + m) {
                        F::lemma_plus_zero(conv_sum(self@, rhs@, p, i as nat));
                    }
                }
            }
            i = i + 1;
        }
        assert(out@ =~= poly_mul(self@, rhs@));
        Polynomial { coeffs: out }
    }

    /// Every coefficient multiplied by `rhs`.
    pub fn scale(&self, rhs: F) -> (r: Self)
        ensures
            r@ == poly_scale(self@, rhs),
    {
        let n: usize = self.coeffs.len();
        let mut coeffs: Vec<F> = Vec::new();
        let mut i: usize = 0;
        while i < n
            invariant
                i <= n,
                n == self@.len(),
                coeffs@.len() == i,
                forall|k: int| 0 <= k < i ==> coeffs@[k] == self@[k].times(rhs),
            decreases n - i,
        {
            coeffs.push(self.coeffs[i].mul(rhs));
            i = i + 1;
        }
        assert(coeffs@ =~= poly_scale(self@, rhs));
        Polynomial { coeffs }
    }

    /// The value of the polynomial at `x`.
    pub fn get(&self, x: F) -> (r: F)
        ensures
            r == poly_eval(self@, x),
    {
        let n: usize = self.coeffs.len();
        let mut acc = F::zero();
        let mut i: usize = 0;
        while i < n
            invariant
                i <= n,
                n == self@.len(),
                acc == eval_sum(self@, x, i as nat),
            decreases n - i,
        {
            acc = acc.add(self.coeffs[i].mul(x.pow(i)));
            i = i + 1;
        }
        acc
    }

    /// The value at zero of the polynomial of lowest degree through the
    /// given points, computed without building the polynomial and with a
    /// single inversion.
    pub fn lagrange_zero(points: &[(F, F)]) -> (r: F)
        requires
            distinct_abscissas(points@),
        ensures
            r == lagrange_at_zero(points@),
    {
        let n: usize = points.len();
        let mut out = F::zero();
        let mut out_denom = F::one();
        proof {
            F::lemma_one_is_not_zero();
            crate::field_lemmas::lemma_times_zero(F::one_spec());
        }
        let mut i: usize = 0;
        while i < n
            invariant
                i <= n,
                n == points@.len(),
                distinct_abscissas(points@),
                out_denom != F::zero_spec(),
                out == basis_sum(points@, i as nat).times(out_denom),
            decreases n - i,
        {
            let (xi, y) = points[i];
            let mut numer = F::one();
            let mut denom = F::one();
            proof {
                F::lemma_one_is_not_zero();
            }
            let mut j: usize = 0;
            while j < n
                invariant
                    j <= n,
                    i < n,
                    n == points@.len(),
                    distinct_abscissas(points@),
                    xi == points@[i as int].0,
                    numer == numerator(points@, i as int, j as nat),
                    denom == denominator(points@, i as int, j as nat),
                    denom != F::zero_spec(),
                decreases n - j,
            {
                if j != i {
                    let xj = points[j].0;
                    proof {
                        lemma_minus_is_zero(xi, xj);
                        lemma_times_nonzero(denom, xi.minus(xj));
                    }
                    numer = numer.mul(xj.ainv());
                    denom = denom.mul(xi.sub(xj));
                }
                j = j + 1;
            }
            proof {
                lemma_fold_step(basis_sum(points@, i as nat), out_denom, denom, numer, y);
                lemma_times_nonzero(out_denom, denom);
            }
            out = out.mul(denom).add(numer.mul(y).mul(out_denom));
            out_denom = out_denom.mul(denom);
            i = i + 1;
        }
        proof {
            lemma_fold_finish(basis_sum(points@, n as nat), out_denom);
        }
        out.mul(out_denom.minv())
    }

    /// The polynomial of lowest degree through the given points, truncated.
    pub fn lagrange_new(points: &[(F, F)]) -> (r: Self)
        requires
            distinct_abscissas(points@),
            2 * points@.len() < usize::MAX,
        ensures
            r@ == poly_trim(lagrange_poly(points@)),
            forall|i: int| 0 <= i < points@.len() ==> poly_eval(r@, points@[i].0) == points@[i].1,
    {
        let n: usize = points.len();
        let mut out: Polynomial<F> = Polynomial::zero();
        let mut out_denom = F::one();
        proof {
            F::lemma_one_is_not_zero();
            crate::polynomial_lemmas::lemma_scale_one(poly_zero::<F>());
        }
        let mut i: usize = 0;
        while i < n
            invariant
                i <= n,
                n == points@.len(),
                2 * n < usize::MAX,
                distinct_abscissas(points@),
                out_denom != F::zero_spec(),
                out@ == poly_scale(lagrange_sum(points@, i as nat), out_denom),
            decreases n - i,
        {
            let (xi, y) = points[i];
            let mut numer: Polynomial<F> = Polynomial::one();
            let mut denom = F::one();
            proof {
                F::lemma_one_is_not_zero();
            }
            let mut j: usize = 0;
            while j < n
                invariant
                    j <= n,
                    i < n,
                    n == points@.len(),
                    2 * n < usize::MAX,
                    distinct_abscissas(points@),
                    xi == points@[i as int].0,
                    numer@ == numerator_poly(points@, i as int, j as nat),
                    numer@.len() <= 1 + 2 * j,
                    denom == denominator(points@, i as int, j as nat),
                    denom != F::zero_spec(),
                decreases n - j,
            {
                if j != i {
                    let xj = points[j].0;
                    proof {
                        lemma_minus_is_zero(xi, xj);
                        lemma_times_nonzero(denom, xi.minus(xj));
                    }
                    let mut factor: Vec<F> = Vec::new();
                    factor.push(xj.ainv());
                    factor.push(F::one());
                    assert(factor@ =~= monomial(xj));
                    numer = numer.mul(&Polynomial::new(factor));
                    denom = denom.mul(xi.sub(xj));
                }
                j = j + 1;
            }
            proof {
                lemma_poly_fold_step(
                    lagrange_sum(points@, i as nat),
                    out_denom,
                    denom,
                    numer@,
                    y,
                );
                lemma_times_nonzero(out_denom, denom);
            }
            out = out.scale(denom).add(&numer.scale(y.mul(out_denom)));
            out_denom = out_denom.mul(denom);
            i = i + 1;
        }
        proof {
            lemma_poly_fold_finish(lagrange_sum(points@, n as nat), out_denom);
        }
        out = out.scale(out_denom.minv());
        out.truncate();
        proof {
            assert forall|i: int| 0 <= i < points@.len() implies poly_eval(out@, points@[i].0)
                == points@[i].1 by {
                lemma_lagrange_new_interpolates(points@, i);
            }
        }
        out
    }
}

} // verus!
