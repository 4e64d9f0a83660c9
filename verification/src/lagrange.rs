//! Lagrange interpolation: what the two algorithms compute, and why the
//! polynomial they stand for is the only one of its degree through the
//! given points.
use crate::field::{neg, FieldSpec};
use crate::field_lemmas::{
    lemma_cancel_inverse, lemma_distributive_right, lemma_equal_by_difference, lemma_minus_is_plus_neg,
    lemma_minus_is_zero, lemma_minus_self, lemma_one_times, lemma_plus_neg, lemma_power_one,
    lemma_times_neg_one, lemma_times_nonzero, lemma_times_zero, lemma_zero_plus,
};
use crate::polynomial::{
    eval_sum, poly_add, poly_eval, poly_mul, poly_one, poly_scale, poly_trim, poly_zero,
};
use crate::polynomial_lemmas::{
    coeff, degree_below, lemma_degree_add, lemma_degree_mul, lemma_degree_scale, lemma_eval_add,
    lemma_eval_at_zero, lemma_eval_ext_agree, lemma_eval_ext_full, lemma_eval_mul,
    lemma_eval_one_poly, lemma_eval_trim,
    lemma_eval_scale, lemma_eval_zero_poly, lemma_roots, lemma_scale_add, lemma_scale_one,
    lemma_scale_scale,
};
use vstd::prelude::*;

verus! {

/// No two points share their first coordinate.
pub open spec fn distinct_abscissas<F>(points: Seq<(F, F)>) -> bool {
    forall|i: int, j: int| 0 <= i < j < points.len() ==> points[i].0 != points[j].0
}

/// The product of `z - x_j` over the first `m` points, point `i` left out.
pub open spec fn basis_product<F: FieldSpec>(points: Seq<(F, F)>, i: int, m: nat, z: F) -> F
    decreases m,
{
    if m == 0 {
        F::one_spec()
    } else if m - 1 == i {
        basis_product(points, i, (m - 1) as nat, z)
    } else {
        basis_product(points, i, (m - 1) as nat, z).times(z.minus(points[m - 1].0))
    }
}

/// The product of `-x_j` over the first `m` points, point `i` left out.
pub open spec fn numerator<F: FieldSpec>(points: Seq<(F, F)>, i: int, m: nat) -> F {
    basis_product(points, i, m, F::zero_spec())
}

/// The product of `x_i - x_j` over the first `m` points, point `i` left out.
pub open spec fn denominator<F: FieldSpec>(points: Seq<(F, F)>, i: int, m: nat) -> F {
    basis_product(points, i, m, points[i].0)
}

/// `y_i` divided by the product of all `x_i - x_j`.
pub open spec fn weight<F: FieldSpec>(points: Seq<(F, F)>, i: int) -> F {
    points[i].1.times(denominator(points, i, points.len()).inverse())
}

/// The sum over the first `k` points of `y_i` times the product of
/// `-x_j / (x_i - x_j)` over all other points.
pub open spec fn basis_sum<F: FieldSpec>(points: Seq<(F, F)>, k: nat) -> F
    decreases k,
{
    if k == 0 {
        F::zero_spec()
    } else {
        basis_sum(points, (k - 1) as nat).plus(
            numerator(points, k - 1, points.len()).times(weight(points, k - 1)),
        )
    }
}

/// Lagrange's formula for the value at zero of the interpolating polynomial.
pub open spec fn lagrange_at_zero<F: FieldSpec>(points: Seq<(F, F)>) -> F {
    basis_sum(points, points.len())
}

/// The polynomial `x - a`.
pub open spec fn monomial<F: FieldSpec>(a: F) -> Seq<F> {
    seq![neg(a), F::one_spec()]
}

/// The product of the polynomials `x - x_j` over the first `m` points,
/// point `i` left out, as `Polynomial::mul` builds it.
pub open spec fn numerator_poly<F: FieldSpec>(points: Seq<(F, F)>, i: int, m: nat) -> Seq<F>
    decreases m,
{
    if m == 0 {
        poly_one()
    } else if m - 1 == i {
        numerator_poly(points, i, (m - 1) as nat)
    } else {
        poly_mul(numerator_poly(points, i, (m - 1) as nat), monomial(points[m - 1].0))
    }
}

/// The sum over the first `k` points of the basis polynomials, each scaled
/// by its weight.
pub open spec fn lagrange_sum<F: FieldSpec>(points: Seq<(F, F)>, k: nat) -> Seq<F>
    decreases k,
{
    if k == 0 {
        poly_zero()
    } else {
        poly_add(
            lagrange_sum(points, (k - 1) as nat),
            poly_scale(numerator_poly(points, k - 1, points.len()), weight(points, k - 1)),
        )
    }
}

/// Lagrange's formula for the interpolating polynomial, not truncated.
pub open spec fn lagrange_poly<F: FieldSpec>(points: Seq<(F, F)>) -> Seq<F> {
    lagrange_sum(points, points.len())
}

/// One round of the fold that defers all divisions: with the sum so far
/// held as `s * total`, adding the next term `n * (y / d)` is done by
/// cross-multiplying.
pub proof fn lemma_fold_step<F: FieldSpec>(s: F, total: F, d: F, n: F, y: F)
    requires
        d != F::zero_spec(),
    ensures
        s.times(total).times(d).plus(n.times(y).times(total)) == s.plus(
            n.times(y.times(d.inverse())),
        ).times(total.times(d)),
{
    let w = y.times(d.inverse());
    lemma_distributive_right(s, n.times(w), total.times(d));
    F::lemma_times_associative(s, total, d);
    F::lemma_times_associative(n, y, d.inverse());
    lemma_cancel_inverse(n.times(y), d, total);
}

/// The one division at the end of the fold.
pub proof fn lemma_fold_finish<F: FieldSpec>(s: F, total: F)
    requires
        total != F::zero_spec(),
    ensures
        s.times(total).times(total.inverse()) == s,
{
    F::lemma_times_associative(s, total, total.inverse());
    F::lemma_times_inverse(total);
    F::lemma_times_one(s);
}

/// One round of the fold, on polynomials.
pub proof fn lemma_poly_fold_step<F: FieldSpec>(s: Seq<F>, total: F, d: F, n: Seq<F>, y: F)
    requires
        d != F::zero_spec(),
    ensures
        poly_add(poly_scale(poly_scale(s, total), d), poly_scale(n, y.times(total)))
            == poly_scale(
            poly_add(s, poly_scale(n, y.times(d.inverse()))),
            total.times(d),
        ),
{
    let w = y.times(d.inverse());
    let both = total.times(d);
    lemma_scale_add(s, poly_scale(n, w), both);
    lemma_scale_scale(n, w, both);
    lemma_cancel_inverse(y, d, total);
    lemma_scale_scale(s, total, d);
}

/// The one division at the end of the fold, on polynomials.
pub proof fn lemma_poly_fold_finish<F: FieldSpec>(s: Seq<F>, total: F)
    requires
        total != F::zero_spec(),
    ensures
        poly_scale(poly_scale(s, total), total.inverse()) == s,
{
    lemma_scale_scale(s, total, total.inverse());
    F::lemma_times_inverse(total);
    lemma_scale_one(s);
}

/// The polynomial `x - a` has the value `x - a`.
pub proof fn lemma_eval_monomial<F: FieldSpec>(a: F, x: F)
    ensures
        poly_eval(monomial(a), x) == x.minus(a),
{
    reveal_with_fuel(eval_sum, 3);
    lemma_power_one(x);
    F::lemma_times_one(neg(a));
    lemma_zero_plus(neg(a));
    lemma_one_times(x);
    F::lemma_plus_commutative(neg(a), x);
    lemma_minus_is_plus_neg(x, a);
}

/// The numerator polynomial has the products `z - x_j` as its values.
pub proof fn lemma_eval_numerator_poly<F: FieldSpec>(points: Seq<(F, F)>, i: int, m: nat, z: F)
    requires
        m <= points.len(),
    ensures
        poly_eval(numerator_poly(points, i, m), z) == basis_product(points, i, m, z),
    decreases m,
{
    if m == 0 {
        lemma_eval_one_poly(z);
    } else {
        lemma_eval_numerator_poly(points, i, (m - 1) as nat, z);
        if m - 1 != i {
            lemma_eval_mul(
                numerator_poly(points, i, (m - 1) as nat),
                monomial(points[m - 1].0),
                z,
            );
            lemma_eval_monomial(points[m - 1].0, z);
        }
    }
}

/// At the abscissa of another point a basis product vanishes.
pub proof fn lemma_basis_product_vanishes<F: FieldSpec>(
    points: Seq<(F, F)>,
    i: int,
    m: nat,
    j: int,
)
    requires
        m <= points.len(),
        0 <= j < m,
        j != i,
    ensures
        basis_product(points, i, m, points[j].0) == F::zero_spec(),
    decreases m,
{
    let z = points[j].0;
    let before = basis_product(points, i, (m - 1) as nat, z);
    if m - 1 == j {
        lemma_minus_self(z);
        lemma_times_zero(before);
    } else {
        lemma_basis_product_vanishes(points, i, (m - 1) as nat, j);
        if m - 1 != i {
            lemma_times_zero(z.minus(points[m - 1].0));
        }
    }
}

/// With distinct abscissas no denominator is zero.
pub proof fn lemma_denominator_nonzero<F: FieldSpec>(points: Seq<(F, F)>, i: int, m: nat)
    requires
        distinct_abscissas(points),
        0 <= i < points.len(),
        m <= points.len(),
    ensures
        denominator(points, i, m) != F::zero_spec(),
    decreases m,
{
    if m == 0 {
        F::lemma_one_is_not_zero();
    } else {
        lemma_denominator_nonzero(points, i, (m - 1) as nat);
        if m - 1 != i {
            lemma_minus_is_zero(points[i].0, points[m - 1].0);
            lemma_times_nonzero(
                denominator(points, i, (m - 1) as nat),
                points[i].0.minus(points[m - 1].0),
            );
        }
    }
}

/// At the abscissa of point `m`, the sum over the first `k` basis
/// polynomials is `y_m` once point `m` is among them, and zero before.
proof fn lemma_lagrange_sum_value<F: FieldSpec>(points: Seq<(F, F)>, k: nat, m: int)
    requires
        distinct_abscissas(points),
        k <= points.len(),
        0 <= m < points.len(),
    ensures
        poly_eval(lagrange_sum(points, k), points[m].0) == (if m < k {
            points[m].1
        } else {
            F::zero_spec()
        }),
    decreases k,
{
    let z = points[m].0;
    if k == 0 {
        lemma_eval_zero_poly(z);
    } else {
        let i = k - 1;
        let n = points.len();
        let before = lagrange_sum(points, i as nat);
        let basis = numerator_poly(points, i, n);
        let w = weight(points, i);
        lemma_lagrange_sum_value(points, i as nat, m);
        lemma_eval_add(before, poly_scale(basis, w), z);
        lemma_eval_scale(basis, w, z);
        lemma_eval_numerator_poly(points, i, n, z);
        if i == m {
            let d = denominator(points, m, n);
            let y = points[m].1;
            lemma_denominator_nonzero(points, m, n);
            F::lemma_times_commutative(y, d.inverse());
            F::lemma_times_associative(d, d.inverse(), y);
            F::lemma_times_inverse(d);
            lemma_one_times(y);
            lemma_zero_plus(y);
        } else {
            lemma_basis_product_vanishes(points, i, n, m);
            lemma_times_zero(w);
            F::lemma_plus_zero(poly_eval(before, z));
        }
    }
}

/// The interpolating polynomial passes through every point it was built
/// from.
pub proof fn lemma_lagrange_poly_interpolates<F: FieldSpec>(points: Seq<(F, F)>, i: int)
    requires
        distinct_abscissas(points),
        0 <= i < points.len(),
    ensures
        poly_eval(lagrange_poly(points), points[i].0) == points[i].1,
{
    lemma_lagrange_sum_value(points, points.len(), i);
}

/// The partial sums of both algorithms agree at zero.
proof fn lemma_basis_sum_is_value<F: FieldSpec>(points: Seq<(F, F)>, k: nat)
    requires
        k <= points.len(),
    ensures
        basis_sum(points, k) == poly_eval(lagrange_sum(points, k), F::zero_spec()),
    decreases k,
{
    let z = F::zero_spec();
    if k == 0 {
        lemma_eval_zero_poly(z);
    } else {
        let i = k - 1;
        let basis = numerator_poly(points, i, points.len());
        let w = weight(points, i);
        lemma_basis_sum_is_value(points, i as nat);
        lemma_eval_add(lagrange_sum(points, i as nat), poly_scale(basis, w), z);
        lemma_eval_scale(basis, w, z);
        lemma_eval_numerator_poly(points, i, points.len(), z);
    }
}

/// What `Polynomial::lagrange_new` returns, the truncated interpolating
/// polynomial, passes through every point it was built from.
pub proof fn lemma_lagrange_new_interpolates<F: FieldSpec>(points: Seq<(F, F)>, i: int)
    requires
        distinct_abscissas(points),
        0 <= i < points.len(),
    ensures
        poly_eval(poly_trim(lagrange_poly(points)), points[i].0) == points[i].1,
{
    lemma_eval_trim(lagrange_poly(points), points[i].0);
    lemma_lagrange_poly_interpolates(points, i);
}

/// The value that the first algorithm computes is the value at zero of the
/// polynomial that the second one builds.
pub proof fn lemma_lagrange_at_zero_is_value<F: FieldSpec>(points: Seq<(F, F)>)
    ensures
        lagrange_at_zero(points) == poly_eval(lagrange_poly(points), F::zero_spec()),
{
    lemma_basis_sum_is_value(points, points.len());
}

/// Every factor `x - x_j` raises the degree of the numerator by one.
proof fn lemma_numerator_poly_degree<F: FieldSpec>(points: Seq<(F, F)>, i: int, m: nat)
    requires
        m <= points.len(),
    ensures
        degree_below(
            numerator_poly(points, i, m),
            if m <= i || i < 0 {
                (m + 1) as int
            } else {
                m as int
            },
        ),
    decreases m,
{
    if m == 0 {
        assert(degree_below(poly_one::<F>(), 1));
    } else {
        let before = numerator_poly(points, i, (m - 1) as nat);
        let bound: int = if m - 1 <= i || i < 0 {
            m as int
        } else {
            m - 1
        };
        lemma_numerator_poly_degree(points, i, (m - 1) as nat);
        if m - 1 != i {
            let factor = monomial(points[m - 1].0);
            assert(degree_below(factor, 2));
            lemma_degree_mul(before, factor, bound, 2);
        }
    }
}

/// The interpolating polynomial of `n` points has degree below `n`.
pub proof fn lemma_lagrange_sum_degree<F: FieldSpec>(points: Seq<(F, F)>, k: nat)
    requires
        k <= points.len(),
    ensures
        degree_below(lagrange_sum(points, k), points.len() as int),
    decreases k,
{
    let n = points.len();
    if k == 0 {
        assert(degree_below(poly_zero::<F>(), n as int));
    } else {
        let i = k - 1;
        let basis = numerator_poly(points, i, n);
        lemma_lagrange_sum_degree(points, i as nat);
        lemma_numerator_poly_degree(points, i, n);
        lemma_degree_scale(basis, weight(points, i), n as int);
        lemma_degree_add(
            lagrange_sum(points, i as nat),
            poly_scale(basis, weight(points, i)),
            n as int,
        );
    }
}

/// The first `n` coefficients, or all of them where there are fewer.
pub open spec fn prefix<F>(c: Seq<F>, n: nat) -> Seq<F> {
    if c.len() > n {
        c.take(n as int)
    } else {
        c
    }
}

/// Coefficients above the degree do not matter for the value.
proof fn lemma_eval_prefix<F: FieldSpec>(c: Seq<F>, n: nat, x: F)
    requires
        degree_below(c, n as int),
    ensures
        poly_eval(prefix(c, n), x) == poly_eval(c, x),
{
    let short = prefix(c, n);
    lemma_eval_ext_full(c, x, n);
    lemma_eval_ext_full(short, x, n);
    assert forall|i: int| 0 <= i < n implies coeff(c, i) == coeff(short, i) by {}
    lemma_eval_ext_agree(c, short, x, n);
}

/// Interpolation is unique: a polynomial of degree below the number of
/// points that passes through all of them has, everywhere, the value of the
/// interpolating polynomial.
pub proof fn lemma_interpolation_unique<F: FieldSpec>(points: Seq<(F, F)>, c: Seq<F>, z: F)
    requires
        distinct_abscissas(points),
        degree_below(c, points.len() as int),
        forall|i: int| 0 <= i < points.len() ==> poly_eval(c, points[i].0) == points[i].1,
    ensures
        poly_eval(lagrange_poly(points), z) == poly_eval(c, z),
{
    let n = points.len();
    let interpolant = lagrange_poly(points);
    let minus_one = neg(F::one_spec());
    let negated = poly_scale(c, minus_one);
    let difference = poly_add(interpolant, negated);
    let short = prefix(difference, n);
    let roots = Seq::new(n, |i: int| points[i].0);
    lemma_lagrange_sum_degree(points, n);
    lemma_degree_scale(c, minus_one, n as int);
    lemma_degree_add(interpolant, negated, n as int);
    assert forall|i: int| 0 <= i < roots.len() implies poly_eval(short, roots[i])
        == F::zero_spec() by {
        let x = points[i].0;
        let y = points[i].1;
        lemma_eval_prefix(difference, n, x);
        lemma_eval_add(interpolant, negated, x);
        lemma_eval_scale(c, minus_one, x);
        lemma_lagrange_poly_interpolates(points, i);
        lemma_times_neg_one(y);
        lemma_plus_neg(y);
    }
    lemma_roots(short, roots, z);
    lemma_eval_prefix(difference, n, z);
    lemma_eval_add(interpolant, negated, z);
    lemma_eval_scale(c, minus_one, z);
    lemma_times_neg_one(poly_eval(c, z));
    lemma_equal_by_difference(poly_eval(interpolant, z), poly_eval(c, z));
}

/// From as many points of a polynomial as its degree allows, Lagrange's
/// formula gives the polynomial's constant term.
pub proof fn lemma_lagrange_at_zero_of_polynomial<F: FieldSpec>(points: Seq<(F, F)>, c: Seq<F>)
    requires
        distinct_abscissas(points),
        degree_below(c, points.len() as int),
        forall|i: int| 0 <= i < points.len() ==> poly_eval(c, points[i].0) == points[i].1,
    ensures
        lagrange_at_zero(points) == coeff(c, 0),
{
    lemma_interpolation_unique(points, c, F::zero_spec());
    lemma_lagrange_at_zero_is_value(points);
    lemma_eval_at_zero(c);
}

/// Lagrange's formula gives the same value for the same points in another
/// order.
pub proof fn lemma_lagrange_at_zero_permutation<F: FieldSpec>(a: Seq<(F, F)>, b: Seq<(F, F)>)
    requires
        distinct_abscissas(a),
        distinct_abscissas(b),
        a.len() == b.len(),
        forall|k: int| 0 <= k < a.len() ==> b.contains(#[trigger] a[k]),
    ensures
        lagrange_at_zero(a) == lagrange_at_zero(b),
{
    let c = lagrange_poly(b);
    lemma_lagrange_sum_degree(b, b.len());
    assert forall|k: int| 0 <= k < a.len() implies poly_eval(c, a[k].0) == a[k].1 by {
        assert(b.contains(a[k]));
        let l = choose|l: int| 0 <= l < b.len() && b[l] == a[k];
        lemma_lagrange_poly_interpolates(b, l);
    }
    lemma_interpolation_unique(a, c, F::zero_spec());
    lemma_lagrange_at_zero_is_value(a);
    lemma_lagrange_at_zero_is_value(b);
}

/// Points away from zero say nothing about the value at zero of a
/// polynomial of degree up to their number: whatever that value is meant
/// to be, some such polynomial passes through all of them.
pub proof fn lemma_fewer_points_fit_any_constant<F: FieldSpec>(points: Seq<(F, F)>, constant: F)
    requires
        distinct_abscissas(points),
        forall|i: int| 0 <= i < points.len() ==> (#[trigger] points[i]).0 != F::zero_spec(),
    ensures
        exists|c: Seq<F>|
            {
                &&& #[trigger] degree_below(c, (points.len() + 1) as int)
                &&& poly_eval(c, F::zero_spec()) == constant
                &&& forall|i: int|
                    0 <= i < points.len() ==> poly_eval(c, points[i].0) == points[i].1
            },
{
    let all = points.push((F::zero_spec(), constant));
    let c = lagrange_poly(all);
    assert(distinct_abscissas(all)) by {
        assert forall|i: int, j: int| 0 <= i < j < all.len() implies all[i].0 != all[j].0 by {
            assert(all[i] == points[i]);
        }
    }
    lemma_lagrange_sum_degree(all, all.len());
    lemma_lagrange_poly_interpolates(all, points.len() as int);
    assert forall|i: int| 0 <= i < points.len() implies poly_eval(c, points[i].0)
        == points[i].1 by {
        assert(all[i] == points[i]);
        lemma_lagrange_poly_interpolates(all, i);
    }
    assert(degree_below(c, (points.len() + 1) as int));
}

} // verus!
