//! Laws of polynomial arithmetic, and how evaluation and degree behave
//! under it.
use crate::field::{power, FieldSpec};
use crate::field_lemmas::{
    lemma_distributive_right, lemma_minus_is_zero, lemma_no_zero_divisors,
    lemma_plus_interchange, lemma_power_add, lemma_times_interchange, lemma_times_zero,
    lemma_zero_plus,
};
use crate::polynomial::{
    conv_sum, conv_term, eval_sum, poly_add, poly_eval, poly_mul, poly_one, poly_scale,
    poly_trim, poly_zero,
};
use vstd::prelude::*;

verus! {

/// Adding polynomials is commutative: `a.add(&b)` and `b.add(&a)` hold the
/// same coefficients.
pub proof fn lemma_add_commutative<F: FieldSpec>(a: Seq<F>, b: Seq<F>)
    ensures
        poly_add(a, b) == poly_add(b, a),
{
    assert forall|i: int| 0 <= i < poly_add(a, b).len() implies poly_add(a, b)[i] == poly_add(
        b,
        a,
    )[i] by {
        if i < a.len() && i < b.len() {
            F::lemma_plus_commutative(a[i], b[i]);
        }
    }
    assert(poly_add(a, b) =~= poly_add(b, a));
}

/// Adding polynomials is associative, whatever the three lengths.
pub proof fn lemma_add_associative<F: FieldSpec>(a: Seq<F>, b: Seq<F>, c: Seq<F>)
    ensures
        poly_add(poly_add(a, b), c) == poly_add(a, poly_add(b, c)),
{
    let left = poly_add(poly_add(a, b), c);
    let right = poly_add(a, poly_add(b, c));
    assert forall|i: int| 0 <= i < left.len() implies left[i] == right[i] by {
        if i < a.len() && i < b.len() && i < c.len() {
            F::lemma_plus_associative(a[i], b[i], c[i]);
        }
    }
    assert(left =~= right);
}

/// Scaling by one changes nothing.
pub proof fn lemma_scale_one<F: FieldSpec>(a: Seq<F>)
    ensures
        poly_scale(a, F::one_spec()) == a,
{
    assert forall|i: int| 0 <= i < a.len() implies poly_scale(a, F::one_spec())[i] == a[i] by {
        F::lemma_times_one(a[i]);
    }
    assert(poly_scale(a, F::one_spec()) =~= a);
}

/// Scaling twice is scaling by the product.
pub proof fn lemma_scale_scale<F: FieldSpec>(a: Seq<F>, s: F, t: F)
    ensures
        poly_scale(poly_scale(a, s), t) == poly_scale(a, s.times(t)),
{
    assert forall|i: int| 0 <= i < a.len() implies poly_scale(poly_scale(a, s), t)[i]
        == poly_scale(a, s.times(t))[i] by {
        F::lemma_times_associative(a[i], s, t);
    }
    assert(poly_scale(poly_scale(a, s), t) =~= poly_scale(a, s.times(t)));
}

/// Scaling a sum is adding the scaled summands.
pub proof fn lemma_scale_add<F: FieldSpec>(a: Seq<F>, b: Seq<F>, s: F)
    ensures
        poly_scale(poly_add(a, b), s) == poly_add(poly_scale(a, s), poly_scale(b, s)),
{
    let left = poly_scale(poly_add(a, b), s);
    let right = poly_add(poly_scale(a, s), poly_scale(b, s));
    assert forall|i: int| 0 <= i < left.len() implies left[i] == right[i] by {
        if i < a.len() && i < b.len() {
            lemma_distributive_right(a[i], b[i], s);
        }
    }
    assert(left =~= right);
}

/// The zero polynomial is zero everywhere.
pub proof fn lemma_eval_zero_poly<F: FieldSpec>(x: F)
    ensures
        poly_eval(poly_zero::<F>(), x) == F::zero_spec(),
{
    reveal_with_fuel(eval_sum, 2);
    lemma_times_zero(power(x, 0));
    F::lemma_plus_zero(F::zero_spec());
}

/// The constant polynomial one is one everywhere.
pub proof fn lemma_eval_one_poly<F: FieldSpec>(x: F)
    ensures
        poly_eval(poly_one::<F>(), x) == F::one_spec(),
{
    reveal_with_fuel(eval_sum, 2);
    F::lemma_times_one(F::one_spec());
    lemma_zero_plus(F::one_spec());
}

/// A product's contributions split over a sum in the second factor.
pub proof fn lemma_conv_sum_add<F: FieldSpec>(a: Seq<F>, b: Seq<F>, c: Seq<F>, k: int, n: nat)
    requires
        n <= a.len(),
    ensures
        conv_sum(a, poly_add(b, c), k, n) == conv_sum(a, b, k, n).plus(conv_sum(a, c, k, n)),
    decreases n,
{
    if n == 0 {
        F::lemma_plus_zero(F::zero_spec());
    } else {
        let i = n - 1;
        let j = k - i;
        lemma_conv_sum_add(a, b, c, k, i as nat);
        let tb = conv_term(a, b, k, i);
        let tc = conv_term(a, c, k, i);
        assert(conv_term(a, poly_add(b, c), k, i) == tb.plus(tc)) by {
            if 0 <= j < b.len() && j < c.len() {
                F::lemma_distributive(a[i], b[j], c[j]);
            } else if 0 <= j < b.len() {
                F::lemma_plus_zero(tb);
            } else if 0 <= j < c.len() {
                lemma_zero_plus(tc);
            } else {
                F::lemma_plus_zero(F::zero_spec());
            }
        }
        lemma_plus_interchange(conv_sum(a, b, k, i as nat), conv_sum(a, c, k, i as nat), tb, tc);
    }
}

/// Contributions that all vanish sum to zero.
pub proof fn lemma_conv_sum_zero<F: FieldSpec>(a: Seq<F>, b: Seq<F>, k: int, n: nat)
    requires
        forall|i: int| 0 <= i < n ==> conv_term(a, b, k, i) == F::zero_spec(),
    ensures
        conv_sum(a, b, k, n) == F::zero_spec(),
    decreases n,
{
    if n > 0 {
        lemma_conv_sum_zero(a, b, k, (n - 1) as nat);
        F::lemma_plus_zero(F::zero_spec());
    }
}

/// Multiplication distributes over addition: for polynomials of any
/// lengths, `a.mul(&b.add(&c))` and `a.mul(&b).add(&a.mul(&c))` hold the
/// same coefficients.
pub proof fn lemma_mul_distributes_over_add<F: FieldSpec>(a: Seq<F>, b: Seq<F>, c: Seq<F>)
    ensures
        poly_mul(a, poly_add(b, c)) == poly_add(poly_mul(a, b), poly_mul(a, c)),
{
    let left = poly_mul(a, poly_add(b, c));
    let right = poly_add(poly_mul(a, b), poly_mul(a, c));
    assert(left.len() == right.len());
    assert forall|k: int| 0 <= k < left.len() implies left[k] == right[k] by {
        lemma_conv_sum_add(a, b, c, k, a.len());
        let sb = conv_sum(a, b, k, a.len());
        let sc = conv_sum(a, c, k, a.len());
        if k >= a.len() + b.len() {
            lemma_conv_sum_zero(a, b, k, a.len());
            lemma_zero_plus(sc);
        }
        if k >= a.len() + c.len() {
            lemma_conv_sum_zero(a, c, k, a.len());
            F::lemma_plus_zero(sb);
        }
    }
    assert(left =~= right);
}

/// The coefficient at any position: zero outside the sequence.
pub open spec fn coeff<F: FieldSpec>(c: Seq<F>, i: int) -> F {
    if 0 <= i < c.len() {
        c[i]
    } else {
        F::zero_spec()
    }
}

/// All coefficients from position `n` on are zero: the degree is below `n`.
pub open spec fn degree_below<F: FieldSpec>(c: Seq<F>, n: int) -> bool {
    forall|i: int| i >= n ==> #[trigger] coeff(c, i) == F::zero_spec()
}

/// The sum of the terms `c[i] * x^i` for `i < n`, where `n` may reach
/// beyond the coefficients that `c` holds.
pub open spec fn eval_ext<F: FieldSpec>(c: Seq<F>, x: F, n: nat) -> F
    decreases n,
{
    if n == 0 {
        F::zero_spec()
    } else {
        eval_ext(c, x, (n - 1) as nat).plus(coeff(c, n - 1).times(power(x, (n - 1) as nat)))
    }
}

/// Within the coefficients both sums are the same.
pub proof fn lemma_eval_ext_within<F: FieldSpec>(c: Seq<F>, x: F, n: nat)
    requires
        n <= c.len(),
    ensures
        eval_ext(c, x, n) == eval_sum(c, x, n),
    decreases n,
{
    if n > 0 {
        lemma_eval_ext_within(c, x, (n - 1) as nat);
    }
}

/// Terms with a zero coefficient add nothing.
pub proof fn lemma_eval_ext_stable<F: FieldSpec>(c: Seq<F>, x: F, m: nat, n: nat)
    requires
        m <= n,
        forall|i: int| m <= i < n ==> coeff(c, i) == F::zero_spec(),
    ensures
        eval_ext(c, x, n) == eval_ext(c, x, m),
    decreases n - m,
{
    if n > m {
        lemma_eval_ext_stable(c, x, m, (n - 1) as nat);
        assert(coeff(c, n - 1) == F::zero_spec());
        lemma_times_zero(power(x, (n - 1) as nat));
        F::lemma_plus_zero(eval_ext(c, x, (n - 1) as nat));
    }
}

/// Summing beyond the degree gives the value of the polynomial.
pub proof fn lemma_eval_ext_full<F: FieldSpec>(c: Seq<F>, x: F, n: nat)
    requires
        degree_below(c, n as int) || n >= c.len(),
    ensures
        eval_ext(c, x, n) == poly_eval(c, x),
{
    lemma_eval_ext_within(c, x, c.len());
    if n >= c.len() {
        lemma_eval_ext_stable(c, x, c.len(), n);
    } else {
        assert forall|i: int| n <= i < c.len() implies coeff(c, i) == F::zero_spec() by {
            assert(coeff(c, i) == F::zero_spec());
        }
        lemma_eval_ext_stable(c, x, n, c.len());
    }
}

/// The sum depends on the coefficients below `n` only.
pub proof fn lemma_eval_ext_agree<F: FieldSpec>(c: Seq<F>, d: Seq<F>, x: F, n: nat)
    requires
        forall|i: int| 0 <= i < n ==> coeff(c, i) == coeff(d, i),
    ensures
        eval_ext(c, x, n) == eval_ext(d, x, n),
    decreases n,
{
    if n > 0 {
        lemma_eval_ext_agree(c, d, x, (n - 1) as nat);
    }
}

/// The coefficients of a sum, at any position.
pub proof fn lemma_coeff_add<F: FieldSpec>(a: Seq<F>, b: Seq<F>, i: int)
    ensures
        coeff(poly_add(a, b), i) == coeff(a, i).plus(coeff(b, i)),
{
    F::lemma_plus_zero(coeff(a, i));
    lemma_zero_plus(coeff(b, i));
}

/// The coefficients of a scaled polynomial, at any position.
pub proof fn lemma_coeff_scale<F: FieldSpec>(a: Seq<F>, s: F, i: int)
    ensures
        coeff(poly_scale(a, s), i) == coeff(a, i).times(s),
{
    lemma_times_zero(s);
}

/// The partial sums of a sum are the sums of the partial sums.
pub proof fn lemma_eval_ext_add<F: FieldSpec>(a: Seq<F>, b: Seq<F>, x: F, n: nat)
    ensures
        eval_ext(poly_add(a, b), x, n) == eval_ext(a, x, n).plus(eval_ext(b, x, n)),
    decreases n,
{
    if n == 0 {
        F::lemma_plus_zero(F::zero_spec());
    } else {
        let i = (n - 1) as nat;
        let p = power(x, i);
        lemma_eval_ext_add(a, b, x, i);
        lemma_coeff_add(a, b, i as int);
        lemma_distributive_right(coeff(a, i as int), coeff(b, i as int), p);
        lemma_plus_interchange(
            eval_ext(a, x, i),
            eval_ext(b, x, i),
            coeff(a, i as int).times(p),
            coeff(b, i as int).times(p),
        );
    }
}

/// The value of a sum is the sum of the values.
pub proof fn lemma_eval_add<F: FieldSpec>(a: Seq<F>, b: Seq<F>, x: F)
    ensures
        poly_eval(poly_add(a, b), x) == poly_eval(a, x).plus(poly_eval(b, x)),
{
    let n = poly_add(a, b).len();
    lemma_eval_ext_full(poly_add(a, b), x, n);
    lemma_eval_ext_full(a, x, n);
    lemma_eval_ext_full(b, x, n);
    lemma_eval_ext_add(a, b, x, n);
}

/// The partial sums of a scaled polynomial are the scaled partial sums.
pub proof fn lemma_eval_ext_scale<F: FieldSpec>(a: Seq<F>, s: F, x: F, n: nat)
    ensures
        eval_ext(poly_scale(a, s), x, n) == eval_ext(a, x, n).times(s),
    decreases n,
{
    if n == 0 {
        lemma_times_zero(s);
    } else {
        let i = (n - 1) as nat;
        let p = power(x, i);
        let c = coeff(a, i as int);
        lemma_eval_ext_scale(a, s, x, i);
        lemma_coeff_scale(a, s, i as int);
        F::lemma_times_associative(c, s, p);
        F::lemma_times_commutative(s, p);
        F::lemma_times_associative(c, p, s);
        lemma_distributive_right(eval_ext(a, x, i), c.times(p), s);
    }
}

/// The value of a scaled polynomial is the scaled value.
pub proof fn lemma_eval_scale<F: FieldSpec>(a: Seq<F>, s: F, x: F)
    ensures
        poly_eval(poly_scale(a, s), x) == poly_eval(a, x).times(s),
{
    lemma_eval_ext_full(poly_scale(a, s), x, a.len());
    lemma_eval_ext_full(a, x, a.len());
    lemma_eval_ext_scale(a, s, x, a.len());
}

/// Stripping zero coefficients from the high end changes no value.
pub proof fn lemma_eval_trim<F: FieldSpec>(c: Seq<F>, x: F)
    ensures
        poly_eval(poly_trim(c), x) == poly_eval(c, x),
    decreases c.len(),
{
    if c.len() > 0 && c.last() == F::zero_spec() {
        let shorter = c.drop_last();
        lemma_eval_trim(shorter, x);
        lemma_eval_ext_full(shorter, x, shorter.len());
        lemma_eval_ext_full(c, x, c.len());
        assert forall|i: int| 0 <= i < shorter.len() implies coeff(c, i) == coeff(shorter, i) by {}
        lemma_eval_ext_agree(c, shorter, x, shorter.len());
        lemma_eval_ext_stable(c, x, shorter.len(), c.len());
    }
}

/// The contributions of the first `n` coefficients of `a` to the product.
pub open spec fn partial_product<F: FieldSpec>(a: Seq<F>, b: Seq<F>, n: nat) -> Seq<F> {
    Seq::new(a.len() + b.len(), |k: int| conv_sum(a, b, k, n))
}

/// The contribution of `a[n]` alone to the product: `b` scaled and shifted.
pub open spec fn shifted_multiple<F: FieldSpec>(a: Seq<F>, b: Seq<F>, n: int) -> Seq<F> {
    Seq::new(a.len() + b.len(), |k: int| conv_term(a, b, k, n))
}

/// The value of `a[n] * x^n * b`, summed up to the term `n + m`.
proof fn lemma_eval_shifted_upto<F: FieldSpec>(a: Seq<F>, b: Seq<F>, n: nat, x: F, m: nat)
    requires
        n < a.len(),
        m <= b.len(),
    ensures
        eval_ext(shifted_multiple(a, b, n as int), x, n + m) == a[n as int].times(
            power(x, n),
        ).times(eval_sum(b, x, m)),
    decreases m,
{
    let s = shifted_multiple(a, b, n as int);
    let lead = a[n as int].times(power(x, n));
    if m == 0 {
        assert forall|i: int| 0 <= i < n implies coeff(s, i) == F::zero_spec() by {}
        lemma_eval_ext_stable(s, x, 0, n);
        lemma_times_zero(lead);
    } else {
        let j = (m - 1) as nat;
        lemma_eval_shifted_upto(a, b, n, x, j);
        assert(coeff(s, (n + j) as int) == a[n as int].times(b[j as int]));
        lemma_power_add(x, n, j);
        lemma_times_interchange(a[n as int], b[j as int], power(x, n), power(x, j));
        F::lemma_distributive(lead, eval_sum(b, x, j), b[j as int].times(power(x, j)));
        assert(n + m - 1 == n + j);
    }
}

/// The value of `a[n] * x^n * b`.
proof fn lemma_eval_shifted<F: FieldSpec>(a: Seq<F>, b: Seq<F>, n: nat, x: F)
    requires
        n < a.len(),
    ensures
        poly_eval(shifted_multiple(a, b, n as int), x) == a[n as int].times(power(x, n)).times(
            poly_eval(b, x),
        ),
{
    let s = shifted_multiple(a, b, n as int);
    lemma_eval_shifted_upto(a, b, n, x, b.len());
    lemma_eval_ext_full(s, x, s.len());
    assert forall|i: int| n + b.len() <= i < s.len() implies coeff(s, i) == F::zero_spec() by {}
    lemma_eval_ext_stable(s, x, n + b.len(), s.len());
}

/// The value of the product of the first `n` terms of `a` with `b`.
proof fn lemma_eval_partial_product<F: FieldSpec>(a: Seq<F>, b: Seq<F>, x: F, n: nat)
    requires
        n <= a.len(),
    ensures
        poly_eval(partial_product(a, b, n), x) == eval_sum(a, x, n).times(poly_eval(b, x)),
    decreases n,
{
    let whole = partial_product(a, b, n);
    if n == 0 {
        assert forall|i: int| 0 <= i < whole.len() implies coeff(whole, i) == F::zero_spec() by {}
        lemma_eval_ext_stable(whole, x, 0, whole.len());
        lemma_eval_ext_full(whole, x, whole.len());
        lemma_times_zero(poly_eval(b, x));
    } else {
        let i = (n - 1) as nat;
        let before = partial_product(a, b, i);
        let last = shifted_multiple(a, b, i as int);
        lemma_eval_partial_product(a, b, x, i);
        lemma_eval_shifted(a, b, i, x);
        assert(whole =~= poly_add(before, last));
        lemma_eval_add(before, last, x);
        lemma_distributive_right(
            eval_sum(a, x, i),
            a[i as int].times(power(x, i)),
            poly_eval(b, x),
        );
    }
}

/// The value of a product is the product of the values.
pub proof fn lemma_eval_mul<F: FieldSpec>(a: Seq<F>, b: Seq<F>, x: F)
    ensures
        poly_eval(poly_mul(a, b), x) == poly_eval(a, x).times(poly_eval(b, x)),
{
    lemma_eval_partial_product(a, b, x, a.len());
    assert(partial_product(a, b, a.len()) =~= poly_mul(a, b));
}

/// The degree of a sum is below any bound on the degrees of the summands.
pub proof fn lemma_degree_add<F: FieldSpec>(a: Seq<F>, b: Seq<F>, n: int)
    requires
        degree_below(a, n),
        degree_below(b, n),
    ensures
        degree_below(poly_add(a, b), n),
{
    assert forall|i: int| i >= n implies #[trigger] coeff(poly_add(a, b), i)
        == F::zero_spec() by {
        lemma_coeff_add(a, b, i);
        assert(coeff(a, i) == F::zero_spec());
        assert(coeff(b, i) == F::zero_spec());
        F::lemma_plus_zero(F::zero_spec());
    }
}

/// Scaling does not raise the degree.
pub proof fn lemma_degree_scale<F: FieldSpec>(a: Seq<F>, s: F, n: int)
    requires
        degree_below(a, n),
    ensures
        degree_below(poly_scale(a, s), n),
{
    assert forall|i: int| i >= n implies #[trigger] coeff(poly_scale(a, s), i)
        == F::zero_spec() by {
        lemma_coeff_scale(a, s, i);
        assert(coeff(a, i) == F::zero_spec());
        lemma_times_zero(s);
    }
}

/// The degrees of the factors add up in a product.
pub proof fn lemma_degree_mul<F: FieldSpec>(a: Seq<F>, b: Seq<F>, m: int, n: int)
    requires
        degree_below(a, m),
        degree_below(b, n),
    ensures
        degree_below(poly_mul(a, b), m + n - 1),
{
    assert forall|k: int| k >= m + n - 1 implies #[trigger] coeff(poly_mul(a, b), k)
        == F::zero_spec() by {
        if 0 <= k < a.len() + b.len() {
            assert forall|i: int| 0 <= i < a.len() implies conv_term(a, b, k, i)
                == F::zero_spec() by {
                if 0 <= k - i < b.len() {
                    if i >= m {
                        assert(coeff(a, i) == F::zero_spec());
                        lemma_times_zero(b[k - i]);
                    } else {
                        assert(coeff(b, k - i) == F::zero_spec());
                        lemma_times_zero(a[i]);
                    }
                }
            }
            lemma_conv_sum_zero(a, b, k, a.len());
        }
    }
}

/// Horner's rule for the partial sums.
proof fn lemma_eval_sum_horner<F: FieldSpec>(c: Seq<F>, x: F, n: nat)
    requires
        n < c.len(),
    ensures
        eval_sum(c, x, n + 1) == c[0].plus(x.times(eval_sum(c.skip(1), x, n))),
    decreases n,
{
    let rest = c.skip(1);
    if n == 0 {
        reveal_with_fuel(eval_sum, 2);
        F::lemma_times_one(c[0]);
        lemma_zero_plus(c[0]);
        lemma_times_zero(x);
        F::lemma_plus_zero(c[0]);
    } else {
        let i = (n - 1) as nat;
        let p = power(x, n);
        let q = power(x, i);
        let inner = eval_sum(rest, x, i);
        lemma_eval_sum_horner(c, x, i);
        assert(rest[i as int] == c[n as int]);
        F::lemma_distributive(x, inner, c[n as int].times(q));
        F::lemma_plus_associative(c[0], x.times(inner), x.times(c[n as int].times(q)));
        F::lemma_times_associative(c[n as int], q, x);
        F::lemma_times_commutative(c[n as int].times(q), x);
    }
}

/// Horner's rule: the value is the constant term plus `x` times the value
/// of the remaining coefficients.
pub proof fn lemma_eval_horner<F: FieldSpec>(c: Seq<F>, x: F)
    requires
        c.len() >= 1,
    ensures
        poly_eval(c, x) == c[0].plus(x.times(poly_eval(c.skip(1), x))),
{
    lemma_eval_sum_horner(c, x, (c.len() - 1) as nat);
}

/// The value at zero is the constant term.
pub proof fn lemma_eval_at_zero<F: FieldSpec>(c: Seq<F>)
    ensures
        poly_eval(c, F::zero_spec()) == coeff(c, 0),
{
    if c.len() > 0 {
        lemma_eval_horner(c, F::zero_spec());
        lemma_times_zero(poly_eval(c.skip(1), F::zero_spec()));
        F::lemma_plus_zero(c[0]);
    }
}

/// The quotient of the division of `c` by `x - r`.
pub open spec fn quotient<F: FieldSpec>(c: Seq<F>, r: F) -> Seq<F>
    decreases c.len(),
{
    if c.len() <= 1 {
        Seq::empty()
    } else {
        seq![poly_eval(c.skip(1), r)] + quotient(c.skip(1), r)
    }
}

/// The quotient has one coefficient fewer.
pub proof fn lemma_quotient_len<F: FieldSpec>(c: Seq<F>, r: F)
    ensures
        quotient(c, r).len() == (if c.len() == 0 {
            0
        } else {
            c.len() - 1
        }),
    decreases c.len(),
{
    if c.len() > 1 {
        lemma_quotient_len(c.skip(1), r);
    }
}

/// The algebra of one step of the division by `x - r`.
proof fn lemma_factor_step<F: FieldSpec>(c0: F, x: F, r: F, u: F, w: F)
    ensures
        c0.plus(x.times(u.plus(x.minus(r).times(w)))) == c0.plus(r.times(u)).plus(
            x.minus(r).times(u.plus(x.times(w))),
        ),
{
    let d = x.minus(r);
    // r * u + d * u == x * u
    F::lemma_minus_plus(x, r);
    F::lemma_plus_commutative(d, r);
    lemma_distributive_right(r, d, u);
    // d * (x * w) == x * (d * w)
    F::lemma_times_associative(d, x, w);
    F::lemma_times_commutative(d, x);
    F::lemma_times_associative(x, d, w);
    // the two sides, expanded
    F::lemma_distributive(d, u, x.times(w));
    F::lemma_distributive(x, u, d.times(w));
    F::lemma_plus_associative(c0, r.times(u), d.times(u).plus(d.times(x.times(w))));
    F::lemma_plus_associative(r.times(u), d.times(u), d.times(x.times(w)));
}

/// Dividing by `x - r` leaves the value at `r` as the remainder.
pub proof fn lemma_factor<F: FieldSpec>(c: Seq<F>, r: F, x: F)
    ensures
        poly_eval(c, x) == poly_eval(c, r).plus(
            x.minus(r).times(poly_eval(quotient(c, r), x)),
        ),
    decreases c.len(),
{
    let q = quotient(c, r);
    if c.len() == 0 {
        lemma_times_zero(x.minus(r));
        F::lemma_plus_zero(F::zero_spec());
    } else {
        let rest = c.skip(1);
        lemma_eval_horner(c, x);
        lemma_eval_horner(c, r);
        if c.len() == 1 {
            lemma_times_zero(x);
            lemma_times_zero(r);
            lemma_times_zero(x.minus(r));
            F::lemma_plus_zero(c[0]);
            F::lemma_plus_zero(c[0].plus(F::zero_spec()));
        } else {
            lemma_factor(rest, r, x);
            assert(q[0] == poly_eval(rest, r));
            assert(q.skip(1) =~= quotient(rest, r));
            lemma_eval_horner(q, x);
            lemma_factor_step(
                c[0],
                x,
                r,
                poly_eval(rest, r),
                poly_eval(quotient(rest, r), x),
            );
        }
    }
}

/// A polynomial with at least as many distinct roots as coefficients is
/// zero everywhere.
pub proof fn lemma_roots<F: FieldSpec>(c: Seq<F>, roots: Seq<F>, x: F)
    requires
        c.len() <= roots.len(),
        forall|i: int, j: int| 0 <= i < j < roots.len() ==> roots[i] != roots[j],
        forall|i: int| 0 <= i < roots.len() ==> poly_eval(c, roots[i]) == F::zero_spec(),
    ensures
        poly_eval(c, x) == F::zero_spec(),
    decreases roots.len(),
{
    if c.len() > 0 {
        let r = roots.last();
        let q = quotient(c, r);
        let others = roots.drop_last();
        lemma_quotient_len(c, r);
        assert forall|i: int| 0 <= i < others.len() implies poly_eval(q, others[i])
            == F::zero_spec() by {
            let y = others[i];
            assert(y == roots[i]);
            lemma_factor(c, r, y);
            lemma_zero_plus(y.minus(r).times(poly_eval(q, y)));
            lemma_minus_is_zero(y, r);
            lemma_no_zero_divisors(y.minus(r), poly_eval(q, y));
        }
        lemma_roots(q, others, x);
        lemma_factor(c, r, x);
        lemma_times_zero(x.minus(r));
        F::lemma_plus_zero(F::zero_spec());
    }
}

} // verus!
