//! Consequences of the field axioms.
use crate::field::{neg, power, FieldSpec};
use vstd::prelude::*;

verus! {

/// Zero is neutral for addition on the left too.
pub proof fn lemma_zero_plus<F: FieldSpec>(a: F)
    ensures
        F::zero_spec().plus(a) == a,
{
    F::lemma_plus_commutative(F::zero_spec(), a);
    F::lemma_plus_zero(a);
}

/// An element and its additive inverse cancel.
pub proof fn lemma_plus_neg<F: FieldSpec>(a: F)
    ensures
        neg(a).plus(a) == F::zero_spec(),
        a.plus(neg(a)) == F::zero_spec(),
{
    F::lemma_minus_plus(F::zero_spec(), a);
    F::lemma_plus_commutative(a, neg(a));
}

/// A common summand cancels.
pub proof fn lemma_plus_cancel<F: FieldSpec>(a: F, b: F, c: F)
    requires
        a.plus(c) == b.plus(c),
    ensures
        a == b,
{
    let n = neg(c);
    lemma_plus_neg(c);
    F::lemma_plus_associative(a, c, n);
    F::lemma_plus_associative(b, c, n);
    F::lemma_plus_zero(a);
    F::lemma_plus_zero(b);
}

/// Subtracting is adding the additive inverse.
pub proof fn lemma_minus_is_plus_neg<F: FieldSpec>(a: F, b: F)
    ensures
        a.minus(b) == a.plus(neg(b)),
{
    F::lemma_minus_plus(a, b);
    lemma_plus_neg(b);
    F::lemma_plus_associative(a, neg(b), b);
    F::lemma_plus_zero(a);
    lemma_plus_cancel(a.minus(b), a.plus(neg(b)), b);
}

/// An element minus itself is zero.
pub proof fn lemma_minus_self<F: FieldSpec>(a: F)
    ensures
        a.minus(a) == F::zero_spec(),
{
    F::lemma_minus_plus(a, a);
    lemma_zero_plus(a);
    lemma_plus_cancel(a.minus(a), F::zero_spec(), a);
}

/// A difference is zero exactly when the two elements are equal.
pub proof fn lemma_minus_is_zero<F: FieldSpec>(a: F, b: F)
    ensures
        a.minus(b) == F::zero_spec() <==> a == b,
{
    lemma_minus_self(a);
    F::lemma_minus_plus(a, b);
    lemma_zero_plus(b);
}

/// A product with zero is zero.
pub proof fn lemma_times_zero<F: FieldSpec>(a: F)
    ensures
        a.times(F::zero_spec()) == F::zero_spec(),
        F::zero_spec().times(a) == F::zero_spec(),
{
    let z = F::zero_spec();
    F::lemma_plus_zero(z);
    F::lemma_distributive(a, z, z);
    lemma_zero_plus(a.times(z));
    lemma_plus_cancel(a.times(z), z, a.times(z));
    F::lemma_times_commutative(a, z);
}

/// One is neutral for multiplication on the left too.
pub proof fn lemma_one_times<F: FieldSpec>(a: F)
    ensures
        F::one_spec().times(a) == a,
{
    F::lemma_times_commutative(F::one_spec(), a);
    F::lemma_times_one(a);
}

/// Multiplication distributes over addition from the right too.
pub proof fn lemma_distributive_right<F: FieldSpec>(a: F, b: F, c: F)
    ensures
        a.plus(b).times(c) == a.times(c).plus(b.times(c)),
{
    F::lemma_times_commutative(a.plus(b), c);
    F::lemma_distributive(c, a, b);
    F::lemma_times_commutative(c, a);
    F::lemma_times_commutative(c, b);
}

/// A product is zero only if one of its factors is.
pub proof fn lemma_no_zero_divisors<F: FieldSpec>(a: F, b: F)
    requires
        a.times(b) == F::zero_spec(),
    ensures
        a == F::zero_spec() || b == F::zero_spec(),
{
    if a != F::zero_spec() {
        let i = a.inverse();
        F::lemma_times_inverse(a);
        F::lemma_times_commutative(a, i);
        F::lemma_times_associative(i, a, b);
        lemma_one_times(b);
        lemma_times_zero(i);
    }
}

/// A product of non-zero elements is not zero.
pub proof fn lemma_times_nonzero<F: FieldSpec>(a: F, b: F)
    requires
        a != F::zero_spec(),
        b != F::zero_spec(),
    ensures
        a.times(b) != F::zero_spec(),
{
    if a.times(b) == F::zero_spec() {
        lemma_no_zero_divisors(a, b);
    }
}

/// `(a + b) + (c + d) == (a + c) + (b + d)`
pub proof fn lemma_plus_interchange<F: FieldSpec>(a: F, b: F, c: F, d: F)
    ensures
        a.plus(b).plus(c.plus(d)) == a.plus(c).plus(b.plus(d)),
{
    F::lemma_plus_associative(a, b, c.plus(d));
    F::lemma_plus_associative(b, c, d);
    F::lemma_plus_commutative(b, c);
    F::lemma_plus_associative(c, b, d);
    F::lemma_plus_associative(a, c, b.plus(d));
}

/// `(a * b) * (c * d) == (a * c) * (b * d)`
pub proof fn lemma_times_interchange<F: FieldSpec>(a: F, b: F, c: F, d: F)
    ensures
        a.times(b).times(c.times(d)) == a.times(c).times(b.times(d)),
{
    F::lemma_times_associative(a, b, c.times(d));
    F::lemma_times_associative(b, c, d);
    F::lemma_times_commutative(b, c);
    F::lemma_times_associative(c, b, d);
    F::lemma_times_associative(a, c, b.times(d));
}

/// The zeroth power of any element is one.
pub proof fn lemma_power_zero<F: FieldSpec>(x: F)
    ensures
        power(x, 0) == F::one_spec(),
{
}

/// The first power of an element is the element.
pub proof fn lemma_power_one<F: FieldSpec>(x: F)
    ensures
        power(x, 1) == x,
{
    reveal_with_fuel(power, 2);
    lemma_one_times(x);
}

/// Exponents add up when powers of one element are multiplied.
pub proof fn lemma_power_add<F: FieldSpec>(x: F, a: nat, b: nat)
    ensures
        power(x, a + b) == power(x, a).times(power(x, b)),
    decreases b,
{
    if b == 0 {
        F::lemma_times_one(power(x, a));
    } else {
        lemma_power_add(x, a, (b - 1) as nat);
        F::lemma_times_associative(power(x, a), power(x, (b - 1) as nat), x);
        assert(a + b - 1 == a + (b - 1));
    }
}

/// Multiplying by the inverse of `d` and then by a multiple of `d` leaves
/// the other factor of that multiple.
pub proof fn lemma_cancel_inverse<F: FieldSpec>(v: F, d: F, other: F)
    requires
        d != F::zero_spec(),
    ensures
        v.times(d.inverse()).times(other.times(d)) == v.times(other),
{
    let i = d.inverse();
    F::lemma_times_commutative(other, d);
    F::lemma_times_associative(v, i, d.times(other));
    F::lemma_times_associative(i, d, other);
    F::lemma_times_commutative(i, d);
    F::lemma_times_inverse(d);
    lemma_one_times(other);
}

/// Multiplying by minus one gives the additive inverse.
pub proof fn lemma_times_neg_one<F: FieldSpec>(a: F)
    ensures
        a.times(neg(F::one_spec())) == neg(a),
{
    let m = neg(F::one_spec());
    F::lemma_distributive(a, m, F::one_spec());
    lemma_plus_neg(F::one_spec());
    lemma_times_zero(a);
    F::lemma_times_one(a);
    lemma_plus_neg(a);
    lemma_plus_cancel(a.times(m), neg(a), a);
}

/// Two elements are equal if one plus the inverse of the other is zero.
pub proof fn lemma_equal_by_difference<F: FieldSpec>(a: F, b: F)
    requires
        a.plus(neg(b)) == F::zero_spec(),
    ensures
        a == b,
{
    lemma_minus_is_plus_neg(a, b);
    lemma_minus_is_zero(a, b);
}

} // verus!
