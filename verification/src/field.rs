//! The field contract: the arithmetic that polynomials and interpolation
//! are built on, together with the laws every implementation has to prove.
use crate::field_lemmas::lemma_power_add;
use crate::SharingError;
use rand_core::RngCore;
use vstd::arithmetic::div_mod::lemma_div_denominator;
use vstd::arithmetic::div_mod::lemma_fundamental_div_mod;
use vstd::arithmetic::power2::{lemma2_to64, lemma2_to64_rest, lemma_pow2_pos, lemma_pow2_unfold, pow2};
use vstd::bits::lemma_usize_shr_is_div;
use vstd::prelude::*;

pub use crate::gf256::GF;

verus! {

/// The mathematical model of a field: its two constants and four
/// operations as `spec` functions, and the field axioms as `proof` functions
/// that an implementation must establish for them.
pub trait FieldSpec: Sized {
    /// The additive identity.
    spec fn zero_spec() -> Self;

    /// The multiplicative identity.
    spec fn one_spec() -> Self;

    /// The sum of two elements.
    spec fn plus(self, rhs: Self) -> Self;

    /// The difference of two elements.
    spec fn minus(self, rhs: Self) -> Self;

    /// The product of two elements.
    spec fn times(self, rhs: Self) -> Self;

    /// The multiplicative inverse; meaningful for non-zero elements only.
    spec fn inverse(self) -> Self;

    /// Addition is commutative.
    proof fn lemma_plus_commutative(a: Self, b: Self)
        ensures
            a.plus(b) == b.plus(a),
    ;

    /// Addition is associative.
    proof fn lemma_plus_associative(a: Self, b: Self, c: Self)
        ensures
            a.plus(b).plus(c) == a.plus(b.plus(c)),
    ;

    /// Zero is neutral for addition.
    proof fn lemma_plus_zero(a: Self)
        ensures
            a.plus(Self::zero_spec()) == a,
    ;

    /// Subtraction undoes addition.
    proof fn lemma_minus_plus(a: Self, b: Self)
        ensures
            a.minus(b).plus(b) == a,
    ;

    /// Multiplication is commutative.
    proof fn lemma_times_commutative(a: Self, b: Self)
        ensures
            a.times(b) == b.times(a),
    ;

    /// Multiplication is associative.
    proof fn lemma_times_associative(a: Self, b: Self, c: Self)
        ensures
            a.times(b).times(c) == a.times(b.times(c)),
    ;

    /// One is neutral for multiplication.
    proof fn lemma_times_one(a: Self)
        ensures
            a.times(Self::one_spec()) == a,
    ;

    /// Multiplication distributes over addition.
    proof fn lemma_distributive(a: Self, b: Self, c: Self)
        ensures
            a.times(b.plus(c)) == a.times(b).plus(a.times(c)),
    ;

    /// A non-zero element times its inverse is one.
    proof fn lemma_times_inverse(a: Self)
        requires
            a != Self::zero_spec(),
        ensures
            a.times(a.inverse()) == Self::one_spec(),
    ;

    /// The field has more than one element.
    proof fn lemma_one_is_not_zero()
        ensures
            Self::one_spec() != Self::zero_spec(),
    ;
}

/// A finite field whose elements can be computed with: every operation
/// returns what the model of `FieldSpec` says. Elements can be compared and
/// are totally ordered, so that collections of them can be walked in a
/// fixed order.
pub trait FiniteField: FieldSpec + Copy + PartialEq + Eq + PartialOrd + Ord + core::fmt::Debug {
    /// The additive identity.
    fn zero() -> (r: Self)
        ensures
            r == Self::zero_spec(),
    ;

    /// The multiplicative identity.
    fn one() -> (r: Self)
        ensures
            r == Self::one_spec(),
    ;

    /// Draws an element from the randomness source. Nothing is promised of
    /// the element drawn; a failure of the source is handed on.
    fn random<R: RngCore>(rng: &mut R) -> (r: Result<Self, SharingError>)
        ensures
            r is Err ==> r == Err::<Self, SharingError>(SharingError::RandomnessFailure),
    ;

    /// The sum of two elements.
    fn add(self, rhs: Self) -> (r: Self)
        ensures
            r == self.plus(rhs),
    ;

    /// The difference of two elements.
    fn sub(self, rhs: Self) -> (r: Self)
        ensures
            r == self.minus(rhs),
    ;

    /// The product of two elements.
    fn mul(self, rhs: Self) -> (r: Self)
        ensures
            r == self.times(rhs),
    ;

    /// Adds `rhs` to `self` in place.
    fn add_assign(&mut self, rhs: Self)
        ensures
            *final(self) == old(self).plus(rhs),
    {
        *self = self.add(rhs);
    }

    /// Subtracts `rhs` from `self` in place.
    fn sub_assign(&mut self, rhs: Self)
        ensures
            *final(self) == old(self).minus(rhs),
    {
        *self = self.sub(rhs);
    }

    /// Multiplies `self` by `rhs` in place.
    fn mul_assign(&mut self, rhs: Self)
        ensures
            *final(self) == old(self).times(rhs),
    {
        *self = self.mul(rhs);
    }

    /// Whether two elements are the same element of the field.
    fn equals(self, rhs: Self) -> (r: bool)
        ensures
            r == (self == rhs),
    ;

    /// The multiplicative inverse. Zero has none.
    fn minv(self) -> (r: Self)
        requires
            self != Self::zero_spec(),
        ensures
            r == self.inverse(),
    ;

    /// The additive inverse.
    fn ainv(self) -> (r: Self)
        ensures
            r == neg(self),
    {
        Self::zero().sub(self)
    }

    /// Raises `self` to the power `exp` by square-and-multiply. Every bit of
    /// the exponent's full width is visited, from the most significant down,
    /// so the number of field operations does not depend on `exp`.
    fn pow(self, exp: usize) -> (r: Self)
        ensures
            r == power(self, exp as nat),
    {
        let mut out = Self::one();
        let mut remaining: usize = usize::BITS as usize;
        proof {
            lemma_whole_width_shifts_out(exp);
        }
        while remaining > 0
            invariant
                remaining <= usize::BITS,
                out == power(self, (exp as nat) / pow2(remaining as nat)),
            decreases remaining,
        {
            remaining = remaining - 1;
            out.mul_assign(out);
            let bit: usize = (exp >> remaining) & 1;
            proof {
                lemma_next_bit(exp, remaining);
                let high = (exp as nat) / pow2((remaining + 1) as nat);
                lemma_power_add(self, high, high);
            }
            if bit != 0 {
                out.mul_assign(self);
            }
        }
        proof {
            lemma2_to64();
        }
        out
    }
}

/// The additive inverse of `a`.
pub open spec fn neg<F: FieldSpec>(a: F) -> F {
    F::zero_spec().minus(a)
}

/// `x` multiplied with itself `n` times; one for `n == 0`.
pub open spec fn power<F: FieldSpec>(x: F, n: nat) -> F
    decreases n,
{
    if n == 0 {
        F::one_spec()
    } else {
        power(x, (n - 1) as nat).times(x)
    }
}

/// Shifting a machine word right by its whole width leaves nothing.
pub proof fn lemma_whole_width_shifts_out(exp: usize)
    ensures
        (exp as nat) / pow2(usize::BITS as nat) == 0,
{
    lemma2_to64();
    lemma2_to64_rest();
    assert(usize::BITS == 32 || usize::BITS == 64);
    assert((exp as nat) < pow2(usize::BITS as nat));
    vstd::arithmetic::div_mod::lemma_basic_div(exp as int, pow2(usize::BITS as nat) as int);
}

/// The bits of `exp` above position `k` are twice the bits above position
/// `k + 1` plus bit `k` itself, which a shift and a mask read off.
pub proof fn lemma_next_bit(exp: usize, k: usize)
    requires
        k < usize::BITS,
    ensures
        ((exp >> k) & 1) == 0 || ((exp >> k) & 1) == 1,
        (exp as nat) / pow2(k as nat) == 2 * ((exp as nat) / pow2((k + 1) as nat)) + ((exp >> k)
            & 1),
{
    let low = pow2(k as nat);
    let shifted: usize = exp >> k;
    lemma_usize_shr_is_div(exp, k);
    lemma_pow2_pos(k as nat);
    lemma_pow2_unfold((k + 1) as nat);
    assert(pow2((k + 1) as nat) == low * 2) by (nonlinear_arith)
        requires
            pow2((k + 1) as nat) == 2 * low,
    ;
    lemma_div_denominator(exp as int, low as int, 2);
    assert(shifted & 1 == shifted % 2) by (bit_vector);
    lemma_fundamental_div_mod(shifted as int, 2);
}

} // verus!
