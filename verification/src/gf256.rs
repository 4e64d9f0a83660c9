//! The field of 256 elements, with the arithmetic of the
//! `isochronous_finite_fields` crate underneath.
use crate::field::{FieldSpec, FiniteField};
use crate::random::draw_byte;
use crate::SharingError;
use rand_core::RngCore;
use vstd::prelude::*;

verus! {

/// An element of GF(2^8): a polynomial over GF(2) of degree below eight,
/// its coefficients the bits of the byte, taken modulo
/// x^8 + x^4 + x^3 + x + 1.
#[derive(Clone, Copy, PartialEq, Eq, Structural, PartialOrd, Ord, Hash, Debug)]
pub struct GF(pub u8);

/// The element times x: a shift, and one reduction where x^8 appears.
pub open spec fn xtime(a: u8) -> u8 {
    if a & 0x80 == 0x80 {
        ((a << 1) ^ 0x1b) as u8
    } else {
        (a << 1) as u8
    }
}

/// The sum, over the lowest `steps` bits of `b` that are set, of `a` times
/// the power of x at that bit.
pub open spec fn gf_mul_steps(a: u8, b: u8, steps: u8) -> u8
    decreases steps,
{
    if steps == 0 {
        0u8
    } else {
        (if b & 1 == 1 {
            a
        } else {
            0u8
        }) ^ gf_mul_steps(xtime(a), b >> 1, (steps - 1) as u8)
    }
}

/// The product of two elements of GF(2^8).
pub open spec fn gf_mul(a: u8, b: u8) -> u8 {
    gf_mul_steps(a, b, 8)
}

/// The element whose product with `a` is one.
pub open spec fn gf_inv(a: u8) -> u8 {
    choose|b: u8| gf_mul(a, b) == 1
}

/// `Add::add` of `isochronous_finite_fields::GF`: addition in GF(2^8) is
/// the exclusive or of the two bytes.
#[verifier::external_body]
fn gf_add_bytes(a: u8, b: u8) -> (r: u8)
    ensures
        r == a ^ b,
{
    (isochronous_finite_fields::GF(a) + isochronous_finite_fields::GF(b)).0
}

/// `Sub::sub` of `isochronous_finite_fields::GF`: subtraction in GF(2^8) is
/// the exclusive or of the two bytes, as addition is.
#[verifier::external_body]
fn gf_sub_bytes(a: u8, b: u8) -> (r: u8)
    ensures
        r == a ^ b,
{
    (isochronous_finite_fields::GF(a) - isochronous_finite_fields::GF(b)).0
}

/// `Mul::mul` of `isochronous_finite_fields::GF`: eight rounds, each of which
/// adds `a` to the product where the lowest bit of `b` is set, shifts `b`
/// right, and multiplies `a` by x, reducing by x^8 + x^4 + x^3 + x + 1.
/// `gf_mul` says the same, round for round.
#[verifier::external_body]
fn gf_mul_bytes(a: u8, b: u8) -> (r: u8)
    ensures
        r == gf_mul(a, b),
{
    (isochronous_finite_fields::GF(a) * isochronous_finite_fields::GF(b)).0
}

/// `isochronous_finite_fields::GF::multiplicative_inverse`, which tries every
/// byte and collects, by exclusive or, those whose product with `a` is one.
/// For a non-zero `a` there is exactly one such byte (`lemma_inverse_exists`,
/// `lemma_inverse_unique`), so that byte is what comes back.
#[verifier::external_body]
fn gf_inverse_byte(a: u8) -> (r: u8)
    ensures
        a != 0 ==> gf_mul(a, r) == 1,
{
    isochronous_finite_fields::GF(a).multiplicative_inverse().0
}

/// Exclusive or is commutative and associative, zero is neutral, and every
/// byte is its own inverse.
pub proof fn lemma_xor_laws(a: u8, b: u8, c: u8)
    ensures
        a ^ b == b ^ a,
        (a ^ b) ^ c == a ^ (b ^ c),
        a ^ 0 == a,
        a ^ a == 0,
{
    assert(a ^ b == b ^ a) by (bit_vector);
    assert((a ^ b) ^ c == a ^ (b ^ c)) by (bit_vector);
    assert(a ^ 0 == a) by (bit_vector);
    assert(a ^ a == 0) by (bit_vector);
}

/// Multiplying by x respects sums.
pub proof fn lemma_xtime_linear(a: u8, c: u8)
    ensures
        xtime(a ^ c) == xtime(a) ^ xtime(c),
        xtime(0) == 0,
{
    assert(xtime(a ^ c) == xtime(a) ^ xtime(c)) by (bit_vector);
    assert(xtime(0) == 0) by (bit_vector);
}

/// Zero times anything is zero.
pub proof fn lemma_steps_zero_left(b: u8, steps: u8)
    ensures
        gf_mul_steps(0, b, steps) == 0,
    decreases steps,
{
    if steps > 0 {
        lemma_steps_zero_left(b >> 1, (steps - 1) as u8);
        lemma_xtime_linear(0, 0);
        assert(0u8 ^ 0u8 == 0u8) by (bit_vector);
    }
}

/// Anything times zero is zero.
pub proof fn lemma_steps_zero_right(a: u8, steps: u8)
    ensures
        gf_mul_steps(a, 0, steps) == 0,
    decreases steps,
{
    if steps > 0 {
        assert(0u8 >> 1 == 0u8) by (bit_vector);
        assert(0u8 & 1 != 1) by (bit_vector);
        assert(0u8 ^ 0u8 == 0u8) by (bit_vector);
        lemma_steps_zero_right(xtime(a), (steps - 1) as u8);
    }
}

/// The partial products respect sums in the first factor.
pub proof fn lemma_steps_left_linear(a: u8, c: u8, b: u8, steps: u8)
    ensures
        gf_mul_steps(a ^ c, b, steps) == gf_mul_steps(a, b, steps) ^ gf_mul_steps(c, b, steps),
    decreases steps,
{
    if steps == 0 {
        assert(0u8 ^ 0u8 == 0u8) by (bit_vector);
    } else {
        let rest = (steps - 1) as u8;
        lemma_xtime_linear(a, c);
        lemma_steps_left_linear(xtime(a), xtime(c), b >> 1, rest);
        let p = gf_mul_steps(xtime(a), b >> 1, rest);
        let q = gf_mul_steps(xtime(c), b >> 1, rest);
        assert(((if b & 1 == 1 { a ^ c } else { 0u8 }) ^ (p ^ q)) == ((if b & 1 == 1 { a } else { 0u8 }) ^ p)
            ^ ((if b & 1 == 1 { c } else { 0u8 }) ^ q)) by (bit_vector);
    }
}

/// Multiplying the first factor by x multiplies every partial product by x.
pub proof fn lemma_steps_xtime(a: u8, b: u8, steps: u8)
    ensures
        gf_mul_steps(xtime(a), b, steps) == xtime(gf_mul_steps(a, b, steps)),
    decreases steps,
{
    lemma_xtime_linear(0, 0);
    if steps > 0 {
        let rest = (steps - 1) as u8;
        lemma_steps_xtime(xtime(a), b >> 1, rest);
        let p = gf_mul_steps(xtime(a), b >> 1, rest);
        let low = if b & 1 == 1 { a } else { 0u8 };
        lemma_xtime_linear(low, p);
    }
}

/// With the top bits of `b` clear, a further round adds nothing.
pub proof fn lemma_steps_extend(a: u8, b: u8, steps: u8)
    requires
        steps < 8,
        b >> steps == 0,
    ensures
        gf_mul_steps(a, b, (steps + 1) as u8) == gf_mul_steps(a, b, steps),
    decreases steps,
{
    if steps == 0 {
        assert(b == 0) by (bit_vector)
            requires
                b >> 0u8 == 0,
        ;
        lemma_steps_zero_right(a, 1);
    } else {
        let rest = (steps - 1) as u8;
        assert((b >> 1) >> rest == 0) by (bit_vector)
            requires
                b >> steps == 0,
                0 < steps < 8,
                rest == steps - 1,
        ;
        lemma_steps_extend(xtime(a), b >> 1, rest);
    }
}

/// The product, one bit of the second factor at a time.
pub proof fn lemma_mul_unfold(a: u8, b: u8)
    ensures
        gf_mul(a, b) == (if b & 1 == 1 { a } else { 0u8 }) ^ xtime(gf_mul(a, b >> 1)),
{
    assert((b >> 1) >> 7u8 == 0) by (bit_vector);
    lemma_steps_extend(xtime(a), b >> 1, 7);
    lemma_steps_xtime(a, b >> 1, 8);
}

/// One is neutral for multiplication on the left.
pub proof fn lemma_mul_one_left(a: u8)
    ensures
        gf_mul(1, a) == a,
{
    assert(gf_mul(1, a) == a) by (bit_vector);
}

/// One is neutral for multiplication on the right.
pub proof fn lemma_mul_one_right(a: u8)
    ensures
        gf_mul(a, 1) == a,
{
    assert(gf_mul(a, 1) == a) by (bit_vector);
}

/// Multiplication is commutative: both products unfold in the same way, one
/// bit of `b` at a time.
pub proof fn lemma_mul_commutative(a: u8, b: u8)
    ensures
        gf_mul(a, b) == gf_mul(b, a),
    decreases b,
{
    if b == 0 {
        lemma_steps_zero_left(a, 8);
        lemma_steps_zero_right(a, 8);
    } else {
        let half: u8 = b >> 1;
        let low: u8 = b & 1;
        assert(half < b && (low == 0 || low == 1) && b == low ^ xtime(half)) by (bit_vector)
            requires
                b != 0,
                half == b >> 1,
                low == b & 1,
        ;
        lemma_mul_commutative(a, half);
        lemma_mul_unfold(a, b);
        lemma_steps_left_linear(low, xtime(half), a, 8);
        lemma_steps_xtime(half, a, 8);
        if low == 1 {
            lemma_mul_one_left(a);
        } else {
            lemma_steps_zero_left(a, 8);
        }
    }
}

/// Multiplication distributes over addition.
pub proof fn lemma_mul_distributive(a: u8, b: u8, c: u8)
    ensures
        gf_mul(a, b ^ c) == gf_mul(a, b) ^ gf_mul(a, c),
{
    assert(gf_mul(a, b ^ c) == gf_mul(a, b) ^ gf_mul(a, c)) by (bit_vector);
}

/// Multiplying the second factor by x multiplies the product by x.
pub proof fn lemma_mul_xtime_right(a: u8, b: u8)
    ensures
        gf_mul(a, xtime(b)) == xtime(gf_mul(a, b)),
{
    lemma_mul_commutative(a, xtime(b));
    lemma_steps_xtime(b, a, 8);
    lemma_mul_commutative(b, a);
}

/// Multiplication is associative, by induction on the bits of `c`.
pub proof fn lemma_mul_associative(a: u8, b: u8, c: u8)
    ensures
        gf_mul(gf_mul(a, b), c) == gf_mul(a, gf_mul(b, c)),
    decreases c,
{
    if c == 0 {
        lemma_steps_zero_right(gf_mul(a, b), 8);
        lemma_steps_zero_right(b, 8);
        lemma_steps_zero_right(a, 8);
    } else {
        let half: u8 = c >> 1;
        assert(half < c) by (bit_vector)
            requires
                c != 0,
                half == c >> 1,
        ;
        lemma_mul_associative(a, b, half);
        lemma_mul_unfold(gf_mul(a, b), c);
        lemma_mul_unfold(b, c);
        let low = if c & 1 == 1 { b } else { 0u8 };
        let high = xtime(gf_mul(b, half));
        lemma_mul_distributive(a, low, high);
        lemma_mul_xtime_right(a, gf_mul(b, half));
        lemma_steps_zero_right(a, 8);
    }
}

/// Every non-zero element has an inverse: its 254th power.
pub proof fn lemma_inverse_exists(a: u8)
    requires
        a != 0,
    ensures
        gf_mul(a, gf_inv(a)) == 1,
{
    let a2 = gf_mul(a, a);
    let a4 = gf_mul(a2, a2);
    let a8 = gf_mul(a4, a4);
    let a16 = gf_mul(a8, a8);
    let a32 = gf_mul(a16, a16);
    let a64 = gf_mul(a32, a32);
    let a128 = gf_mul(a64, a64);
    let p6 = gf_mul(a2, a4);
    let p14 = gf_mul(p6, a8);
    let p30 = gf_mul(p14, a16);
    let p62 = gf_mul(p30, a32);
    let p126 = gf_mul(p62, a64);
    let p254 = gf_mul(p126, a128);
    assert(gf_mul(a, p254) == 1) by (bit_vector)
        requires
            a != 0,
            a2 == gf_mul(a, a),
            a4 == gf_mul(a2, a2),
            a8 == gf_mul(a4, a4),
            a16 == gf_mul(a8, a8),
            a32 == gf_mul(a16, a16),
            a64 == gf_mul(a32, a32),
            a128 == gf_mul(a64, a64),
            p6 == gf_mul(a2, a4),
            p14 == gf_mul(p6, a8),
            p30 == gf_mul(p14, a16),
            p62 == gf_mul(p30, a32),
            p126 == gf_mul(p62, a64),
            p254 == gf_mul(p126, a128),
    ;
}

/// An element has at most one inverse.
pub proof fn lemma_inverse_unique(a: u8, b: u8, c: u8)
    requires
        gf_mul(a, b) == 1,
        gf_mul(a, c) == 1,
    ensures
        b == c,
{
    lemma_mul_associative(b, a, c);
    lemma_mul_commutative(a, b);
    lemma_mul_one_left(c);
    lemma_mul_one_right(b);
}

/// What a draw from the randomness source stands for: the byte drawn, as
/// an element of the field, or `RandomnessFailure` where the source
/// reported an error.
pub fn element_from_draw(draw: Result<u8, rand_core::Error>) -> (r: Result<GF, SharingError>)
    ensures
        match draw {
            Ok(byte) => r == Ok::<GF, SharingError>(GF(byte)),
            Err(_) => r == Err::<GF, SharingError>(SharingError::RandomnessFailure),
        },
{
    match draw {
        Ok(byte) => Ok(GF(byte)),
        Err(_) => Err(SharingError::RandomnessFailure),
    }
}

impl FieldSpec for GF {
    open spec fn zero_spec() -> Self {
        GF(0)
    }

    open spec fn one_spec() -> Self {
        GF(1)
    }

    open spec fn plus(self, rhs: Self) -> Self {
        GF(self.0 ^ rhs.0)
    }

    open spec fn minus(self, rhs: Self) -> Self {
        GF(self.0 ^ rhs.0)
    }

    open spec fn times(self, rhs: Self) -> Self {
        GF(gf_mul(self.0, rhs.0))
    }

    open spec fn inverse(self) -> Self {
        GF(gf_inv(self.0))
    }

    proof fn lemma_plus_commutative(a: Self, b: Self) {
        lemma_xor_laws(a.0, b.0, 0);
    }

    proof fn lemma_plus_associative(a: Self, b: Self, c: Self) {
        lemma_xor_laws(a.0, b.0, c.0);
    }

    proof fn lemma_plus_zero(a: Self) {
        lemma_xor_laws(a.0, 0, 0);
    }

    proof fn lemma_minus_plus(a: Self, b: Self) {
        let x = a.0;
        let y = b.0;
        assert((x ^ y) ^ y == x) by (bit_vector);
    }

    proof fn lemma_times_commutative(a: Self, b: Self) {
        lemma_mul_commutative(a.0, b.0);
    }

    proof fn lemma_times_associative(a: Self, b: Self, c: Self) {
        lemma_mul_associative(a.0, b.0, c.0);
    }

    proof fn lemma_times_one(a: Self) {
        lemma_mul_one_right(a.0);
    }

    proof fn lemma_distributive(a: Self, b: Self, c: Self) {
        lemma_mul_distributive(a.0, b.0, c.0);
    }

    proof fn lemma_times_inverse(a: Self) {
        lemma_inverse_exists(a.0);
    }

    proof fn lemma_one_is_not_zero() {
    }
}

impl FiniteField for GF {
    fn zero() -> (r: Self) {
        GF(0)
    }

    fn one() -> (r: Self) {
        GF(1)
    }

    fn random<R: RngCore>(rng: &mut R) -> (r: Result<Self, SharingError>) {
        element_from_draw(draw_byte(rng))
    }

    fn add(self, rhs: Self) -> (r: Self) {
        GF(gf_add_bytes(self.0, rhs.0))
    }

    fn sub(self, rhs: Self) -> (r: Self) {
        GF(gf_sub_bytes(self.0, rhs.0))
    }

    fn mul(self, rhs: Self) -> (r: Self) {
        GF(gf_mul_bytes(self.0, rhs.0))
    }

    fn equals(self, rhs: Self) -> (r: bool) {
        self.0 == rhs.0
    }

    fn minv(self) -> (r: Self) {
        let r = gf_inverse_byte(self.0);
        proof {
            lemma_inverse_exists(self.0);
            lemma_inverse_unique(self.0, r, gf_inv(self.0));
        }
        GF(r)
    }
}

} // verus!
