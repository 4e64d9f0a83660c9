use rand_core::RngCore;
use secret_sharing::field::{FieldSpec, FiniteField, GF};
use secret_sharing::polynomial::Polynomial;
use secret_sharing::SharingError;

/// The integers modulo the prime 65537.
#[derive(Clone, Copy, PartialEq, Eq, PartialOrd, Ord, Debug)]
struct Fp(u64);

const MODULUS: u64 = 65537;

// Outside the verifier the model is the arithmetic itself, and the laws
// are the well-known ones of the integers modulo a prime.
impl FieldSpec for Fp {
    fn zero_spec() -> Self {
        Fp(0)
    }

    fn one_spec() -> Self {
        Fp(1)
    }

    fn plus(self, rhs: Self) -> Self {
        Fp((self.0 + rhs.0) % MODULUS)
    }

    fn minus(self, rhs: Self) -> Self {
        Fp((self.0 + MODULUS - rhs.0) % MODULUS)
    }

    fn times(self, rhs: Self) -> Self {
        Fp((self.0 * rhs.0) % MODULUS)
    }

    fn inverse(self) -> Self {
        self.pow((MODULUS - 2) as usize)
    }

    fn lemma_plus_commutative(_: Self, _: Self) {}

    fn lemma_plus_associative(_: Self, _: Self, _: Self) {}

    fn lemma_plus_zero(_: Self) {}

    fn lemma_minus_plus(_: Self, _: Self) {}

    fn lemma_times_commutative(_: Self, _: Self) {}

    fn lemma_times_associative(_: Self, _: Self, _: Self) {}

    fn lemma_times_one(_: Self) {}

    fn lemma_distributive(_: Self, _: Self, _: Self) {}

    fn lemma_times_inverse(_: Self) {}

    fn lemma_one_is_not_zero() {}
}

impl FiniteField for Fp {
    fn zero() -> Self {
        Fp(0)
    }

    fn one() -> Self {
        Fp(1)
    }

    fn random<R: RngCore>(rng: &mut R) -> Result<Self, SharingError> {
        let mut bytes = [0u8; 8];
        match rng.try_fill_bytes(&mut bytes) {
            Ok(()) => Ok(Fp(u64::from_le_bytes(bytes) % MODULUS)),
            Err(_) => Err(SharingError::RandomnessFailure),
        }
    }

    fn add(self, rhs: Self) -> Self {
        self.plus(rhs)
    }

    fn sub(self, rhs: Self) -> Self {
        self.minus(rhs)
    }

    fn mul(self, rhs: Self) -> Self {
        self.times(rhs)
    }

    fn equals(self, rhs: Self) -> bool {
        self.0 == rhs.0
    }

    fn minv(self) -> Self {
        self.inverse()
    }
}

fn gf(values: &[u8]) -> Polynomial<GF> {
    Polynomial::new(values.iter().map(|&v| GF(v)).collect())
}

fn fp(values: &[u64]) -> Polynomial<Fp> {
    Polynomial::new(values.iter().map(|&v| Fp(v)).collect())
}

#[test]
fn zero_and_one_have_a_single_coefficient() {
    assert_eq!(Polynomial::<GF>::zero().coeffs, vec![GF(0)]);
    assert_eq!(Polynomial::<GF>::one().coeffs, vec![GF(1)]);
    assert_eq!(Polynomial::<Fp>::zero().coeffs, vec![Fp(0)]);
    assert_eq!(Polynomial::<Fp>::one().coeffs, vec![Fp(1)]);
}

#[test]
fn new_keeps_the_coefficients() {
    assert_eq!(gf(&[3, 0, 9, 0]).coeffs, vec![GF(3), GF(0), GF(9), GF(0)]);
    assert_eq!(gf(&[]).coeffs, vec![]);
}

#[test]
fn truncate_strips_high_zeros() {
    let mut p = gf(&[1, 0, 2, 0, 0]);
    p.truncate();
    assert_eq!(p.coeffs, vec![GF(1), GF(0), GF(2)]);
    let mut q = gf(&[0, 0, 0]);
    q.truncate();
    assert_eq!(q.coeffs, vec![]);
    let mut r = gf(&[0, 4]);
    r.truncate();
    assert_eq!(r.coeffs, vec![GF(0), GF(4)]);
    let mut s = gf(&[]);
    s.truncate();
    assert_eq!(s.coeffs, vec![]);
}

#[test]
fn add_keeps_the_tail_of_the_longer() {
    assert_eq!(gf(&[1, 2, 3]).add(&gf(&[4])).coeffs, vec![GF(5), GF(2), GF(3)]);
    assert_eq!(gf(&[4]).add(&gf(&[1, 2, 3])).coeffs, vec![GF(5), GF(2), GF(3)]);
    assert_eq!(gf(&[1, 2]).add(&gf(&[1, 2])).coeffs, vec![GF(0), GF(0)]);
    assert_eq!(gf(&[]).add(&gf(&[7, 8])).coeffs, vec![GF(7), GF(8)]);
    assert_eq!(fp(&[65536, 2]).add(&fp(&[3, 4, 5])).coeffs, vec![Fp(2), Fp(6), Fp(5)]);
}

#[test]
fn mul_is_the_convolution() {
    assert_eq!(gf(&[1, 2]).mul(&gf(&[3])).coeffs, vec![GF(3), GF(6), GF(0)]);
    assert_eq!(
        gf(&[1, 1]).mul(&gf(&[1, 1])).coeffs,
        vec![GF(1), GF(0), GF(1), GF(0)]
    );
    assert_eq!(
        fp(&[1, 2, 3]).mul(&fp(&[4, 5])).coeffs,
        vec![Fp(4), Fp(13), Fp(22), Fp(15), Fp(0)]
    );
    assert_eq!(gf(&[]).mul(&gf(&[3, 4])).coeffs, vec![GF(0), GF(0)]);
    assert_eq!(gf(&[3, 4]).mul(&gf(&[])).coeffs, vec![GF(0), GF(0)]);
}

#[test]
fn scale_multiplies_every_coefficient() {
    assert_eq!(gf(&[1, 2, 0x80]).scale(GF(2)).coeffs, vec![GF(2), GF(4), GF(0x1b)]);
    assert_eq!(fp(&[1, 2, 3]).scale(Fp(10)).coeffs, vec![Fp(10), Fp(20), Fp(30)]);
}

#[test]
fn get_sums_the_powers() {
    assert_eq!(gf(&[1, 2, 3]).get(GF(2)), GF(9));
    assert_eq!(gf(&[1, 2, 3]).get(GF(0)), GF(1));
    assert_eq!(gf(&[]).get(GF(5)), GF(0));
    assert_eq!(fp(&[10, 100, 1000, 10000]).get(Fp(0)), Fp(10));
    assert_eq!(fp(&[10, 100, 1000, 10000]).get(Fp(1)), Fp(11110));
    assert_eq!(fp(&[10, 100, 1000, 10000]).get(Fp(2)), Fp(84210 % 65537));
    assert_eq!(fp(&[10, 100, 1000, 10000]).get(Fp(3)), Fp(279310 % 65537));
}

#[test]
fn addition_is_commutative_and_associative() {
    let a = gf(&[1, 200, 3]);
    let b = gf(&[9, 8]);
    let c = gf(&[77, 0, 0, 5]);
    assert_eq!(a.add(&b).coeffs, b.add(&a).coeffs);
    assert_eq!(a.add(&b).add(&c).coeffs, a.add(&b.add(&c)).coeffs);
}

#[test]
fn multiplication_distributes_over_addition() {
    let a = gf(&[1, 200, 3]);
    let b = gf(&[9, 8]);
    let c = gf(&[77, 0, 0, 5]);
    assert_eq!(a.mul(&b.add(&c)).coeffs, a.mul(&b).add(&a.mul(&c)).coeffs);
    let d = fp(&[5, 6]);
    let e = fp(&[65000, 2, 3]);
    let f = fp(&[1]);
    assert_eq!(d.mul(&e.add(&f)).coeffs, d.mul(&e).add(&d.mul(&f)).coeffs);
}

#[test]
fn scaling_by_one_is_the_identity() {
    let a = gf(&[1, 200, 3, 0]);
    assert_eq!(a.scale(GF::one()).coeffs, a.coeffs);
}

#[test]
fn the_zero_polynomial_is_zero_everywhere() {
    for x in 0..=255u8 {
        assert_eq!(Polynomial::<GF>::zero().get(GF(x)), GF(0));
    }
}

#[test]
fn evaluation_respects_products() {
    let a = gf(&[1, 200, 3]);
    let b = gf(&[9, 8]);
    for x in [0u8, 1, 2, 77, 255] {
        assert_eq!(a.mul(&b).get(GF(x)), a.get(GF(x)).mul(b.get(GF(x))));
    }
}

#[test]
fn lagrange_zero_recovers_the_constant_term() {
    // 5 + 3x at 1 and 2
    assert_eq!(Polynomial::lagrange_zero(&[(GF(1), GF(6)), (GF(2), GF(3))]), GF(5));
    assert_eq!(Polynomial::lagrange_zero(&[(GF(2), GF(3)), (GF(1), GF(6))]), GF(5));
    // a single point gives its own value
    assert_eq!(Polynomial::lagrange_zero(&[(GF(9), GF(42))]), GF(42));
    // no point at all gives zero
    assert_eq!(Polynomial::<GF>::lagrange_zero(&[]), GF(0));
    let p = fp(&[10, 100, 1000, 10000]);
    let points: Vec<(Fp, Fp)> = (1..=4).map(|x| (Fp(x), p.get(Fp(x)))).collect();
    assert_eq!(Polynomial::lagrange_zero(&points), Fp(10));
}

#[test]
fn lagrange_new_rebuilds_a_cubic() {
    let p = fp(&[10, 100, 1000, 10000]);
    let points: Vec<(Fp, Fp)> = (0..4).map(|x| (Fp(x), p.get(Fp(x)))).collect();
    let rebuilt = Polynomial::lagrange_new(&points);
    assert_eq!(rebuilt.coeffs, vec![Fp(10), Fp(100), Fp(1000), Fp(10000)]);
}

#[test]
fn lagrange_new_passes_through_its_points() {
    let points = [
        (GF(1), GF(77)),
        (GF(2), GF(0)),
        (GF(3), GF(255)),
        (GF(200), GF(1)),
        (GF(0), GF(13)),
    ];
    let p = Polynomial::lagrange_new(&points);
    assert!(p.coeffs.len() <= points.len());
    for (x, y) in points {
        assert_eq!(p.get(x), y);
    }
    assert_eq!(p.get(GF(0)), Polynomial::lagrange_zero(&points));
}

#[test]
fn lagrange_new_truncates() {
    // three points on the line 5 + 3x
    let line = gf(&[5, 3]);
    let points: Vec<(GF, GF)> = [4u8, 9, 100].iter().map(|&x| (GF(x), line.get(GF(x)))).collect();
    assert_eq!(Polynomial::lagrange_new(&points).coeffs, vec![GF(5), GF(3)]);
    // points on the zero polynomial leave nothing
    let flat = [(GF(1), GF(0)), (GF(2), GF(0))];
    assert_eq!(Polynomial::lagrange_new(&flat).coeffs, vec![]);
    assert_eq!(Polynomial::<GF>::lagrange_new(&[]).coeffs, vec![]);
}
