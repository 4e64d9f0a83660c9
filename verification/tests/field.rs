use rand_core::{impls, Error, RngCore};
use secret_sharing::field::{FiniteField, GF};
use secret_sharing::gf256::element_from_draw;
use secret_sharing::{judge_draw, random_nonzero, SharingError, DRAW_LIMIT};
use std::num::NonZeroU32;

/// A source that hands out the bytes it was given, round and round, and
/// counts how many it handed out.
struct Replay {
    bytes: Vec<u8>,
    drawn: usize,
}

impl Replay {
    fn new(bytes: &[u8]) -> Self {
        Replay { bytes: bytes.to_vec(), drawn: 0 }
    }
}

impl RngCore for Replay {
    fn next_u32(&mut self) -> u32 {
        impls::next_u32_via_fill(self)
    }

    fn next_u64(&mut self) -> u64 {
        impls::next_u64_via_fill(self)
    }

    fn fill_bytes(&mut self, dest: &mut [u8]) {
        for slot in dest.iter_mut() {
            *slot = self.bytes[self.drawn % self.bytes.len()];
            self.drawn += 1;
        }
    }

    fn try_fill_bytes(&mut self, dest: &mut [u8]) -> Result<(), Error> {
        self.fill_bytes(dest);
        Ok(())
    }
}

/// A source that always fails.
struct Broken;

impl RngCore for Broken {
    fn next_u32(&mut self) -> u32 {
        0
    }

    fn next_u64(&mut self) -> u64 {
        0
    }

    fn fill_bytes(&mut self, dest: &mut [u8]) {
        for slot in dest.iter_mut() {
            *slot = 0;
        }
    }

    fn try_fill_bytes(&mut self, _dest: &mut [u8]) -> Result<(), Error> {
        Err(Error::from(NonZeroU32::new(Error::CUSTOM_START).unwrap()))
    }
}

#[test]
fn zero_and_one_are_the_identities() {
    assert_eq!(GF::zero(), GF(0));
    assert_eq!(GF::one(), GF(1));
    for v in 0..=255u8 {
        assert_eq!(GF(v).add(GF::zero()), GF(v));
        assert_eq!(GF(v).mul(GF::one()), GF(v));
        assert_eq!(GF(v).mul(GF::zero()), GF(0));
    }
}

#[test]
fn addition_is_exclusive_or() {
    assert_eq!(GF(5).add(GF(12)), GF(9));
    assert_eq!(GF(0x22).add(GF(0x81)), GF(0xa3));
    assert_eq!(GF(0x53).add(GF(0)), GF(0x53));
}

#[test]
fn subtraction_is_exclusive_or() {
    assert_eq!(GF(32).sub(GF(219)), GF(251));
    assert_eq!(GF(0x93).sub(GF(0x5b)), GF(0xc8));
    assert_eq!(GF(0x53).sub(GF(0)), GF(0x53));
}

#[test]
fn multiplication_reduces_by_the_aes_polynomial() {
    assert_eq!(GF(175).mul(GF(47)), GF(83));
    assert_eq!(GF(0x53).mul(GF(0xca)), GF(0x01));
    assert_eq!(GF(0x57).mul(GF(0x83)), GF(0xc1));
    assert_eq!(GF(0x57).mul(GF(0x02)), GF(0xae));
    assert_eq!(GF(0x57).mul(GF(0x04)), GF(0x47));
    assert_eq!(GF(0x57).mul(GF(0x08)), GF(0x8e));
    assert_eq!(GF(0x57).mul(GF(0x10)), GF(0x07));
    assert_eq!(GF(0x57).mul(GF(0x13)), GF(0xfe));
    assert_eq!(GF(0x80).mul(GF(0x02)), GF(0x1b));
}

#[test]
fn multiplicative_inverse_gives_product_one() {
    assert_eq!(GF(110).minv(), GF(33));
    assert_eq!(GF(0x01).minv(), GF(0x01));
    assert_eq!(GF(0x02).minv(), GF(0x8d));
    assert_eq!(GF(0x03).minv(), GF(0xf6));
    assert_eq!(GF(0xff).minv(), GF(0x1c));
    for v in 1..=255u8 {
        assert_eq!(GF(v).mul(GF(v).minv()), GF(1));
    }
}

#[test]
fn additive_inverse_cancels() {
    assert_eq!(GF(7).ainv(), GF(7));
    for v in 0..=255u8 {
        assert_eq!(GF(v).add(GF(v).ainv()), GF(0));
    }
}

#[test]
fn equals_compares_elements() {
    assert!(GF(9).equals(GF(9)));
    assert!(!GF(9).equals(GF(8)));
}

#[test]
fn elements_are_totally_ordered() {
    assert!(GF(3) < GF(4));
    let mut elements = vec![GF(9), GF(1), GF(200), GF(0)];
    elements.sort();
    assert_eq!(elements, vec![GF(0), GF(1), GF(9), GF(200)]);
}

#[test]
fn pow_zero_is_one() {
    for v in 0..=255u8 {
        assert_eq!(GF(v).pow(0), GF(1));
    }
}

#[test]
fn pow_one_is_the_element() {
    for v in 0..=255u8 {
        assert_eq!(GF(v).pow(1), GF(v));
    }
}

#[test]
fn pow_adds_exponents() {
    for v in [0u8, 1, 2, 3, 0x53, 0xca, 0xff] {
        for a in 0..20usize {
            for b in 0..20usize {
                assert_eq!(GF(v).pow(a + b), GF(v).pow(a).mul(GF(v).pow(b)));
            }
        }
    }
}

#[test]
fn pow_exact_values() {
    assert_eq!(GF(2).pow(8), GF(0x1b));
    assert_eq!(GF(2).pow(7), GF(0x80));
    assert_eq!(GF(3).pow(2), GF(5));
    assert_eq!(GF(3).pow(255), GF(1));
    assert_eq!(GF(0x53).pow(254), GF(0xca));
    assert_eq!(GF(2).pow(usize::MAX), GF(2).pow(usize::MAX % 255));
}

#[test]
fn random_hands_on_the_byte_drawn() {
    let mut rng = Replay::new(&[0xab, 0x00, 0x01]);
    assert_eq!(GF::random(&mut rng), Ok(GF(0xab)));
    assert_eq!(GF::random(&mut rng), Ok(GF(0x00)));
    assert_eq!(GF::random(&mut rng), Ok(GF(0x01)));
    assert_eq!(rng.drawn, 3);
}

#[test]
fn a_draw_stands_for_its_byte_or_a_failure() {
    assert_eq!(element_from_draw(Ok(0x00)), Ok(GF(0x00)));
    assert_eq!(element_from_draw(Ok(0xab)), Ok(GF(0xab)));
    assert_eq!(element_from_draw(Ok(0xff)), Ok(GF(0xff)));
    let failure = Error::from(NonZeroU32::new(Error::CUSTOM_START).unwrap());
    assert_eq!(element_from_draw(Err(failure)), Err(SharingError::RandomnessFailure));
}

#[test]
fn random_reports_a_failing_source() {
    assert_eq!(GF::random(&mut Broken), Err(SharingError::RandomnessFailure));
}

#[test]
fn judge_draw_takes_a_non_zero_element() {
    assert_eq!(judge_draw(Ok(GF(7)), 0), Ok(Some(GF(7))));
    assert_eq!(judge_draw(Ok(GF(255)), 500), Ok(Some(GF(255))));
    assert_eq!(judge_draw(Ok(GF(1)), DRAW_LIMIT - 1), Ok(Some(GF(1))));
}

#[test]
fn judge_draw_asks_again_after_a_zero() {
    assert_eq!(judge_draw(Ok(GF(0)), 0), Ok(None));
    assert_eq!(judge_draw(Ok(GF(0)), DRAW_LIMIT - 2), Ok(None));
}

#[test]
fn judge_draw_gives_up_at_the_limit() {
    assert_eq!(judge_draw(Ok(GF(0)), DRAW_LIMIT - 1), Err(SharingError::RandomnessFailure));
    assert_eq!(judge_draw(Ok(GF(0)), DRAW_LIMIT), Err(SharingError::RandomnessFailure));
    assert_eq!(judge_draw(Ok(GF(0)), usize::MAX), Err(SharingError::RandomnessFailure));
}

#[test]
fn judge_draw_hands_on_a_failure() {
    let failed: Result<GF, SharingError> = Err(SharingError::RandomnessFailure);
    assert_eq!(judge_draw(failed, 0), Err(SharingError::RandomnessFailure));
    assert_eq!(judge_draw(failed, DRAW_LIMIT - 1), Err(SharingError::RandomnessFailure));
}

#[test]
fn random_nonzero_takes_the_first_non_zero_draw() {
    let mut rng = Replay::new(&[5, 6, 7]);
    assert_eq!(random_nonzero::<GF, Replay>(&mut rng), Ok(GF(5)));
    assert_eq!(rng.drawn, 1);
    let mut late = Replay::new(&[0; 1023].iter().copied().chain([9u8]).collect::<Vec<u8>>());
    assert_eq!(random_nonzero::<GF, Replay>(&mut late), Ok(GF(9)));
    assert_eq!(late.drawn, DRAW_LIMIT);
}

#[test]
fn random_nonzero_skips_zeros() {
    let mut rng = Replay::new(&[0, 0, 0, 7, 9]);
    assert_eq!(random_nonzero::<GF, Replay>(&mut rng), Ok(GF(7)));
    assert_eq!(rng.drawn, 4);
    assert_eq!(random_nonzero::<GF, Replay>(&mut rng), Ok(GF(9)));
    assert_eq!(rng.drawn, 5);
}

#[test]
fn random_nonzero_gives_up_on_a_source_of_zeros() {
    let mut rng = Replay::new(&[0]);
    assert_eq!(random_nonzero::<GF, Replay>(&mut rng), Err(SharingError::RandomnessFailure));
    assert_eq!(rng.drawn, DRAW_LIMIT);
}

#[test]
fn random_nonzero_reports_a_failing_source() {
    assert_eq!(random_nonzero::<GF, Broken>(&mut Broken), Err(SharingError::RandomnessFailure));
}

fn times_x(a: u8) -> u8 {
    if a & 0x80 == 0x80 {
        (a << 1) ^ 0x1b
    } else {
        a << 1
    }
}

fn shift_and_add(a: u8, b: u8, steps: u8) -> u8 {
    if steps == 0 {
        0
    } else {
        (if b & 1 == 1 { a } else { 0 }) ^ shift_and_add(times_x(a), b >> 1, steps - 1)
    }
}

#[test]
fn multiplication_is_shift_and_add_for_every_pair() {
    for a in 0..=255u8 {
        for b in 0..=255u8 {
            assert_eq!(GF(a).mul(GF(b)), GF(shift_and_add(a, b, 8)));
        }
    }
}

#[test]
fn addition_and_subtraction_are_exclusive_or_for_every_pair() {
    for a in 0..=255u8 {
        for b in 0..=255u8 {
            assert_eq!(GF(a).add(GF(b)), GF(a ^ b));
            assert_eq!(GF(a).sub(GF(b)), GF(a ^ b));
        }
    }
}

#[test]
fn every_element_but_zero_has_exactly_one_inverse() {
    for a in 1..=255u8 {
        let inverses: Vec<u8> = (0..=255u8).filter(|&b| GF(a).mul(GF(b)) == GF(1)).collect();
        assert_eq!(inverses, vec![GF(a).minv().0]);
    }
}

#[test]
fn multiplication_is_commutative_and_associative() {
    for a in 0..=255u8 {
        for b in 0..=255u8 {
            assert_eq!(GF(a).mul(GF(b)), GF(b).mul(GF(a)));
            for c in [0u8, 1, 2, 0x1b, 0x80, 0xff] {
                assert_eq!(GF(a).mul(GF(b)).mul(GF(c)), GF(a).mul(GF(b).mul(GF(c))));
                assert_eq!(
                    GF(a).mul(GF(b).add(GF(c))),
                    GF(a).mul(GF(b)).add(GF(a).mul(GF(c)))
                );
            }
        }
    }
}

#[test]
fn compound_operations_update_in_place() {
    let mut x = GF(0x22);
    x.add_assign(GF(0x81));
    assert_eq!(x, GF(0xa3));
    x.sub_assign(GF(0x81));
    assert_eq!(x, GF(0x22));
    let mut y = GF(0x57);
    y.mul_assign(GF(0x13));
    assert_eq!(y, GF(0xfe));
}
