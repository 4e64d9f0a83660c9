use rand::rngs::StdRng;
use rand::seq::SliceRandom;
use rand::{thread_rng, SeedableRng};
use rand_core::{impls, Error, RngCore};
use secret_sharing::field::GF;
use secret_sharing::polynomial::Polynomial;
use secret_sharing::{
    deconstruct, fragments_from_generators, indices_distinct, random_generator, reconstruct,
    SharingError,
};
use std::num::NonZeroU32;

/// A source that hands out the bytes it was given, round and round.
struct Replay {
    bytes: Vec<u8>,
    drawn: usize,
}

impl Replay {
    fn new(bytes: &[u8]) -> Self {
        Replay { bytes: bytes.to_vec(), drawn: 0 }
    }
}

impl RngCore for Replay {
    fn next_u32(&mut self) -> u32 {
        impls::next_u32_via_fill(self)
    }

    fn next_u64(&mut self) -> u64 {
        impls::next_u64_via_fill(self)
    }

    fn fill_bytes(&mut self, dest: &mut [u8]) {
        for slot in dest.iter_mut() {
            *slot = self.bytes[self.drawn % self.bytes.len()];
            self.drawn += 1;
        }
    }

    fn try_fill_bytes(&mut self, dest: &mut [u8]) -> Result<(), Error> {
        self.fill_bytes(dest);
        Ok(())
    }
}

/// A source that fails after a number of bytes.
struct FailsAfter {
    left: usize,
}

impl RngCore for FailsAfter {
    fn next_u32(&mut self) -> u32 {
        1
    }

    fn next_u64(&mut self) -> u64 {
        1
    }

    fn fill_bytes(&mut self, dest: &mut [u8]) {
        for slot in dest.iter_mut() {
            *slot = 1;
        }
    }

    fn try_fill_bytes(&mut self, dest: &mut [u8]) -> Result<(), Error> {
        if self.left < dest.len() {
            return Err(Error::from(NonZeroU32::new(Error::CUSTOM_START).unwrap()));
        }
        self.left -= dest.len();
        self.fill_bytes(dest);
        Ok(())
    }
}

#[test]
fn any_eleven_of_twenty_fragments_give_the_secret() {
    let mut rng = thread_rng();
    let secret = [20, 1, 2, 3, 4, 5, 6, 7];
    let mut fragments = deconstruct(&mut rng, secret, 11, 20).unwrap();
    for _ in 0..10 {
        fragments.shuffle(&mut rng);
        assert_eq!(Ok(secret), reconstruct(&fragments[..11]));
    }
}

#[test]
fn round_trip_for_every_threshold() {
    let mut rng = StdRng::seed_from_u64(7);
    let secret = [0u8, 255, 1, 128, 77];
    for count in 1..=12u8 {
        for threshold in 1..=count {
            let mut fragments = deconstruct(&mut rng, secret, threshold, count).unwrap();
            assert_eq!(fragments.len(), count as usize);
            assert_eq!(reconstruct(&fragments), Ok(secret));
            fragments.shuffle(&mut rng);
            assert_eq!(reconstruct(&fragments[..threshold as usize]), Ok(secret));
            fragments.reverse();
            assert_eq!(reconstruct(&fragments[..threshold as usize]), Ok(secret));
        }
    }
}

#[test]
fn round_trip_with_all_indices_in_use() {
    let mut rng = StdRng::seed_from_u64(11);
    let secret = [9u8, 8, 7];
    let fragments = deconstruct(&mut rng, secret, 255, 255).unwrap();
    assert_eq!(fragments.len(), 255);
    assert_eq!(reconstruct(&fragments), Ok(secret));
    let few = deconstruct(&mut rng, secret, 3, 255).unwrap();
    assert_eq!(reconstruct(&few[252..]), Ok(secret));
}

#[test]
fn reconstruction_ignores_the_order() {
    let mut rng = StdRng::seed_from_u64(3);
    // any fragments will do, also ones that no split produced
    let mut fragments: Vec<(u8, [u8; 4])> = (1..=6u8)
        .map(|index| {
            let mut payload = [0u8; 4];
            rng.fill_bytes(&mut payload);
            (index * 17, payload)
        })
        .collect();
    let expected = reconstruct(&fragments);
    assert!(expected.is_ok());
    for _ in 0..20 {
        fragments.shuffle(&mut rng);
        assert_eq!(reconstruct(&fragments), expected);
    }
}

#[test]
fn fragment_indices_run_from_one() {
    let mut rng = StdRng::seed_from_u64(5);
    let fragments = deconstruct(&mut rng, [1u8, 2], 2, 255).unwrap();
    for (position, fragment) in fragments.iter().enumerate() {
        assert_eq!(fragment.0 as usize, position + 1);
        assert_ne!(fragment.0, 0);
    }
    assert!(indices_distinct(&fragments));
}

#[test]
fn threshold_zero_is_rejected() {
    let mut rng = Replay::new(&[1]);
    assert_eq!(deconstruct(&mut rng, [1u8, 2], 0, 5), Err(SharingError::InvalidParameters));
    assert_eq!(deconstruct(&mut rng, [1u8, 2], 0, 0), Err(SharingError::InvalidParameters));
    assert_eq!(rng.drawn, 0);
}

#[test]
fn threshold_above_count_is_rejected() {
    let mut rng = Replay::new(&[1]);
    assert_eq!(deconstruct(&mut rng, [1u8, 2], 6, 5), Err(SharingError::InvalidParameters));
    assert_eq!(deconstruct(&mut rng, [1u8, 2], 1, 0), Err(SharingError::InvalidParameters));
    assert_eq!(rng.drawn, 0);
}

#[test]
fn threshold_one_copies_the_secret() {
    let mut rng = Replay::new(&[0]);
    let fragments = deconstruct(&mut rng, [4u8, 5, 6], 1, 3).unwrap();
    assert_eq!(fragments, vec![(1, [4, 5, 6]), (2, [4, 5, 6]), (3, [4, 5, 6])]);
    assert_eq!(rng.drawn, 0);
}

#[test]
fn deconstruct_with_known_coefficients() {
    // the generators are 5 + 3x and 9 + 3x
    let mut rng = Replay::new(&[0, 3]);
    let fragments = deconstruct(&mut rng, [5u8, 9], 2, 3).unwrap();
    assert_eq!(fragments, vec![(1, [6, 10]), (2, [3, 15]), (3, [0, 12])]);
    assert_eq!(rng.drawn, 4);
}

#[test]
fn deconstruct_of_an_empty_secret() {
    let mut rng = Replay::new(&[1]);
    let fragments = deconstruct(&mut rng, [0u8; 0], 2, 3).unwrap();
    assert_eq!(fragments, vec![(1, []), (2, []), (3, [])]);
    assert_eq!(reconstruct(&fragments), Ok([]));
}

#[test]
fn deconstruct_draws_nothing_where_no_coefficient_is_needed() {
    // a source that fails at once is never asked
    let mut rng = FailsAfter { left: 0 };
    assert_eq!(
        deconstruct(&mut rng, [0u8; 0], 2, 3),
        Ok(vec![(1, []), (2, []), (3, [])])
    );
    assert_eq!(
        deconstruct(&mut rng, [4u8, 5], 1, 2),
        Ok(vec![(1, [4, 5]), (2, [4, 5])])
    );
    assert_eq!(deconstruct(&mut rng, [4u8, 5], 0, 2), Err(SharingError::InvalidParameters));
    assert_eq!(deconstruct(&mut rng, [4u8, 5], 3, 2), Err(SharingError::InvalidParameters));
    assert_eq!(random_generator(&mut rng, 9, 1).unwrap().coeffs, vec![GF(9)]);
    assert_eq!(deconstruct(&mut rng, [4u8, 5], 2, 2), Err(SharingError::RandomnessFailure));
}

#[test]
fn deconstruct_reports_a_failing_source() {
    let mut rng = FailsAfter { left: 3 };
    assert_eq!(deconstruct(&mut rng, [1u8, 2], 3, 5), Err(SharingError::RandomnessFailure));
    let mut enough = FailsAfter { left: 4 };
    assert!(deconstruct(&mut enough, [1u8, 2], 3, 5).is_ok());
}

#[test]
fn deconstruct_gives_up_on_a_source_of_zeros() {
    let mut rng = Replay::new(&[0]);
    assert_eq!(deconstruct(&mut rng, [1u8, 2], 2, 5), Err(SharingError::RandomnessFailure));
}

#[test]
fn random_generator_has_no_zero_coefficient() {
    let mut rng = Replay::new(&[0, 0, 7, 0, 9, 1]);
    let g = random_generator(&mut rng, 0, 4).unwrap();
    assert_eq!(g.coeffs, vec![GF(0), GF(7), GF(9), GF(1)]);
    let constant = random_generator(&mut rng, 33, 1).unwrap();
    assert_eq!(constant.coeffs, vec![GF(33)]);
}

#[test]
fn fragments_are_the_values_of_the_generators() {
    let generators = vec![
        Polynomial::new(vec![GF(5), GF(3)]),
        Polynomial::new(vec![GF(1), GF(2), GF(3)]),
    ];
    let fragments = fragments_from_generators::<2>(&generators, 2);
    assert_eq!(fragments, vec![(1, [6, 0]), (2, [3, 9])]);
    assert_eq!(fragments_from_generators::<2>(&generators, 0), vec![]);
}

#[test]
fn duplicate_indices_are_reported() {
    let fragments = [(1u8, [1u8, 2]), (2, [3, 4]), (1, [5, 6])];
    assert_eq!(reconstruct(&fragments), Err(SharingError::DuplicateIndex));
    assert!(!indices_distinct(&fragments));
    let same = [(7u8, [1u8]), (7, [1])];
    assert_eq!(reconstruct(&same), Err(SharingError::DuplicateIndex));
}

#[test]
fn reconstruct_from_nothing_gives_zeros() {
    let none: [(u8, [u8; 3]); 0] = [];
    assert_eq!(reconstruct(&none), Ok([0, 0, 0]));
    assert!(indices_distinct(&none));
}

#[test]
fn reconstruct_with_known_fragments() {
    assert_eq!(reconstruct(&[(1u8, [6u8, 10]), (2, [3, 15])]), Ok([5, 9]));
    assert_eq!(reconstruct(&[(3u8, [0u8, 12]), (1, [6, 10])]), Ok([5, 9]));
    assert_eq!(reconstruct(&[(3u8, [0u8, 12])]), Ok([0, 12]));
}

#[test]
fn too_few_fragments_go_unnoticed() {
    let mut rng = StdRng::seed_from_u64(1);
    let secret = [1u8, 2, 3, 4, 5, 6, 7, 8, 9, 10, 11, 12, 13, 14, 15, 16];
    let fragments = deconstruct(&mut rng, secret, 3, 5).unwrap();
    let wrong = reconstruct(&fragments[..2]);
    assert!(wrong.is_ok());
    assert_ne!(wrong, Ok(secret));
}

#[test]
fn one_fragment_of_two_takes_every_value_but_the_secret_byte() {
    // With threshold 2 the payload is s + c * x, and c runs over all
    // non-zero elements: every value but s itself turns up exactly once.
    for secret in [0u8, 1, 77, 255] {
        for index in [1usize, 2, 200] {
            let mut seen = [0u32; 256];
            for c in 1..=255u8 {
                let mut rng = Replay::new(&[c]);
                let fragments = deconstruct(&mut rng, [secret], 2, 255).unwrap();
                seen[fragments[index - 1].1[0] as usize] += 1;
            }
            for value in 0..=255u8 {
                let expected = if value == secret { 0 } else { 1 };
                assert_eq!(seen[value as usize], expected);
            }
        }
    }
}
