//! Threshold secret sharing over a finite field.
//!
//! A secret of `N` bytes is split into `count` fragments so that any
//! `threshold` of them give the secret back. Every byte of the secret is the
//! constant term of its own polynomial of degree `threshold - 1`; a fragment
//! holds the values of all these polynomials at one non-zero point, and
//! Lagrange interpolation at zero recovers the bytes.
//!
//! The randomness source handed to `deconstruct` must be cryptographically
//! secure: with a predictable source fewer than `threshold` fragments may
//! give the secret away. No type can enforce this.
pub mod field;
pub mod field_lemmas;
pub mod gf256;
pub mod lagrange;
pub mod polynomial;
pub mod polynomial_lemmas;
pub mod random;
pub mod sharing_lemmas;

use crate::field::FiniteField;
use crate::gf256::GF;
use crate::lagrange::lagrange_at_zero;
use crate::polynomial::{poly_eval, Polynomial};
use rand_core::RngCore;
use vstd::prelude::*;

verus! {

/// A secret of `N` bytes.
pub type Secret<const N: usize> = [u8; N];

/// What can go wrong when splitting or recombining a secret.
#[derive(Clone, Copy, PartialEq, Eq, Structural, Debug)]
pub enum SharingError {
    /// The threshold is zero or larger than the number of fragments.
    InvalidParameters,
    /// Two fragments handed to a reconstruction carry the same index.
    DuplicateIndex,
    /// The randomness source reported a failure, or kept producing zero.
    RandomnessFailure,
}

/// How often a coefficient is drawn again before the randomness source is
/// given up as broken. An unbiased source of bytes produces this many zeros
/// in a row with probability 2^-8192.
pub const DRAW_LIMIT: usize = 1024;

/// Fragments with their payloads as sequences of bytes.
pub open spec fn fragments_view<const N: usize>(fragments: Seq<(u8, [u8; N])>) -> Seq<
    (u8, Seq<u8>),
> {
    Seq::new(fragments.len(), |j: int| (fragments[j].0, fragments[j].1@))
}

/// The coefficient sequences of a list of polynomials.
pub open spec fn coefficient_rows(generators: Seq<Polynomial<GF>>) -> Seq<Seq<GF>> {
    Seq::new(generators.len(), |i: int| generators[i]@)
}

/// `g` can share out `byte` with the given threshold: it has `threshold`
/// coefficients, the byte is its constant term, and no other coefficient
/// is zero.
pub open spec fn is_generator(g: Seq<GF>, byte: u8, threshold: nat) -> bool {
    &&& threshold >= 1
    &&& g.len() == threshold
    &&& g[0] == GF(byte)
    &&& forall|k: int| 1 <= k < g.len() ==> g[k] != GF(0)
}

/// One generator for every byte of the secret.
pub open spec fn are_generators(generators: Seq<Seq<GF>>, secret: Seq<u8>, threshold: nat) -> bool {
    &&& generators.len() == secret.len()
    &&& forall|i: int|
        0 <= i < generators.len() ==> is_generator(#[trigger] generators[i], secret[i], threshold)
}

/// The fragment with the given index: the values of all generators there.
pub open spec fn fragment_of(generators: Seq<Seq<GF>>, index: u8) -> (u8, Seq<u8>) {
    (index, Seq::new(generators.len(), |i: int| poly_eval(generators[i], GF(index)).0))
}

/// The fragments with the indices `1` to `count`.
pub open spec fn fragments_of(generators: Seq<Seq<GF>>, count: nat) -> Seq<(u8, Seq<u8>)> {
    Seq::new(count, |j: int| fragment_of(generators, (j + 1) as u8))
}

/// `fragments` are what a split of `secret` may produce: the fragments of
/// some generators of the secret.
pub open spec fn is_sharing(
    secret: Seq<u8>,
    threshold: nat,
    count: nat,
    fragments: Seq<(u8, Seq<u8>)>,
) -> bool {
    exists|generators: Seq<Seq<GF>>|
        are_generators(generators, secret, threshold) && fragments == #[trigger] fragments_of(
            generators,
            count,
        )
}

/// No two fragments carry the same index.
pub open spec fn distinct_indices(fragments: Seq<(u8, Seq<u8>)>) -> bool {
    forall|i: int, j: int| 0 <= i < j < fragments.len() ==> fragments[i].0 != fragments[j].0
}

/// The points that the fragments give for byte `i` of the secret.
pub open spec fn points_at(fragments: Seq<(u8, Seq<u8>)>, i: int) -> Seq<(GF, GF)> {
    Seq::new(fragments.len(), |k: int| (GF(fragments[k].0), GF(fragments[k].1[i])))
}

/// The bytes that interpolation at zero gives, position by position.
pub open spec fn reconstructed(fragments: Seq<(u8, Seq<u8>)>, n: nat) -> Seq<u8> {
    Seq::new(n, |i: int| lagrange_at_zero(points_at(fragments, i)).0)
}

/// What a reconstruction from the given fragments returns.
pub open spec fn reconstruct_spec(fragments: Seq<(u8, Seq<u8>)>, n: nat) -> Result<
    Seq<u8>,
    SharingError,
> {
    if distinct_indices(fragments) {
        Ok(reconstructed(fragments, n))
    } else {
        Err(SharingError::DuplicateIndex)
    }
}

/// What becomes of one draw for a coefficient, after `zeros_before` draws
/// that gave zero: a non-zero element is taken, a failure of the source
/// ends the drawing, and so does the zero that makes `DRAW_LIMIT` zeros in a
/// row; any other zero asks for a further draw, which `None` stands for.
pub fn judge_draw<F: FiniteField>(draw: Result<F, SharingError>, zeros_before: usize) -> (r:
    Result<Option<F>, SharingError>)
    ensures
        match draw {
            Err(_) => r == Err::<Option<F>, SharingError>(SharingError::RandomnessFailure),
            Ok(x) => if x != F::zero_spec() {
                r == Ok::<Option<F>, SharingError>(Some(x))
            } else if zeros_before + 1 >= DRAW_LIMIT {
                r == Err::<Option<F>, SharingError>(SharingError::RandomnessFailure)
            } else {
                r == Ok::<Option<F>, SharingError>(None)
            },
        },
{
    match draw {
        Err(_) => Err(SharingError::RandomnessFailure),
        Ok(x) => {
            if !x.equals(F::zero()) {
                Ok(Some(x))
            } else if zeros_before >= DRAW_LIMIT - 1 {
                Err(SharingError::RandomnessFailure)
            } else {
                Ok(None)
            }
        },
    }
}

/// Draws field elements until one is not zero. Gives up after `DRAW_LIMIT`
/// zeros in a row. `judge_draw` decides on every draw.
pub fn random_nonzero<F: FiniteField, R: RngCore>(rng: &mut R) -> (r: Result<F, SharingError>)
    ensures
        r matches Ok(x) ==> x != F::zero_spec(),
        r matches Err(e) ==> e == SharingError::RandomnessFailure,
{
    let mut zeros: usize = 0;
    while zeros < DRAW_LIMIT
        invariant
            zeros <= DRAW_LIMIT,
        decreases DRAW_LIMIT - zeros,
    {
        let draw = F::random(rng);
        match judge_draw(draw, zeros) {
            Ok(Some(x)) => {
                return Ok(x);
            },
            Ok(None) => {},
            Err(e) => {
                return Err(e);
            },
        }
        zeros = zeros + 1;
    }
    Err(SharingError::RandomnessFailure)
}

/// A polynomial that shares out one byte: the byte as its constant term,
/// followed by `threshold - 1` random non-zero coefficients. With a
/// threshold of one nothing is drawn.
pub fn random_generator<R: RngCore>(rng: &mut R, byte: u8, threshold: u8) -> (r: Result<
    Polynomial<GF>,
    SharingError,
>)
    requires
        threshold >= 1,
    ensures
        r matches Ok(g) ==> is_generator(g@, byte, threshold as nat),
        r matches Err(e) ==> e == SharingError::RandomnessFailure,
        threshold == 1 ==> r is Ok && *final(rng) == *old(rng),
{
    let mut coeffs: Vec<GF> = Vec::new();
    coeffs.push(GF(byte));
    let mut k: u8 = 1;
    while k < threshold
        invariant
            1 <= k <= threshold,
            coeffs@.len() == k,
            coeffs@[0] == GF(byte),
            forall|p: int| 1 <= p < k ==> coeffs@[p] != GF(0),
            threshold == 1 ==> *rng == *old(rng),
        decreases threshold - k,
    {
        match random_nonzero::<GF, R>(rng) {
            Ok(c) => {
                coeffs.push(c);
            },
            Err(e) => {
                return Err(e);
            },
        }
        k = k + 1;
    }
    Ok(Polynomial::new(coeffs))
}

/// The fragments with the indices `1` to `count` that the given generators
/// determine, one generator for each byte of the secret.
pub fn fragments_from_generators<const N: usize>(
    generators: &Vec<Polynomial<GF>>,
    count: u8,
) -> (r: Vec<(u8, [u8; N])>)
    requires
        generators@.len() == N,
    ensures
        fragments_view(r@) == fragments_of(coefficient_rows(generators@), count as nat),
{
    let ghost rows = coefficient_rows(generators@);
    let mut fragments: Vec<(u8, [u8; N])> = Vec::new();
    let mut j: u8 = 0;
    while j < count
        invariant
            j <= count,
            generators@.len() == N,
            rows == coefficient_rows(generators@),
            fragments@.len() == j,
            forall|k: int|
                0 <= k < j ==> (#[trigger] fragments@[k]).0 == (k + 1) as u8 && fragments@[k].1@
                    == fragment_of(rows, (k + 1) as u8).1,
        decreases count - j,
    {
        let index: u8 = j + 1;
        let mut payload: [u8; N] = [0u8; N];
        let mut i: usize = 0;
        while i < N
            invariant
                i <= N,
                generators@.len() == N,
                forall|p: int|
                    0 <= p < i ==> payload@[p] == poly_eval(generators@[p]@, GF(index)).0,
            decreases N - i,
        {
            let value = generators[i].get(GF(index));
            payload[i] = value.0;
            i = i + 1;
        }
        assert(payload@ =~= fragment_of(rows, index).1);
        fragments.push((index, payload));
        j = j + 1;
    }
    assert(fragments_view(fragments@) =~= fragments_of(rows, count as nat));
    fragments
}

/// Splits `secret` into `count` fragments, any `threshold` of which give it
/// back. The fragments carry the indices `1` to `count`: index zero would
/// hold the secret itself and is never used.
///
/// A threshold of zero or above `count` is rejected with
/// `InvalidParameters` before anything is drawn. A randomness source that
/// fails, or that produces `DRAW_LIMIT` zeros in a row, ends the split with
/// `RandomnessFailure`. Where no coefficient is needed, with a threshold of
/// one or an empty secret, the source is not touched and the split succeeds.
pub fn deconstruct<R: RngCore, const N: usize>(
    rng: &mut R,
    secret: Secret<N>,
    threshold: u8,
    count: u8,
) -> (r: Result<Vec<(u8, [u8; N])>, SharingError>)
    ensures
        (threshold == 0 || threshold > count) <==> r == Err::<Vec<(u8, [u8; N])>, SharingError>(
            SharingError::InvalidParameters,
        ),
        r matches Err(e) ==> e == SharingError::InvalidParameters || e
            == SharingError::RandomnessFailure,
        r matches Ok(fragments) ==> is_sharing(
            secret@,
            threshold as nat,
            count as nat,
            fragments_view(fragments@),
        ),
        r matches Ok(fragments) ==> fragments@.len() == count && forall|j: int|
            0 <= j < count ==> (#[trigger] fragments@[j]).0 == j + 1,
        1 <= threshold <= count && (threshold == 1 || N == 0) ==> r is Ok,
        threshold == 0 || threshold > count || threshold == 1 || N == 0 ==> *final(rng) == *old(
            rng,
        ),
{
    if threshold == 0 || threshold > count {
        return Err(SharingError::InvalidParameters);
    }
    let mut generators: Vec<Polynomial<GF>> = Vec::new();
    let mut i: usize = 0;
    while i < N
        invariant
            i <= N,
            1 <= threshold <= count,
            threshold == 1 || i == 0 ==> *rng == *old(rng),
            generators@.len() == i,
            forall|p: int|
                0 <= p < i ==> is_generator(
                    (#[trigger] generators@[p])@,
                    secret@[p],
                    threshold as nat,
                ),
        decreases N - i,
    {
        match random_generator(rng, secret[i], threshold) {
            Ok(g) => {
                generators.push(g);
            },
            Err(e) => {
                return Err(e);
            },
        }
        i = i + 1;
    }
    let fragments = fragments_from_generators::<N>(&generators, count);
    proof {
        let rows = coefficient_rows(generators@);
        assert(are_generators(rows, secret@, threshold as nat)) by {
            assert forall|p: int| 0 <= p < rows.len() implies is_generator(
                #[trigger] rows[p],
                secret@[p],
                threshold as nat,
            ) by {
                assert(rows[p] == generators@[p]@);
            }
        }
        let shared = fragments_view(fragments@);
        assert(shared == fragments_of(rows, count as nat));
        assert(shared.len() == fragments@.len());
        assert forall|j: int| 0 <= j < count implies (#[trigger] fragments@[j]).0 == j + 1 by {
            assert(shared[j].0 == fragments@[j].0);
        }
    }
    Ok(fragments)
}

/// Whether no two of the fragments carry the same index.
pub fn indices_distinct<const N: usize>(fragments: &[(u8, [u8; N])]) -> (b: bool)
    ensures
        b == distinct_indices(fragments_view(fragments@)),
{
    let ghost shared = fragments_view(fragments@);
    let n: usize = fragments.len();
    let mut j: usize = 0;
    while j < n
        invariant
            j <= n,
            n == fragments@.len(),
            shared == fragments_view(fragments@),
            forall|p: int, q: int| 0 <= p < q < j ==> shared[p].0 != shared[q].0,
        decreases n - j,
    {
        let mut i: usize = 0;
        while i < j
            invariant
                i <= j < n,
                n == fragments@.len(),
                shared == fragments_view(fragments@),
                forall|p: int| 0 <= p < i ==> shared[p].0 != shared[j as int].0,
            decreases j - i,
        {
            if fragments[i].0 == fragments[j].0 {
                assert(shared[i as int].0 == shared[j as int].0);
                return false;
            }
            i = i + 1;
        }
        j = j + 1;
    }
    true
}

/// Recombines the secret from fragments by interpolation at zero, byte by
/// byte. Two fragments with the same index are rejected with
/// `DuplicateIndex`. Fewer fragments than the threshold of the split go
/// unnoticed: the result is then some other sequence of bytes.
pub fn reconstruct<const N: usize>(fragments: &[(u8, [u8; N])]) -> (r: Result<
    [u8; N],
    SharingError,
>)
    ensures
        match r {
            Ok(secret) => reconstruct_spec(fragments_view(fragments@), N as nat) == Ok::<
                Seq<u8>,
                SharingError,
            >(secret@),
            Err(e) => reconstruct_spec(fragments_view(fragments@), N as nat) == Err::<
                Seq<u8>,
                SharingError,
            >(e),
        },
{
    let ghost shared = fragments_view(fragments@);
    if !indices_distinct(fragments) {
        return Err(SharingError::DuplicateIndex);
    }
    let count: usize = fragments.len();
    let mut secret: [u8; N] = [0u8; N];
    let mut i: usize = 0;
    while i < N
        invariant
            i <= N,
            count == fragments@.len(),
            shared == fragments_view(fragments@),
            distinct_indices(shared),
            forall|p: int| 0 <= p < i ==> secret@[p] == lagrange_at_zero(points_at(shared, p)).0,
        decreases N - i,
    {
        let mut points: Vec<(GF, GF)> = Vec::new();
        let mut k: usize = 0;
        while k < count
            invariant
                k <= count,
                i < N,
                count == fragments@.len(),
                shared == fragments_view(fragments@),
                points@.len() == k,
                forall|q: int| 0 <= q < k ==> points@[q] == points_at(shared, i as int)[q],
            decreases count - k,
        {
            points.push((GF(fragments[k].0), GF(fragments[k].1[i])));
            k = k + 1;
        }
        assert(points@ =~= points_at(shared, i as int));
        let value = Polynomial::<GF>::lagrange_zero(points.as_slice());
        secret[i] = value.0;
        i = i + 1;
    }
    assert(secret@ =~= reconstructed(shared, N as nat));
    Ok(secret)
}

} // verus!
