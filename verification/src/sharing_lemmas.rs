//! What splitting and recombining promise each other.
use crate::gf256::GF;
use crate::lagrange::{
    distinct_abscissas, lemma_lagrange_at_zero_of_polynomial, lemma_lagrange_at_zero_permutation,
};
use crate::polynomial::poly_eval;
use crate::polynomial_lemmas::degree_below;
use crate::{
    are_generators, distinct_indices, fragment_of, fragments_of, is_sharing, points_at,
    reconstruct_spec, reconstructed, SharingError,
};
use vstd::prelude::*;

verus! {

/// The fragments of a split carry the indices `1` to `count`: they are
/// pairwise distinct, and none is zero.
pub proof fn lemma_sharing_indices(
    secret: Seq<u8>,
    threshold: nat,
    count: nat,
    fragments: Seq<(u8, Seq<u8>)>,
)
    requires
        count <= 255,
        is_sharing(secret, threshold, count, fragments),
    ensures
        fragments.len() == count,
        forall|j: int| 0 <= j < count ==> (#[trigger] fragments[j]).0 == j + 1,
        forall|j: int| 0 <= j < count ==> (#[trigger] fragments[j]).0 != 0,
        distinct_indices(fragments),
{
    let generators = choose|generators: Seq<Seq<GF>>|
        are_generators(generators, secret, threshold) && fragments == #[trigger] fragments_of(
            generators,
            count,
        );
    assert forall|j: int| 0 <= j < count implies (#[trigger] fragments[j]).0 == j + 1 by {
        assert(fragments[j] == fragment_of(generators, (j + 1) as u8));
    }
}

/// Any `threshold` or more fragments of a split, in any order, give the
/// secret back.
pub proof fn lemma_round_trip(
    secret: Seq<u8>,
    threshold: nat,
    count: nat,
    fragments: Seq<(u8, Seq<u8>)>,
    chosen: Seq<(u8, Seq<u8>)>,
)
    requires
        1 <= threshold <= count <= 255,
        is_sharing(secret, threshold, count, fragments),
        chosen.len() >= threshold,
        distinct_indices(chosen),
        forall|k: int| 0 <= k < chosen.len() ==> fragments.contains(#[trigger] chosen[k]),
    ensures
        reconstruct_spec(chosen, secret.len()) == Ok::<Seq<u8>, SharingError>(secret),
{
    let generators = choose|generators: Seq<Seq<GF>>|
        are_generators(generators, secret, threshold) && fragments == #[trigger] fragments_of(
            generators,
            count,
        );
    let n = secret.len();
    let got = reconstructed(chosen, n);
    assert forall|i: int| 0 <= i < n implies got[i] == secret[i] by {
        let points = points_at(chosen, i);
        let c = generators[i];
        assert(distinct_abscissas(points));
        assert(degree_below(c, points.len() as int));
        assert forall|k: int| 0 <= k < points.len() implies poly_eval(c, points[k].0)
            == points[k].1 by {
            assert(fragments.contains(chosen[k]));
            let j = choose|j: int| 0 <= j < fragments.len() && fragments[j] == chosen[k];
            assert(chosen[k] == fragment_of(generators, (j + 1) as u8));
        }
        lemma_lagrange_at_zero_of_polynomial(points, c);
    }
    assert(got =~= secret);
}

/// Whether the indices of fragments are distinct does not depend on their
/// order.
pub proof fn lemma_distinct_indices_permutation(
    a: Seq<(u8, Seq<u8>)>,
    b: Seq<(u8, Seq<u8>)>,
)
    requires
        a.to_multiset() == b.to_multiset(),
        distinct_indices(a),
    ensures
        distinct_indices(b),
{
    a.to_multiset_ensures();
    b.to_multiset_ensures();
    assert(a.no_duplicates());
    a.lemma_multiset_has_no_duplicates();
    b.lemma_multiset_has_no_duplicates_conv();
    assert forall|k: int, l: int| 0 <= k < l < b.len() implies b[k].0 != b[l].0 by {
        assert(b.contains(b[k]));
        assert(b.contains(b[l]));
        assert(a.to_multiset().count(b[k]) > 0);
        assert(a.to_multiset().count(b[l]) > 0);
        assert(a.contains(b[k]));
        assert(a.contains(b[l]));
        let p = choose|p: int| 0 <= p < a.len() && a[p] == b[k];
        let q = choose|q: int| 0 <= q < a.len() && a[q] == b[l];
        assert(b[k] != b[l]);
        assert(p != q);
    }
}

/// Reconstruction does not depend on the order of the fragments.
pub proof fn lemma_reconstruct_permutation(
    a: Seq<(u8, Seq<u8>)>,
    b: Seq<(u8, Seq<u8>)>,
    n: nat,
)
    requires
        a.to_multiset() == b.to_multiset(),
    ensures
        reconstruct_spec(a, n) == reconstruct_spec(b, n),
{
    a.to_multiset_ensures();
    b.to_multiset_ensures();
    if distinct_indices(a) {
        lemma_distinct_indices_permutation(a, b);
        assert forall|i: int| 0 <= i < n implies reconstructed(a, n)[i] == reconstructed(b, n)[i] by {
            let pa = points_at(a, i);
            let pb = points_at(b, i);
            assert(distinct_abscissas(pa));
            assert(distinct_abscissas(pb));
            assert forall|k: int| 0 <= k < pa.len() implies pb.contains(#[trigger] pa[k]) by {
                assert(a.contains(a[k]));
                assert(b.to_multiset().count(a[k]) > 0);
                assert(b.contains(a[k]));
                let l = choose|l: int| 0 <= l < b.len() && b[l] == a[k];
                assert(pa[k] == pb[l]);
            }
            lemma_lagrange_at_zero_permutation(pa, pb);
        }
        assert(reconstructed(a, n) =~= reconstructed(b, n));
    } else if distinct_indices(b) {
        lemma_distinct_indices_permutation(b, a);
    }
}

} // verus!
