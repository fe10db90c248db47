//! Generation of the structured reference string: the powers of a secret
//! scalar in both groups.

use vstd::prelude::*;
use vstd::arithmetic::power::{pow, lemma_pow0, lemma_pow1};
use ark_std::rand::rngs::StdRng;
use ark_std::rand::Rng;
use ark_std::UniformRand;
use ark_bn254::Fr;
use ark_ff::PrimeField;
use crate::field::Scalar;
use crate::group::{G1Point, G2Point, all_g1_wf, all_g2_wf};
use crate::modmath::{
    canon, modulus, lemma_canon_range, lemma_canon_small, lemma_eqm_mul, lemma_pow_succ,
};

verus! {

/// arkworks' standard random number generator.
#[verifier::external_type_specification]
#[verifier::external_body]
pub struct ExStdRng(StdRng);

/// `UniformRand::rand` for the scalar field: some canonical element, drawn
/// from the generator's stream.
#[verifier::external_body]
fn fr_rand(rng: &mut StdRng) -> (r: Scalar)
    ensures
        r.wf(),
{
    let [l0, l1, l2, l3] = Fr::rand(rng).into_repr().0;
    Scalar { l0, l1, l2, l3 }
}

/// `ark_std::test_rng`: a generator with a fixed seed, for tests and
/// benchmarks only.
#[verifier::external_body]
fn std_test_rng() -> (r: StdRng) {
    ark_std::test_rng()
}

/// `Rng::gen_range` on the half-open range from `low` to `high`, which must
/// not be empty: some number in the range.
#[verifier::external_body]
fn rng_gen_range(rng: &mut StdRng, low: usize, high: usize) -> (r: usize)
    requires
        low < high,
    ensures
        low <= r < high,
{
    rng.gen_range(low..high)
}

/// The points are the powers `tau^0, tau^1, ...` times the generator of G1.
pub open spec fn g1_powers_of(srs: Seq<G1Point>, tau: int) -> bool {
    &&& all_g1_wf(srs)
    &&& forall|i: int| 0 <= i < srs.len() ==> (#[trigger] srs[i]).log() == canon(pow(tau, i as nat))
}

/// The points are the powers `tau^0, tau^1, ...` times the generator of G2.
pub open spec fn g2_powers_of(srs: Seq<G2Point>, tau: int) -> bool {
    &&& all_g2_wf(srs)
    &&& forall|i: int| 0 <= i < srs.len() ==> (#[trigger] srs[i]).log() == canon(pow(tau, i as nat))
}

/// The scalar whose powers a reference string in G1 holds, read off its
/// second point (read as zero for a string of one point, which holds no
/// power of it).
pub open spec fn g1_tau(srs: Seq<G1Point>) -> int {
    if srs.len() >= 2 {
        srs[1].log()
    } else {
        0
    }
}

/// The scalar whose powers a reference string in G2 holds, read off its
/// second point (zero for a string of one point, which holds no power).
pub open spec fn g2_tau(srs: Seq<G2Point>) -> int {
    if srs.len() >= 2 {
        srs[1].log()
    } else {
        0
    }
}

/// A reference string in G1: at least one point, powers of one scalar.
pub open spec fn g1_srs_wf(srs: Seq<G1Point>) -> bool {
    srs.len() >= 1 && g1_powers_of(srs, g1_tau(srs))
}

/// A reference string in G2: at least one point, powers of one scalar.
pub open spec fn g2_srs_wf(srs: Seq<G2Point>) -> bool {
    srs.len() >= 1 && g2_powers_of(srs, g2_tau(srs))
}

/// The two strings hold powers of the same scalar.
pub open spec fn srs_match(srs_g1: Seq<G1Point>, srs_g2: Seq<G2Point>) -> bool {
    &&& g1_srs_wf(srs_g1)
    &&& g2_srs_wf(srs_g2)
    &&& g1_tau(srs_g1) == g2_tau(srs_g2)
}

/// The generator of the benchmarks, with its fixed seed.
pub fn test_rng() -> (r: StdRng) {
    std_test_rng()
}

/// A random index below `bound`, or `None` for a bound of zero.
pub fn random_index(rng: &mut StdRng, bound: usize) -> (r: Option<usize>)
    ensures
        r.is_some() == (bound > 0),
        r matches Some(i) ==> i < bound,
{
    if bound == 0 {
        None
    } else {
        Some(rng_gen_range(rng, 0, bound))
    }
}

/// A fresh uniformly random scalar.
pub fn random_scalar(rng: &mut StdRng) -> (r: Scalar)
    ensures
        r.wf(),
{
    fr_rand(rng)
}

/// The reference strings for a given secret: `tau^i * G` for `i` up to
/// `max_power_g1` and `tau^i * H` for `i` up to `max_power_g2`. Whoever knows
/// `tau` can forge openings: outside tests the secret must be discarded.
pub fn setup_from_trapdoor(max_power_g1: usize, max_power_g2: usize, tau: &Scalar) -> (r: (
    Vec<G1Point>,
    Vec<G2Point>,
))
    requires
        tau.wf(),
        max_power_g1 < usize::MAX,
        max_power_g2 < usize::MAX,
    ensures
        r.0.len() == max_power_g1 + 1,
        r.1.len() == max_power_g2 + 1,
        g1_powers_of(r.0@, tau@),
        g2_powers_of(r.1@, tau@),
        g1_srs_wf(r.0@),
        g2_srs_wf(r.1@),
        max_power_g1 >= 1 ==> g1_tau(r.0@) == tau@,
        max_power_g2 >= 1 ==> g2_tau(r.1@) == tau@,
{
    let g = G1Point::generator();
    let h = G2Point::generator();
    let mut srs_g1: Vec<G1Point> = Vec::new();
    let mut srs_g2: Vec<G2Point> = Vec::new();
    let mut cur = Scalar::one();
    proof {
        lemma_pow0(tau@);
        lemma_canon_small(1);
    }
    let mut i: usize = 0;
    while i <= max_power_g1 || i <= max_power_g2
        invariant
            tau.wf(),
            cur.wf(),
            g.wf(),
            h.wf(),
            g.log() == 1,
            h.log() == 1,
            max_power_g1 < usize::MAX,
            max_power_g2 < usize::MAX,
            cur@ == canon(pow(tau@, i as nat)),
            srs_g1.len() == if i <= max_power_g1 { i } else { (max_power_g1 + 1) as usize },
            srs_g2.len() == if i <= max_power_g2 { i } else { (max_power_g2 + 1) as usize },
            g1_powers_of(srs_g1@, tau@),
            g2_powers_of(srs_g2@, tau@),
        decreases
                (if max_power_g1 >= max_power_g2 {
                    max_power_g1
                } else {
                    max_power_g2
                }) + 1 - i,
    {
        proof {
            lemma_canon_range(pow(tau@, i as nat));
            lemma_canon_small(cur@);
            assert(1 * cur@ == cur@);
        }
        if i <= max_power_g1 {
            let p = g.mul(&cur);
            srs_g1.push(p);
        }
        if i <= max_power_g2 {
            let q = h.mul(&cur);
            srs_g2.push(q);
        }
        let next = cur.mul(tau);
        proof {
            lemma_pow_succ(tau@, i as nat);
            lemma_eqm_mul(cur@, pow(tau@, i as nat), tau@, tau@);
            lemma_canon_range(cur@ * tau@);
        }
        cur = next;
        i += 1;
    }
    proof {
        lemma_pow1(tau@);
        lemma_canon_small(tau@);
        lemma_pow0(tau@);
        lemma_pow0(0);
        if max_power_g2 >= 1 {
            assert(srs_g2@[1].log() == canon(pow(tau@, 1)));
        } else {
            assert(srs_g2@[0].log() == canon(pow(tau@, 0)));
        }
        if max_power_g1 >= 1 {
            assert(srs_g1@[1].log() == canon(pow(tau@, 1)));
        } else {
            assert(srs_g1@[0].log() == canon(pow(tau@, 0)));
        }
    }
    (srs_g1, srs_g2)
}

/// Reference strings for a secret drawn from `rng`. The secret is dropped on
/// return; the strings are those of [`setup_from_trapdoor`] for it.
pub fn unsafe_setup_from_rng(max_power_g1: usize, max_power_g2: usize, rng: &mut StdRng) -> (r: (
    Vec<G1Point>,
    Vec<G2Point>,
))
    requires
        max_power_g1 < usize::MAX,
        max_power_g2 < usize::MAX,
    ensures
        r.0.len() == max_power_g1 + 1,
        r.1.len() == max_power_g2 + 1,
        exists|tau: int| 0 <= tau < modulus() && g1_powers_of(r.0@, tau) && g2_powers_of(r.1@, tau),
        g1_srs_wf(r.0@),
        g2_srs_wf(r.1@),
        max_power_g1 >= 1 && max_power_g2 >= 1 ==> srs_match(r.0@, r.1@),
{
    let tau = random_scalar(rng);
    setup_from_trapdoor(max_power_g1, max_power_g2, &tau)
}

} // verus!
