//! Points of the BN254 groups G1 and G2, held by their uncompressed encodings.
//! Both groups are cyclic of the scalar field's prime order, so a point is
//! described by the multiple of the group's generator that it is; the
//! contracts below speak of points through that multiple. The curve
//! arithmetic and the pairing are arkworks'.

use vstd::prelude::*;
use ark_bn254::{Bn254, G1Affine, G2Affine};
use ark_ec::{msm::VariableBaseMSM, AffineCurve, PairingEngine, ProjectiveCurve};
use ark_ff::{BigInteger256, One};
use ark_serialize::{CanonicalDeserialize, CanonicalSerialize};
use crate::field::{Scalar, all_wf, values};
use crate::modmath::{canon, dot, modulus};

verus! {

/// For the uncompressed encoding that arkworks writes for a point `P` of G1,
/// the `k` with `0 <= k < r` and `P = k * G`, where `G` is the generator and
/// `r` the group order.
pub uninterp spec fn g1_log(encoding: Seq<u8>) -> int;

/// The uncompressed encoding that arkworks writes for the point `k * G` of
/// G1.
pub uninterp spec fn g1_encoding(k: int) -> Seq<u8>;

/// For the uncompressed encoding that arkworks writes for a point `Q` of G2
/// (the prime-order subgroup of the twist), the `k` with `0 <= k < r` and
/// `Q = k * H`, where `H` is the generator and `r` the group order.
pub uninterp spec fn g2_log(encoding: Seq<u8>) -> int;

/// The uncompressed encoding that arkworks writes for the point `k * H` of
/// G2.
pub uninterp spec fn g2_encoding(k: int) -> Seq<u8>;

/// A point of G1.
#[derive(Clone, Copy, Debug)]
pub struct G1Point {
    pub(crate) bytes: [u8; 64],
}

/// A point of G2.
#[derive(Clone, Copy, Debug)]
pub struct G2Point {
    pub(crate) bytes: [u8; 128],
}

impl View for G1Point {
    type V = Seq<u8>;

    closed spec fn view(&self) -> Seq<u8> {
        self.bytes@
    }
}

impl View for G2Point {
    type V = Seq<u8>;

    closed spec fn view(&self) -> Seq<u8> {
        self.bytes@
    }
}

/// The multiples of the generator that a sequence of G1 points are.
pub open spec fn g1_logs(v: Seq<G1Point>) -> Seq<int> {
    Seq::new(v.len(), |i: int| v[i].log())
}

/// The multiples of the generator that a sequence of G2 points are.
pub open spec fn g2_logs(v: Seq<G2Point>) -> Seq<int> {
    Seq::new(v.len(), |i: int| v[i].log())
}

pub open spec fn all_g1_wf(v: Seq<G1Point>) -> bool {
    forall|i: int| 0 <= i < v.len() ==> (#[trigger] v[i]).wf()
}

pub open spec fn all_g2_wf(v: Seq<G2Point>) -> bool {
    forall|i: int| 0 <= i < v.len() ==> (#[trigger] v[i]).wf()
}

/// `AffineCurve::prime_subgroup_generator` of G1: the point `1 * G`, in its
/// uncompressed encoding.
#[verifier::external_body]
fn g1_generator() -> (r: G1Point)
    ensures
        g1_log(r@) == 1,
        r@ == g1_encoding(1),
{
    let mut bytes = [0u8; 64];
    G1Affine::prime_subgroup_generator().serialize_uncompressed(&mut bytes[..]).unwrap();
    G1Point { bytes }
}

/// `VariableBaseMSM::multi_scalar_mul` on G1: the sum of `scalars[i] * bases[i]`
/// over the scalars given (bases beyond them are left out), which is the
/// multiple `sum of scalars[i] * log(bases[i])` of the generator, reduced
/// modulo the group order; the result is written in its uncompressed encoding.
#[verifier::external_body]
fn g1_msm(bases: &Vec<G1Point>, scalars: &Vec<Scalar>) -> (r: G1Point)
    requires
        scalars.len() <= bases.len(),
        all_g1_wf(bases@),
        all_wf(scalars@),
    ensures
        g1_log(r@) == dot(g1_logs(bases@.take(scalars.len() as int)), values(scalars@))
            % modulus(),
        r@ == g1_encoding(
            dot(g1_logs(bases@.take(scalars.len() as int)), values(scalars@)) % modulus(),
        ),
{
    let b: Vec<G1Affine> = bases[..scalars.len()]
        .iter()
        .map(|p| G1Affine::deserialize_unchecked(&p.bytes[..]).unwrap())
        .collect();
    let s: Vec<BigInteger256> =
        scalars.iter().map(|s| BigInteger256([s.l0, s.l1, s.l2, s.l3])).collect();
    let mut bytes = [0u8; 64];
    let sum = VariableBaseMSM::multi_scalar_mul(&b, &s).into_affine();
    sum.serialize_uncompressed(&mut bytes[..]).unwrap();
    G1Point { bytes }
}

/// Equality of G1 points, as arkworks compares them: two points are equal
/// exactly when they are the same multiple of the generator.
#[verifier::external_body]
fn g1_same(a: &G1Point, b: &G1Point) -> (r: bool)
    requires
        a.wf(),
        b.wf(),
    ensures
        r == (g1_log(a@) == g1_log(b@)),
{
    let x = G1Affine::deserialize_unchecked(&a.bytes[..]).unwrap();
    let y = G1Affine::deserialize_unchecked(&b.bytes[..]).unwrap();
    x == y
}

/// `AffineCurve::prime_subgroup_generator` of G2: the point `1 * H`, in its
/// uncompressed encoding.
#[verifier::external_body]
fn g2_generator() -> (r: G2Point)
    ensures
        g2_log(r@) == 1,
        r@ == g2_encoding(1),
{
    let mut bytes = [0u8; 128];
    G2Affine::prime_subgroup_generator().serialize_uncompressed(&mut bytes[..]).unwrap();
    G2Point { bytes }
}

/// `VariableBaseMSM::multi_scalar_mul` on G2: the sum of `scalars[i] * bases[i]`
/// over the scalars given (bases beyond them are left out), which is the
/// multiple `sum of scalars[i] * log(bases[i])` of the generator, reduced
/// modulo the group order; the result is written in its uncompressed encoding.
#[verifier::external_body]
fn g2_msm(bases: &Vec<G2Point>, scalars: &Vec<Scalar>) -> (r: G2Point)
    requires
        scalars.len() <= bases.len(),
        all_g2_wf(bases@),
        all_wf(scalars@),
    ensures
        g2_log(r@) == dot(g2_logs(bases@.take(scalars.len() as int)), values(scalars@))
            % modulus(),
        r@ == g2_encoding(
            dot(g2_logs(bases@.take(scalars.len() as int)), values(scalars@)) % modulus(),
        ),
{
    let b: Vec<G2Affine> = bases[..scalars.len()]
        .iter()
        .map(|p| G2Affine::deserialize_unchecked(&p.bytes[..]).unwrap())
        .collect();
    let s: Vec<BigInteger256> =
        scalars.iter().map(|s| BigInteger256([s.l0, s.l1, s.l2, s.l3])).collect();
    let mut bytes = [0u8; 128];
    let sum = VariableBaseMSM::multi_scalar_mul(&b, &s).into_affine();
    sum.serialize_uncompressed(&mut bytes[..]).unwrap();
    G2Point { bytes }
}

/// `PairingEngine::product_of_pairings` compared with one. The pairing is
/// bilinear and `e(G, H)` has order `r`, so the product of the `e(ps[i], qs[i])`
/// is one exactly when the sum of `log(ps[i]) * log(qs[i])` is a multiple of `r`.
#[verifier::external_body]
fn pairing_product_is_one(ps: &Vec<G1Point>, qs: &Vec<G2Point>) -> (r: bool)
    requires
        ps.len() == qs.len(),
        all_g1_wf(ps@),
        all_g2_wf(qs@),
    ensures
        r == (dot(g1_logs(ps@), g2_logs(qs@)) % modulus() == 0),
{
    let pairs: Vec<_> = ps.iter().zip(qs.iter()).map(|(p, q)| (
        G1Affine::deserialize_unchecked(&p.bytes[..]).unwrap().into(),
        G2Affine::deserialize_unchecked(&q.bytes[..]).unwrap().into(),
    )).collect();
    Bn254::product_of_pairings(pairs.iter()).is_one()
}

impl G1Point {
    /// The bytes are the encoding of a point of the group: of the multiple
    /// of the generator that `log` names.
    pub open spec fn wf(&self) -> bool {
        self@ == g1_encoding(g1_log(self@))
    }

    /// The multiple of the generator that the point is.
    pub open spec fn log(&self) -> int {
        g1_log(self@)
    }

    pub fn generator() -> (r: G1Point)
        ensures
            r.wf(),
            r.log() == 1,
    {
        g1_generator()
    }

    /// The sum of the `scalars[i] * bases[i]`, over the scalars given.
    pub fn msm(bases: &Vec<G1Point>, scalars: &Vec<Scalar>) -> (r: G1Point)
        requires
            scalars.len() <= bases.len(),
            all_g1_wf(bases@),
            all_wf(scalars@),
        ensures
            r.wf(),
            r.log() == canon(dot(g1_logs(bases@.take(scalars.len() as int)), values(scalars@))),
    {
        g1_msm(bases, scalars)
    }

    /// The multiple `s * self`.
    pub fn mul(&self, s: &Scalar) -> (r: G1Point)
        requires
            self.wf(),
            s.wf(),
        ensures
            r.wf(),
            r.log() == canon(self.log() * s@),
    {
        let bases = vec![*self];
        let scalars = vec![*s];
        proof {
            reveal_with_fuel(dot, 2);
            assert(bases@.take(1) =~= bases@);
            assert(g1_logs(bases@) =~= seq![self.log()]);
            assert(values(scalars@) =~= seq![s@]);
            assert(seq![self.log()].drop_last() =~= Seq::<int>::empty());
            assert(seq![s@].drop_last() =~= Seq::<int>::empty());
        }
        g1_msm(&bases, &scalars)
    }

    /// Whether two points are the same point.
    pub fn same(&self, other: &G1Point) -> (r: bool)
        requires
            self.wf(),
            other.wf(),
        ensures
            r == (self.log() == other.log()),
    {
        g1_same(self, other)
    }

    /// The 64 bytes of the uncompressed encoding.
    pub fn to_bytes(&self) -> (r: Vec<u8>)
        ensures
            r@ == self@,
    {
        let mut out: Vec<u8> = Vec::new();
        let mut i: usize = 0;
        while i < 64
            invariant
                i <= 64,
                out@ == self.bytes@.take(i as int),
            decreases 64 - i,
        {
            out.push(self.bytes[i]);
            i += 1;
        }
        assert(self.bytes@.take(64) == self.bytes@);
        out
    }
}

impl G2Point {
    /// The bytes are the encoding of a point of the group: of the multiple
    /// of the generator that `log` names.
    pub open spec fn wf(&self) -> bool {
        self@ == g2_encoding(g2_log(self@))
    }

    /// The multiple of the generator that the point is.
    pub open spec fn log(&self) -> int {
        g2_log(self@)
    }

    pub fn generator() -> (r: G2Point)
        ensures
            r.wf(),
            r.log() == 1,
    {
        g2_generator()
    }

    /// The sum of the `scalars[i] * bases[i]`, over the scalars given.
    pub fn msm(bases: &Vec<G2Point>, scalars: &Vec<Scalar>) -> (r: G2Point)
        requires
            scalars.len() <= bases.len(),
            all_g2_wf(bases@),
            all_wf(scalars@),
        ensures
            r.wf(),
            r.log() == canon(dot(g2_logs(bases@.take(scalars.len() as int)), values(scalars@))),
    {
        g2_msm(bases, scalars)
    }

    /// The multiple `s * self`.
    pub fn mul(&self, s: &Scalar) -> (r: G2Point)
        requires
            self.wf(),
            s.wf(),
        ensures
            r.wf(),
            r.log() == canon(self.log() * s@),
    {
        let bases = vec![*self];
        let scalars = vec![*s];
        proof {
            reveal_with_fuel(dot, 2);
            assert(bases@.take(1) =~= bases@);
            assert(g2_logs(bases@) =~= seq![self.log()]);
            assert(values(scalars@) =~= seq![s@]);
            assert(seq![self.log()].drop_last() =~= Seq::<int>::empty());
            assert(seq![s@].drop_last() =~= Seq::<int>::empty());
        }
        g2_msm(&bases, &scalars)
    }

    /// The 128 bytes of the uncompressed encoding.
    pub fn to_bytes(&self) -> (r: Vec<u8>)
        ensures
            r@ == self@,
    {
        let mut out: Vec<u8> = Vec::new();
        let mut i: usize = 0;
        while i < 128
            invariant
                i <= 128,
                out@ == self.bytes@.take(i as int),
            decreases 128 - i,
        {
            out.push(self.bytes[i]);
            i += 1;
        }
        assert(self.bytes@.take(128) == self.bytes@);
        out
    }
}

/// Points of G1 with the same encoding are the same value.
pub proof fn lemma_g1_same_encoding(a: G1Point, b: G1Point)
    requires
        a@ == b@,
    ensures
        a == b,
{
    assert(a.bytes =~= b.bytes);
}

/// Well-formed points of G1 that are the same multiple of the generator are
/// the same value.
pub proof fn lemma_g1_same_log(a: G1Point, b: G1Point)
    requires
        a.wf(),
        b.wf(),
        a.log() == b.log(),
    ensures
        a == b,
{
    lemma_g1_same_encoding(a, b);
}

/// Whether the product of the pairings `e(ps[i], qs[i])` is the identity of
/// the target group.
pub fn pairing_check(ps: &Vec<G1Point>, qs: &Vec<G2Point>) -> (r: bool)
    requires
        ps.len() == qs.len(),
        all_g1_wf(ps@),
        all_g2_wf(qs@),
    ensures
        r == (canon(dot(g1_logs(ps@), g2_logs(qs@))) == 0),
{
    pairing_product_is_one(ps, qs)
}

} // verus!
