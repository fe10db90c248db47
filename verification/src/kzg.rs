//! The polynomial commitment scheme: a commitment to a polynomial `p` is the
//! group element `p(tau) * G`, computed from the reference string without
//! knowing `tau`; an opening at `z` is the commitment to the quotient of `p`
//! by `X - z`, and one pairing equation checks it.

use vstd::prelude::*;
use vstd::arithmetic::power::pow;
use crate::error::Error;
use crate::field::{Scalar, all_wf, values};
use crate::group::{G1Point, G2Point, g1_logs, g2_logs, pairing_check};
use crate::group::all_g1_wf;
use crate::modmath::{
    canon, dot, eqm, lemma_canon_range, lemma_canon_small, lemma_dot_comm, lemma_dot_push,
    lemma_eqm_add, lemma_eqm_diff, lemma_eqm_mul, lemma_eqm_sub, lemma_pow_succ,
};
use crate::poly::{
    all_polys_wf, combination, divide_by_linear, effective_len, effective_length,
    linear_combination, max_len, peval, poly_eval, poly_values, quotient, truncated,
    shifted, lemma_dot_powers, lemma_dot_shifted_powers, lemma_peval_effective, lemma_peval_eqm,
    lemma_peval_shifted, lemma_quotient_effective, lemma_quotient_identity,
};
use crate::utils::{g1_srs_wf, g1_tau, g2_srs_wf, g2_tau};
use crate::verify::VerifierKey;

verus! {

/// The commitment scheme's operations.
pub struct Kzg;

/// The opening equation in the exponent: with `commitment`, `proof` the
/// multiples of `G` that the two points are,
/// `commitment - evaluation = proof * (tau - point)` modulo the group order.
/// This is `e(C - v G, H) = e(pi, tau H - z H)`.
pub open spec fn opening_holds(
    tau: int,
    commitment: int,
    point: int,
    evaluation: int,
    proof: int,
) -> bool {
    eqm(commitment - evaluation, proof * (tau - point))
}

/// The canonical coefficients of the combination of the polynomials with the
/// powers of `eta`.
pub open spec fn batched(polys: Seq<Seq<int>>, eta: int) -> Seq<int> {
    Seq::new(max_len(polys), |k: int| canon(combination(polys, eta)[k]))
}

/// The opening equation depends on the commitment and the evaluation only up
/// to congruence.
pub proof fn lemma_opening_congruent(tau: int, c: int, c2: int, z: int, v: int, v2: int, pi: int)
    requires
        eqm(c, c2),
        eqm(v, v2),
    ensures
        opening_holds(tau, c, z, v, pi) == opening_holds(tau, c2, z, v2, pi),
{
    lemma_eqm_sub(c, c2, v, v2);
}

/// What the pairing check of an opening computes, reduced to the equation.
proof fn lemma_opening_check(c: int, v: int, z: int, pi: int, tau: int, nv: int, m1: int, l: int, p: int)
    requires
        eqm(nv, -v),
        eqm(m1, -1),
        eqm(l, c * 1 + 1 * nv + pi * z),
        eqm(p, pi * m1),
    ensures
        (canon(l * 1 + p * tau) == 0) == opening_holds(tau, c, z, v, pi),
{
    assert(c * 1 + 1 * nv + pi * z == (c + pi * z) + nv) by (nonlinear_arith);
    lemma_eqm_add(c + pi * z, c + pi * z, nv, -v);
    lemma_eqm_mul(pi, pi, m1, -1);
    assert(pi * (-1) == -pi) by (nonlinear_arith);
    lemma_eqm_mul(p, -pi, tau, tau);
    assert(l * 1 == l) by (nonlinear_arith);
    lemma_eqm_add(l, (c + pi * z) + (-v), p * tau, (-pi) * tau);
    assert((c + pi * z) + (-v) + (-pi) * tau == (c - v) - pi * (tau - z)) by (nonlinear_arith);
    lemma_eqm_diff(c - v, pi * (tau - z));
}

/// An honest opening verifies, and no other evaluation verifies with it: for
/// every polynomial `p`, point `z` and secret `tau`, the commitment `p(tau)`,
/// the evaluation `p(z)` and the proof `q(tau)`, where `q` is the quotient of
/// `p` by `X - z`, satisfy the opening equation; an evaluation `v` that is
/// not congruent to `p(z)` does not satisfy it with the same commitment and
/// proof.
pub proof fn lemma_opening_round_trip(p: Seq<int>, z: int, tau: int, v: int)
    ensures
        opening_holds(
            tau,
            canon(peval(p, tau)),
            z,
            canon(peval(p, z)),
            canon(peval(quotient(p, z), tau)),
        ),
        !eqm(v, peval(p, z)) ==> !opening_holds(
            tau,
            canon(peval(p, tau)),
            z,
            v,
            canon(peval(quotient(p, z), tau)),
        ),
{
    let c = canon(peval(p, tau));
    let e = canon(peval(p, z));
    let pi = canon(peval(quotient(p, z), tau));
    lemma_canon_range(peval(p, tau));
    lemma_canon_range(peval(p, z));
    lemma_canon_range(peval(quotient(p, z), tau));
    if p.len() > 0 {
        lemma_quotient_identity(p, quotient(p, z), z, tau);
    } else {
        assert(quotient(p, z).len() == 0);
        assert((tau - z) * 0 == 0);
    }
    lemma_eqm_sub(c, peval(p, tau), e, peval(p, z));
    lemma_eqm_mul(pi, peval(quotient(p, z), tau), tau - z, tau - z);
    assert((tau - z) * peval(quotient(p, z), tau) == peval(quotient(p, z), tau) * (tau - z))
        by (nonlinear_arith);
    if opening_holds(tau, c, z, v, pi) {
        lemma_eqm_sub(c, c, c - v, c - e);
        assert(c - (c - v) == v);
        assert(c - (c - e) == e);
    }
}

impl Kzg {
    /// The commitment in G1 to the polynomial with coefficients `poly`.
    /// It fails exactly when the degree is not below the number of points of
    /// the reference string.
    pub fn commit_g1(srs: &Vec<G1Point>, poly: &Vec<Scalar>) -> (r: Result<G1Point, Error>)
        requires
            g1_srs_wf(srs@),
            all_wf(poly@),
        ensures
            r.is_ok() == (effective_len(values(poly@)) <= srs.len()),
            r matches Ok(c) ==> c.wf() && c.log() == canon(peval(values(poly@), g1_tau(srs@))),
            r matches Err(e) ==> e == Error::DegreeError,
    {
        let n = effective_length(poly);
        if n > srs.len() {
            return Err(Error::DegreeError);
        }
        let coeffs = truncated(poly, n);
        let c = G1Point::msm(srs, &coeffs);
        proof {
            let tau = g1_tau(srs@);
            let a = g1_logs(srs@.take(n as int));
            let v = values(coeffs@);
            assert(v =~= values(poly@).take(n as int));
            assert forall|i: int| 0 <= i < a.len() implies eqm(
                #[trigger] a[i],
                pow(tau, i as nat),
            ) by {
                assert(srs@.take(n as int)[i] == srs@[i]);
                lemma_canon_range(pow(tau, i as nat));
            }
            lemma_dot_powers(a, v, tau);
            lemma_peval_effective(values(poly@), tau);
        }
        Ok(c)
    }

    /// The commitment in G1 to the polynomial with coefficients `poly` times
    /// `X^shift`, from the points of the reference string that its nonzero
    /// coefficients meet. It fails exactly when the product is not zero and
    /// its degree is not below the number of points of the reference string.
    pub fn commit_shifted_g1(srs: &Vec<G1Point>, poly: &Vec<Scalar>, shift: usize) -> (r: Result<
        G1Point,
        Error,
    >)
        requires
            g1_srs_wf(srs@),
            all_wf(poly@),
        ensures
            r.is_ok() == (effective_len(values(poly@)) == 0 || shift + effective_len(
                values(poly@),
            ) <= srs.len()),
            r matches Ok(c) ==> c.wf() && c.log() == canon(
                peval(shifted(values(poly@), shift as nat), g1_tau(srs@)),
            ),
            r matches Err(e) ==> e == Error::DegreeError,
    {
        let ghost tau = g1_tau(srs@);
        let n = effective_length(poly);
        if n > 0 && (n > srs.len() || shift > srs.len() - n) {
            return Err(Error::DegreeError);
        }
        let coeffs = truncated(poly, n);
        let mut bases: Vec<G1Point> = Vec::new();
        let mut i: usize = 0;
        while i < n
            invariant
                i <= n,
                n > 0 ==> shift + n <= srs.len(),
                g1_srs_wf(srs@),
                bases.len() == i,
                all_g1_wf(bases@),
                forall|k: int| 0 <= k < i ==> #[trigger] bases[k] == srs[shift + k],
            decreases n - i,
        {
            bases.push(srs[shift + i]);
            i += 1;
        }
        let c = G1Point::msm(&bases, &coeffs);
        proof {
            let a = g1_logs(bases@.take(n as int));
            let v = values(coeffs@);
            assert(v =~= values(poly@).take(n as int));
            assert forall|k: int| 0 <= k < a.len() implies eqm(
                #[trigger] a[k],
                pow(tau, (shift + k) as nat),
            ) by {
                assert(bases@.take(n as int)[k] == bases[k]);
                assert(bases[k] == srs[shift + k]);
                lemma_canon_range(pow(tau, (shift + k) as nat));
            }
            lemma_dot_shifted_powers(a, v, tau, shift as nat);
            lemma_peval_effective(values(poly@), tau);
            lemma_peval_shifted(values(poly@), shift as nat, tau);
        }
        Ok(c)
    }

    /// The commitment in G2 to the polynomial with coefficients `poly`.
    /// It fails exactly when the degree is not below the number of points of
    /// the reference string.
    pub fn commit_g2(srs: &Vec<G2Point>, poly: &Vec<Scalar>) -> (r: Result<G2Point, Error>)
        requires
            g2_srs_wf(srs@),
            all_wf(poly@),
        ensures
            r.is_ok() == (effective_len(values(poly@)) <= srs.len()),
            r matches Ok(c) ==> c.wf() && c.log() == canon(peval(values(poly@), g2_tau(srs@))),
            r matches Err(e) ==> e == Error::DegreeError,
    {
        let n = effective_length(poly);
        if n > srs.len() {
            return Err(Error::DegreeError);
        }
        let coeffs = truncated(poly, n);
        let c = G2Point::msm(srs, &coeffs);
        proof {
            let tau = g2_tau(srs@);
            let a = g2_logs(srs@.take(n as int));
            let v = values(coeffs@);
            assert(v =~= values(poly@).take(n as int));
            assert forall|i: int| 0 <= i < a.len() implies eqm(
                #[trigger] a[i],
                pow(tau, i as nat),
            ) by {
                assert(srs@.take(n as int)[i] == srs@[i]);
                lemma_canon_range(pow(tau, i as nat));
            }
            lemma_dot_powers(a, v, tau);
            lemma_peval_effective(values(poly@), tau);
        }
        Ok(c)
    }

    /// The value of the polynomial at `point`, with the proof of it: the
    /// commitment to the quotient by `X - point`. It fails exactly when
    /// the polynomial itself cannot be committed to.
    pub fn open_g1(srs: &Vec<G1Point>, poly: &Vec<Scalar>, point: &Scalar) -> (r: Result<
        (Scalar, G1Point),
        Error,
    >)
        requires
            g1_srs_wf(srs@),
            all_wf(poly@),
            point.wf(),
        ensures
            r.is_ok() == (effective_len(values(poly@)) <= srs.len()),
            r matches Ok(o) ==> o.0.wf() && o.0@ == canon(peval(values(poly@), point@)) && o.1.wf()
                && o.1.log() == canon(
                peval(quotient(values(poly@), point@), g1_tau(srs@)),
            ),
            r matches Err(e) ==> e == Error::DegreeError,
    {
        let n = effective_length(poly);
        if n > srs.len() {
            return Err(Error::DegreeError);
        }
        let p = truncated(poly, n);
        let (q, v) = divide_by_linear(&p, point);
        proof {
            lemma_peval_effective(values(q@), 0);
        }
        let c = Kzg::commit_g1(srs, &q);
        proof {
            let tau = g1_tau(srs@);
            let full = values(poly@);
            let vp = values(p@);
            assert(vp =~= full.take(n as int));
            let exact_q = quotient(vp, point@);
            assert forall|k: int| 0 <= k < exact_q.len() implies eqm(
                #[trigger] values(q@)[k],
                exact_q[k],
            ) by {
                assert(values(q@)[k] == q[k]@);
                lemma_canon_range(peval(vp.skip(k + 1), point@));
            }
            lemma_peval_eqm(values(q@), exact_q, tau, tau);
            lemma_quotient_effective(full, point@, tau);
            lemma_peval_effective(full, point@);
        }
        match c {
            Ok(pi) => Ok((v, pi)),
            Err(e) => Err(e),
        }
    }

    /// Whether `proof` shows that the polynomial committed to in
    /// `commitment` has the value `evaluation` at `point`: one pairing
    /// equation. A mismatch is the answer `false`.
    pub fn verify_open(
        vk: &VerifierKey,
        commitment: &G1Point,
        point: &Scalar,
        evaluation: &Scalar,
        proof: &G1Point,
    ) -> (r: bool)
        requires
            vk.wf(),
            commitment.wf(),
            point.wf(),
            evaluation.wf(),
            proof.wf(),
        ensures
            r == opening_holds(vk.tau(), commitment.log(), point@, evaluation@, proof.log()),
    {
        let g = G1Point::generator();
        let zero = Scalar::zero();
        let one = Scalar::one();
        let neg_v = zero.sub(evaluation);
        let minus_one = zero.sub(&one);
        let bases = vec![*commitment, g, *proof];
        let scalars = vec![one, neg_v, *point];
        let lhs = G1Point::msm(&bases, &scalars);
        let neg_proof = proof.mul(&minus_one);
        let ps = vec![lhs, neg_proof];
        let qs = vec![vk.g2, vk.x_g2];
        proof {
            let c = commitment.log();
            let pi = proof.log();
            let e0 = Seq::<int>::empty();
            assert(bases@.take(3) =~= bases@);
            assert(g1_logs(bases@) =~= e0.push(c).push(1).push(pi));
            assert(values(scalars@) =~= e0.push(1).push(neg_v@).push(point@));
            lemma_dot_push(e0, e0, c, 1);
            lemma_dot_push(e0.push(c), e0.push(1), 1, neg_v@);
            lemma_dot_push(e0.push(c).push(1), e0.push(1).push(neg_v@), pi, point@);
            assert(g1_logs(ps@) =~= e0.push(lhs.log()).push(neg_proof.log()));
            assert(g2_logs(qs@) =~= e0.push(1).push(vk.tau()));
            lemma_dot_push(e0, e0, lhs.log(), 1);
            lemma_dot_push(e0.push(lhs.log()), e0.push(1), neg_proof.log(), vk.tau());
            lemma_canon_range(0 - evaluation@);
            lemma_canon_range(0 - 1);
            lemma_canon_range(c * 1 + 1 * neg_v@ + pi * point@);
            lemma_canon_range(pi * minus_one@);
            lemma_opening_check(
                c,
                evaluation@,
                point@,
                pi,
                vk.tau(),
                neg_v@,
                minus_one@,
                lhs.log(),
                neg_proof.log(),
            );
        }
        pairing_check(&ps, &qs)
    }

    /// The values at `point` of several polynomials, with one proof for all
    /// of them: the opening of their combination with the powers of `eta`.
    /// It fails exactly when the combination cannot be committed to.
    pub fn batch_open_g1(
        srs: &Vec<G1Point>,
        polys: &Vec<Vec<Scalar>>,
        point: &Scalar,
        eta: &Scalar,
    ) -> (r: Result<(Vec<Scalar>, G1Point), Error>)
        requires
            g1_srs_wf(srs@),
            all_polys_wf(polys@),
            point.wf(),
            eta.wf(),
        ensures
            r.is_ok() == (effective_len(batched(poly_values(polys@), eta@)) <= srs.len()),
            r matches Ok(o) ==> all_wf(o.0@) && o.0.len() == polys.len() && o.1.wf() && (forall|
                i: int,
            |
                0 <= i < polys.len() ==> (#[trigger] o.0[i])@ == canon(
                    peval(poly_values(polys@)[i], point@),
                )) && o.1.log() == canon(
                peval(quotient(batched(poly_values(polys@), eta@), point@), g1_tau(srs@)),
            ),
            r matches Err(e) ==> e == Error::DegreeError,
    {
        let h = linear_combination(polys, eta);
        proof {
            assert(values(h@) =~= batched(poly_values(polys@), eta@));
        }
        let pi = match Kzg::open_g1(srs, &h, point) {
            Ok(o) => o.1,
            Err(e) => {
                return Err(e);
            },
        };
        let mut evals: Vec<Scalar> = Vec::new();
        let mut i: usize = 0;
        while i < polys.len()
            invariant
                i <= polys.len(),
                all_polys_wf(polys@),
                point.wf(),
                evals.len() == i,
                all_wf(evals@),
                forall|j: int|
                    0 <= j < i ==> (#[trigger] evals[j])@ == canon(
                        peval(poly_values(polys@)[j], point@),
                    ),
            decreases polys.len() - i,
        {
            proof {
                assert(all_wf(polys[i as int]@));
            }
            let v = poly_eval(&polys[i], point);
            evals.push(v);
            i += 1;
        }
        Ok((evals, pi))
    }

    /// Whether `proof` shows that the polynomials committed to in
    /// `commitments` have the values `evaluations` at `point`: the opening
    /// equation for the combinations of the commitments and of the values
    /// with the powers of `eta`. Lists of different lengths are rejected.
    pub fn batch_verify_open(
        vk: &VerifierKey,
        commitments: &Vec<G1Point>,
        point: &Scalar,
        evaluations: &Vec<Scalar>,
        eta: &Scalar,
        proof: &G1Point,
    ) -> (r: bool)
        requires
            vk.wf(),
            all_g1_wf(commitments@),
            all_wf(evaluations@),
            point.wf(),
            eta.wf(),
            proof.wf(),
        ensures
            r == (commitments.len() == evaluations.len() && opening_holds(
                vk.tau(),
                peval(g1_logs(commitments@), eta@),
                point@,
                peval(values(evaluations@), eta@),
                proof.log(),
            )),
    {
        if commitments.len() != evaluations.len() {
            return false;
        }
        let mut powers: Vec<Scalar> = Vec::new();
        let mut cur = Scalar::one();
        proof {
            vstd::arithmetic::power::lemma_pow0(eta@);
            lemma_canon_small(1);
        }
        let mut i: usize = 0;
        while i < commitments.len()
            invariant
                i <= commitments.len(),
                eta.wf(),
                cur.wf(),
                cur@ == canon(pow(eta@, i as nat)),
                powers.len() == i,
                all_wf(powers@),
                forall|j: int|
                    0 <= j < i ==> (#[trigger] powers[j])@ == canon(pow(eta@, j as nat)),
            decreases commitments.len() - i,
        {
            powers.push(cur);
            let next = cur.mul(eta);
            proof {
                lemma_pow_succ(eta@, i as nat);
                lemma_canon_range(pow(eta@, i as nat));
                lemma_eqm_mul(cur@, pow(eta@, i as nat), eta@, eta@);
                lemma_canon_range(cur@ * eta@);
            }
            cur = next;
            i += 1;
        }
        let c = G1Point::msm(commitments, &powers);
        let v = poly_eval(evaluations, eta);
        proof {
            let logs = g1_logs(commitments@);
            let pw = values(powers@);
            assert(commitments@.take(powers.len() as int) =~= commitments@);
            lemma_dot_comm(logs, pw);
            assert forall|j: int| 0 <= j < pw.len() implies eqm(
                #[trigger] pw[j],
                pow(eta@, j as nat),
            ) by {
                lemma_canon_range(pow(eta@, j as nat));
            }
            lemma_dot_powers(pw, logs, eta@);
            lemma_canon_range(dot(logs, pw));
            lemma_canon_range(peval(values(evaluations@), eta@));
            lemma_opening_congruent(
                vk.tau(),
                c.log(),
                peval(logs, eta@),
                point@,
                v@,
                peval(values(evaluations@), eta@),
                proof.log(),
            );
        }
        Kzg::verify_open(vk, &c, point, &v, proof)
    }
}

} // verus!
