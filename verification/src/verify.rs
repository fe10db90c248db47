//! The verifier's key and the verification of a lookup proof.

use vstd::prelude::*;
use vstd::arithmetic::power::pow;
use crate::data_structures::{Proof, Statement};
use crate::error::Error;
use crate::field::{Scalar, values};
use crate::group::{G1Point, G2Point, g1_logs, g2_logs, pairing_check};
use crate::indexer::CommonPreprocessedInput;
use crate::modmath::{
    canon, dot, eqm, finv, invertible, lemma_add_c, lemma_canon_range, lemma_canon_small,
    lemma_dot5, lemma_dot8, lemma_dot2, lemma_dot_eqm, lemma_finv_congruent, lemma_mul_c,
    lemma_sub_c,
};
use crate::protocol::{Challenges, challenges, derive_challenges};
use crate::domain::{is_padded_size, max_domain_size, padded_size, padded_size_of};
use crate::utils::{g2_srs_wf, g2_tau};

verus! {

/// What the verifier keeps of the reference string: the generator of G2, the
/// secret times it, and the power that bounds the degree of the witness-side
/// polynomial, with the table size, the witness size, and the size of the
/// witness domain, which is the least power of two that holds the witness.
#[derive(Clone, Copy, Debug)]
pub struct VerifierKey {
    pub g2: G2Point,
    pub x_g2: G2Point,
    pub shift_g2: G2Point,
    pub table_size: usize,
    pub witness_size: usize,
    pub domain_size: usize,
}

impl VerifierKey {
    /// The secret scalar of the reference string that the key was cut from.
    pub open spec fn tau(&self) -> int {
        self.x_g2.log()
    }

    /// The exponent of the degree-bounding power: `N + 1 - M`, for the
    /// table size `N` and the size `M` of the witness domain.
    pub open spec fn shift(&self) -> nat {
        (self.table_size + 1 - self.domain_size) as nat
    }

    pub open spec fn wf(&self) -> bool {
        &&& 1 <= self.witness_size < self.table_size
        &&& is_padded_size(self.domain_size as int, self.witness_size as int)
        &&& self.domain_size <= self.table_size
        &&& self.g2.wf()
        &&& self.x_g2.wf()
        &&& self.shift_g2.wf()
        &&& self.g2.log() == 1
        &&& self.shift_g2.log() == canon(pow(self.tau(), self.shift()))
    }

    /// The key for tables of `table_size` rows and witnesses of
    /// `witness_size` entries. The witness must have at least one entry, be
    /// smaller than the table and at most `2^28`; its domain must not be
    /// larger than the table, which holds for every table whose size is a
    /// power of two; and the reference string must reach the power
    /// `table_size + 1 - M`, for the size `M` of the witness domain.
    pub fn new(srs_g2: &Vec<G2Point>, table_size: usize, witness_size: usize) -> (r: Result<
        VerifierKey,
        Error,
    >)
        requires
            g2_srs_wf(srs_g2@),
        ensures
            r.is_ok() == (1 <= witness_size < table_size && witness_size <= max_domain_size()
                && padded_size(witness_size as int) <= table_size && table_size + 1 - padded_size(
                witness_size as int,
            ) < srs_g2.len()),
            r matches Ok(vk) ==> vk.wf() && vk.tau() == g2_tau(srs_g2@) && vk.table_size
                == table_size && vk.witness_size == witness_size && vk.domain_size == padded_size(
                witness_size as int,
            ) && vk.g2 == srs_g2[0] && vk.x_g2 == srs_g2[1] && vk.shift_g2 == srs_g2[table_size
                + 1 - padded_size(witness_size as int)],
            r matches Err(e) ==> e == Error::SizingError,
    {
        if witness_size < 1 || witness_size >= table_size || witness_size > 0x1000_0000 {
            return Err(Error::SizingError);
        }
        let domain_size = padded_size_of(witness_size);
        if domain_size > table_size {
            return Err(Error::SizingError);
        }
        let shift = table_size - domain_size + 1;
        if shift >= srs_g2.len() {
            return Err(Error::SizingError);
        }
        proof {
            vstd::arithmetic::power::lemma_pow0(g2_tau(srs_g2@));
            crate::modmath::lemma_canon_small(1);
            assert(srs_g2[0].log() == canon(pow(g2_tau(srs_g2@), 0)));
            assert(srs_g2[shift as int].log() == canon(pow(g2_tau(srs_g2@), shift as nat)));
        }
        Ok(
            VerifierKey {
                g2: srs_g2[0],
                x_g2: srs_g2[1],
                shift_g2: srs_g2[shift],
                table_size,
                witness_size,
                domain_size,
            },
        )
    }
}

/// The verifier.
pub struct Verifier;

/// The value at zero of the witness-side polynomial `B`, which the sizes and
/// the value at zero of `A` determine: `N * A(0) / M`.
pub open spec fn b_at_zero(vk: VerifierKey, proof: Proof) -> int {
    vk.table_size * proof.a_0@ * finv(vk.domain_size as int)
}

/// The value of `B` at `gamma`.
pub open spec fn b_at_gamma(vk: VerifierKey, proof: Proof, gamma: int) -> int {
    proof.b0_gamma@ * gamma + b_at_zero(vk, proof)
}

/// The value at `gamma` of the vanishing polynomial `X^M - 1` of the witness
/// domain.
pub open spec fn vanishing_at(vk: VerifierKey, gamma: int) -> int {
    pow(gamma, vk.domain_size as nat) - 1
}

/// The value at `gamma` that the witness-side quotient must have:
/// `(B (f + beta) - 1) / (X^M - 1)` at `gamma`.
pub open spec fn qb_at_gamma(vk: VerifierKey, proof: Proof, beta: int, gamma: int) -> int {
    (b_at_gamma(vk, proof, gamma) * (proof.f_gamma@ + beta) - 1) * finv(vanishing_at(vk, gamma))
}

/// The combination of the three values at `gamma` with the powers of `eta`.
pub open spec fn batched_value(vk: VerifierKey, proof: Proof, ch: Challenges) -> int {
    proof.b0_gamma@ + ch.eta * proof.f_gamma@ + ch.eta * ch.eta * qb_at_gamma(
        vk,
        proof,
        ch.beta,
        ch.gamma,
    )
}

/// The scalars by which the verifier multiplies, in this order, the
/// commitments `m`, `a`, `p`, `b_0`, the statement, `q_b`, the generator and
/// `pi_gamma`, to form the point that is paired with the generator of G2.
pub open spec fn unit_weights(proof: Proof, ch: Challenges, v: int) -> Seq<int> {
    seq![
        -1int,
        ch.beta + ch.rho * ch.rho * ch.rho,
        -ch.rho,
        ch.rho * ch.rho,
        ch.rho * ch.rho * ch.eta,
        ch.rho * ch.rho * ch.eta * ch.eta,
        -(ch.rho * ch.rho * v + ch.rho * ch.rho * ch.rho * proof.a_0@),
        ch.rho * ch.rho * ch.gamma,
    ]
}

/// The multiples of the generator that those commitments are.
pub open spec fn unit_logs(statement: Statement, proof: Proof) -> Seq<int> {
    seq![
        proof.m.log(),
        proof.a.log(),
        proof.p.log(),
        proof.b_0.log(),
        statement.f.log(),
        proof.q_b.log(),
        1int,
        proof.pi_gamma.log(),
    ]
}

/// The point that is paired with the secret's point of G2, in the exponent.
pub open spec fn secret_side(proof: Proof, ch: Challenges) -> int {
    proof.pi_gamma.log() * (-(ch.rho * ch.rho)) + proof.a0_proof.log() * (-(ch.rho * ch.rho
        * ch.rho))
}

/// The table-side identity in the exponent, zero when it holds:
/// `A (T + beta) - m - Q_A Z_V` at the secret.
pub open spec fn table_equation(common: CommonPreprocessedInput, proof: Proof, beta: int) -> int {
    proof.a.log() * common.t_2.log() - proof.q_a.log() * common.zv_2.log() - proof.m.log() + beta
        * proof.a.log()
}

/// The degree bound on `B` in the exponent, zero when it holds.
pub open spec fn degree_equation(vk: VerifierKey, proof: Proof) -> int {
    proof.b_0.log() * vk.shift_g2.log() - proof.p.log()
}

/// The batched opening at `gamma` in the exponent, zero when it holds.
pub open spec fn opening_equation(
    vk: VerifierKey,
    statement: Statement,
    proof: Proof,
    ch: Challenges,
) -> int {
    (proof.b_0.log() + ch.eta * statement.f.log() + ch.eta * ch.eta * proof.q_b.log())
        - batched_value(vk, proof, ch) - proof.pi_gamma.log() * (vk.tau() - ch.gamma)
}

/// The opening of `A` at zero in the exponent, zero when it holds.
pub open spec fn zero_equation(vk: VerifierKey, proof: Proof) -> int {
    (proof.a.log() - proof.a_0@) - proof.a0_proof.log() * vk.tau()
}

/// The four equations combined with the powers of `rho`.
pub open spec fn combined_equation(
    vk: VerifierKey,
    common: CommonPreprocessedInput,
    statement: Statement,
    proof: Proof,
    ch: Challenges,
) -> int {
    table_equation(common, proof, ch.beta) + ch.rho * degree_equation(vk, proof) + ch.rho * ch.rho
        * opening_equation(vk, statement, proof, ch) + ch.rho * ch.rho * ch.rho * zero_equation(
        vk,
        proof,
    )
}

/// What the verifier accepts: the evaluation point is off the witness
/// domain, and the combined pairing equation holds.
pub open spec fn accepts(
    vk: VerifierKey,
    common: CommonPreprocessedInput,
    statement: Statement,
    proof: Proof,
) -> bool {
    let ch = challenges(vk.table_size, vk.witness_size, common, statement, proof);
    invertible(vanishing_at(vk, ch.gamma)) && eqm(
        combined_equation(vk, common, statement, proof, ch),
        0,
    )
}

/// The pairing product, term by term, is the combination of the four
/// equations.
proof fn lemma_combination(
    m: int,
    a: int,
    qa: int,
    b0: int,
    qb: int,
    p: int,
    pi: int,
    pi0: int,
    cm: int,
    t: int,
    zv: int,
    sh: int,
    tau: int,
    beta: int,
    gamma: int,
    eta: int,
    rho: int,
    v: int,
    a0: int,
)
    ensures
        a * t + (-qa) * zv + (b0 * rho) * sh + (m * (-1) + a * (beta + rho * rho * rho) + p * (-rho)
            + b0 * (rho * rho) + cm * (rho * rho * eta) + qb * (rho * rho * eta * eta) + 1 * (-(rho
            * rho * v + rho * rho * rho * a0)) + pi * (rho * rho * gamma)) * 1 + (pi * (-(rho
            * rho)) + pi0 * (-(rho * rho * rho))) * tau == (a * t - qa * zv - m + beta * a) + rho
            * (b0 * sh - p) + rho * rho * ((b0 + eta * cm + eta * eta * qb) - v - pi * (tau
            - gamma)) + rho * rho * rho * ((a - a0) - pi0 * tau),
{
    let r2 = rho * rho;
    let r3 = rho * rho * rho;
    let x5 = eta * cm;
    let x6 = eta * eta * qb;
    let y = pi * tau;
    let w = pi * gamma;
    let y0 = pi0 * tau;
    let bs = b0 * sh;
    assert((-qa) * zv == -(qa * zv)) by (nonlinear_arith);
    assert((b0 * rho) * sh == rho * bs) by (nonlinear_arith)
        requires
            bs == b0 * sh,
    ;
    assert(m * (-1) == -m) by (nonlinear_arith);
    assert(a * (beta + r3) == beta * a + r3 * a) by (nonlinear_arith);
    assert(p * (-rho) == -(rho * p)) by (nonlinear_arith);
    assert(b0 * r2 == r2 * b0) by (nonlinear_arith);
    assert(cm * (r2 * eta) == r2 * x5) by (nonlinear_arith)
        requires
            x5 == eta * cm,
    ;
    assert(qb * (r2 * eta * eta) == r2 * x6) by (nonlinear_arith)
        requires
            x6 == eta * eta * qb,
    ;
    assert(1 * (-(r2 * v + r3 * a0)) == -(r2 * v) - r3 * a0) by (nonlinear_arith);
    assert(pi * (r2 * gamma) == r2 * w) by (nonlinear_arith)
        requires
            w == pi * gamma,
    ;
    assert((pi * (-r2) + pi0 * (-r3)) * tau == -(r2 * y) - r3 * y0) by (nonlinear_arith)
        requires
            y == pi * tau,
            y0 == pi0 * tau,
    ;
    assert(rho * (bs - p) == rho * bs - rho * p) by (nonlinear_arith);
    assert(pi * (tau - gamma) == y - w) by (nonlinear_arith)
        requires
            y == pi * tau,
            w == pi * gamma,
    ;
    assert(r2 * ((b0 + x5 + x6) - v - (y - w)) == r2 * b0 + r2 * x5 + r2 * x6 - r2 * v - r2 * y
        + r2 * w) by (nonlinear_arith);
    assert(r3 * ((a - a0) - y0) == r3 * a - r3 * a0 - r3 * y0) by (nonlinear_arith);
    let inner = m * (-1) + a * (beta + r3) + p * (-rho) + b0 * r2 + cm * (r2 * eta) + qb * (r2
        * eta * eta) + 1 * (-(r2 * v + r3 * a0)) + pi * (r2 * gamma);
    assert(inner * 1 == inner) by (nonlinear_arith);
}

impl Verifier {
    /// The batched value at the evaluation point, or `None` where that point
    /// lies on the witness domain.
    fn batched_evaluation(
        vk: &VerifierKey,
        proof: &Proof,
        beta: &Scalar,
        gamma: &Scalar,
        eta: &Scalar,
        Ghost(ch): Ghost<Challenges>,
    ) -> (r: Option<Scalar>)
        requires
            vk.wf(),
            proof.wf(),
            beta.wf(),
            gamma.wf(),
            eta.wf(),
            ch.beta == beta@,
            ch.gamma == gamma@,
            ch.eta == eta@,
        ensures
            r.is_some() == invertible(vanishing_at(*vk, ch.gamma)),
            r matches Some(v) ==> v.wf() && eqm(v@, batched_value(*vk, *proof, ch)),
    {
        let one = Scalar::one();
        let gm = gamma.pow(vk.domain_size);
        let zh = gm.sub(&one);
        proof {
            lemma_canon_range(pow(gamma@, vk.domain_size as nat));
            lemma_sub_c(gm@, pow(gamma@, vk.domain_size as nat), 1, 1, zh@);
            lemma_canon_small(0);
            lemma_canon_range(gm@ - 1);
            if invertible(zh@) {
                lemma_finv_congruent(zh@, vanishing_at(*vk, ch.gamma));
            }
            if invertible(vanishing_at(*vk, ch.gamma)) {
                lemma_finv_congruent(vanishing_at(*vk, ch.gamma), zh@);
            }
        }
        let zh_inv = match zh.inverse() {
            Some(v) => v,
            None => {
                return None;
            },
        };
        let m_s = Scalar::from_u64(vk.domain_size as u64);
        let m_inv = match m_s.inverse() {
            Some(v) => v,
            None => {
                return None;
            },
        };
        let n_s = Scalar::from_u64(vk.table_size as u64);
        let ghost zh_x = vanishing_at(*vk, ch.gamma);
        let ghost bz_x = b_at_zero(*vk, *proof);
        let ghost bg_x = b_at_gamma(*vk, *proof, ch.gamma);
        let ghost qb_x = qb_at_gamma(*vk, *proof, ch.beta, ch.gamma);
        proof {
            lemma_finv_congruent(zh@, zh_x);
        }
        let na = n_s.mul(&proof.a_0);
        let bz = na.mul(&m_inv);
        let bgp = proof.b0_gamma.mul(gamma);
        let bg = bgp.add(&bz);
        let fb = proof.f_gamma.add(beta);
        let bf = bg.mul(&fb);
        let num = bf.sub(&one);
        let qbg = num.mul(&zh_inv);
        let ef = eta.mul(&proof.f_gamma);
        let ee = eta.mul(eta);
        let eq = ee.mul(&qbg);
        let v0 = proof.b0_gamma.add(&ef);
        let v = v0.add(&eq);
        proof {
            let n = vk.table_size as int;
            lemma_mul_c(n, n, proof.a_0@, proof.a_0@, na@);
            lemma_mul_c(na@, n * proof.a_0@, m_inv@, finv(vk.domain_size as int), bz@);
            lemma_mul_c(proof.b0_gamma@, proof.b0_gamma@, gamma@, gamma@, bgp@);
            lemma_add_c(bgp@, proof.b0_gamma@ * gamma@, bz@, bz_x, bg@);
            lemma_add_c(proof.f_gamma@, proof.f_gamma@, beta@, beta@, fb@);
            lemma_mul_c(bg@, bg_x, fb@, proof.f_gamma@ + beta@, bf@);
            lemma_sub_c(bf@, bg_x * (proof.f_gamma@ + beta@), 1, 1, num@);
            lemma_mul_c(num@, bg_x * (proof.f_gamma@ + beta@) - 1, zh_inv@, finv(zh_x), qbg@);
            lemma_mul_c(eta@, eta@, proof.f_gamma@, proof.f_gamma@, ef@);
            lemma_mul_c(eta@, eta@, eta@, eta@, ee@);
            lemma_mul_c(ee@, eta@ * eta@, qbg@, qb_x, eq@);
            lemma_add_c(proof.b0_gamma@, proof.b0_gamma@, ef@, eta@ * proof.f_gamma@, v0@);
            lemma_add_c(v0@, proof.b0_gamma@ + eta@ * proof.f_gamma@, eq@, eta@ * eta@ * qb_x, v@);
        }
        Some(v)
    }

    /// The two points that are paired with the generator of G2 and with the
    /// secret's point.
    fn combine_points(
        statement: &Statement,
        proof: &Proof,
        beta: &Scalar,
        gamma: &Scalar,
        eta: &Scalar,
        rho: &Scalar,
        v: &Scalar,
        Ghost(ch): Ghost<Challenges>,
        Ghost(v_x): Ghost<int>,
    ) -> (r: (G1Point, G1Point))
        requires
            statement.f.wf(),
            proof.wf(),
            beta.wf(),
            gamma.wf(),
            eta.wf(),
            rho.wf(),
            v.wf(),
            ch.beta == beta@,
            ch.gamma == gamma@,
            ch.eta == eta@,
            ch.rho == rho@,
            eqm(v@, v_x),
        ensures
            r.0.wf(),
            r.1.wf(),
            eqm(r.0.log(), dot(unit_logs(*statement, *proof), unit_weights(*proof, ch, v_x))),
            eqm(r.1.log(), secret_side(*proof, ch)),
    {
        let zero = Scalar::zero();
        let one = Scalar::one();
        let minus_one = zero.sub(&one);
        let rho2 = rho.mul(rho);
        let rho3 = rho2.mul(rho);
        let s2 = beta.add(&rho3);
        let s3 = zero.sub(rho);
        let s5 = rho2.mul(eta);
        let s6 = s5.mul(eta);
        let rv = rho2.mul(v);
        let ra = rho3.mul(&proof.a_0);
        let rs = rv.add(&ra);
        let s7 = zero.sub(&rs);
        let s8 = rho2.mul(gamma);
        let x1 = zero.sub(&rho2);
        let x2 = zero.sub(&rho3);
        let ghost r2 = rho@ * rho@;
        let ghost r3 = rho@ * rho@ * rho@;
        let ghost ws_x = unit_weights(*proof, ch, v_x);
        proof {
            lemma_sub_c(0, 0, 1, 1, minus_one@);
            lemma_mul_c(rho@, rho@, rho@, rho@, rho2@);
            lemma_mul_c(rho2@, r2, rho@, rho@, rho3@);
            lemma_add_c(beta@, beta@, rho3@, r3, s2@);
            lemma_sub_c(0, 0, rho@, rho@, s3@);
            lemma_mul_c(rho2@, r2, eta@, eta@, s5@);
            lemma_mul_c(s5@, r2 * eta@, eta@, eta@, s6@);
            lemma_mul_c(rho2@, r2, v@, v_x, rv@);
            lemma_mul_c(rho3@, r3, proof.a_0@, proof.a_0@, ra@);
            lemma_add_c(rv@, r2 * v_x, ra@, r3 * proof.a_0@, rs@);
            lemma_sub_c(0, 0, rs@, r2 * v_x + r3 * proof.a_0@, s7@);
            lemma_mul_c(rho2@, r2, gamma@, gamma@, s8@);
            lemma_sub_c(0, 0, rho2@, r2, x1@);
            lemma_sub_c(0, 0, rho3@, r3, x2@);
        }
        let g = G1Point::generator();
        let w_bases = vec![
            proof.m,
            proof.a,
            proof.p,
            proof.b_0,
            statement.f,
            proof.q_b,
            g,
            proof.pi_gamma,
        ];
        let w_scalars = vec![minus_one, s2, s3, rho2, s5, s6, s7, s8];
        let w = G1Point::msm(&w_bases, &w_scalars);
        let x_bases = vec![proof.pi_gamma, proof.a0_proof];
        let x_scalars = vec![x1, x2];
        let x = G1Point::msm(&x_bases, &x_scalars);
        proof {
            let wl = g1_logs(w_bases@);
            let wv = values(w_scalars@);
            assert(w_bases@.take(8) =~= w_bases@);
            assert(wl =~= unit_logs(*statement, *proof));
            assert forall|i: int| 0 <= i < 8 implies eqm(#[trigger] wv[i], ws_x[i]) by {
                assert(wv[i] == w_scalars@[i]@);
            }
            lemma_dot_eqm(wl, wv, wl, ws_x);
            lemma_canon_range(dot(wl, wv));
            let xl = g1_logs(x_bases@);
            let xv = values(x_scalars@);
            let xs_x = seq![-r2, -r3];
            assert(x_bases@.take(2) =~= x_bases@);
            assert(xl =~= seq![proof.pi_gamma.log(), proof.a0_proof.log()]);
            assert forall|i: int| 0 <= i < 2 implies eqm(#[trigger] xv[i], xs_x[i]) by {
                assert(xv[i] == x_scalars@[i]@);
            }
            lemma_dot_eqm(xl, xv, xl, xs_x);
            lemma_dot2(proof.pi_gamma.log(), proof.a0_proof.log(), -r2, -r3);
            lemma_canon_range(dot(xl, xv));
        }
        (w, x)
    }

    /// Checks a lookup proof: derives the challenges from the public inputs
    /// and the proof, and accepts exactly when one pairing product, which
    /// combines the table-side identity, the degree bound and the two
    /// openings, is the identity. A rejected proof is an error value.
    pub fn verify(
        vk: &VerifierKey,
        common: &CommonPreprocessedInput,
        statement: &Statement,
        proof: &Proof,
    ) -> (r: Result<(), Error>)
        requires
            vk.wf(),
            common.zv_2.wf(),
            common.t_2.wf(),
            statement.f.wf(),
            proof.wf(),
        ensures
            r.is_ok() == accepts(*vk, *common, *statement, *proof),
            r matches Err(e) ==> e == Error::VerificationError,
    {
        let ch4 = derive_challenges(vk.table_size, vk.witness_size, common, statement, proof);
        let beta = ch4.0;
        let gamma = ch4.1;
        let eta = ch4.2;
        let rho = ch4.3;
        let ghost ch = challenges(vk.table_size, vk.witness_size, *common, *statement, *proof);
        let ghost v_x = batched_value(*vk, *proof, ch);
        let v = match Verifier::batched_evaluation(vk, proof, &beta, &gamma, &eta, Ghost(ch)) {
            Some(v) => v,
            None => {
                return Err(Error::VerificationError);
            },
        };
        let pair = Verifier::combine_points(
            statement,
            proof,
            &beta,
            &gamma,
            &eta,
            &rho,
            &v,
            Ghost(ch),
            Ghost(v_x),
        );
        let w = pair.0;
        let x = pair.1;
        let zero = Scalar::zero();
        let one = Scalar::one();
        let minus_one = zero.sub(&one);
        let neg_qa = proof.q_a.mul(&minus_one);
        let rb0 = proof.b_0.mul(&rho);
        let ps = vec![proof.a, neg_qa, rb0, w, x];
        let qs = vec![common.t_2, common.zv_2, vk.shift_g2, vk.g2, vk.x_g2];
        proof {
            let w_x = dot(unit_logs(*statement, *proof), unit_weights(*proof, ch, v_x));
            let x_x = secret_side(*proof, ch);
            lemma_dot8(unit_logs(*statement, *proof), unit_weights(*proof, ch, v_x));
            lemma_sub_c(0, 0, 1, 1, minus_one@);
            lemma_mul_c(proof.q_a.log(), proof.q_a.log(), minus_one@, -1, neg_qa.log());
            assert(proof.q_a.log() * (-1) == -proof.q_a.log()) by (nonlinear_arith);
            lemma_canon_range(proof.b_0.log() * rho@);
            let pl = g1_logs(ps@);
            let ql = g2_logs(qs@);
            let pl_x = seq![
                proof.a.log(),
                -proof.q_a.log(),
                proof.b_0.log() * rho@,
                w_x,
                x_x,
            ];
            assert(ql =~= seq![
                common.t_2.log(),
                common.zv_2.log(),
                vk.shift_g2.log(),
                1int,
                vk.tau(),
            ]);
            assert forall|i: int| 0 <= i < 5 implies eqm(#[trigger] pl[i], pl_x[i]) by {
                assert(pl[i] == ps@[i].log());
            }
            lemma_dot_eqm(pl, ql, pl_x, ql);
            lemma_dot5(pl_x, ql);
            lemma_combination(
                proof.m.log(),
                proof.a.log(),
                proof.q_a.log(),
                proof.b_0.log(),
                proof.q_b.log(),
                proof.p.log(),
                proof.pi_gamma.log(),
                proof.a0_proof.log(),
                statement.f.log(),
                common.t_2.log(),
                common.zv_2.log(),
                vk.shift_g2.log(),
                vk.tau(),
                beta@,
                gamma@,
                eta@,
                rho@,
                v_x,
                proof.a_0@,
            );
            assert(dot(pl_x, ql) == combined_equation(*vk, *common, *statement, *proof, ch));
            lemma_canon_small(0);
        }
        if pairing_check(&ps, &qs) {
            Ok(())
        } else {
            Err(Error::VerificationError)
        }
    }
}

} // verus!
