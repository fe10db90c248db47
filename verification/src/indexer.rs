//! The one-time preprocessing of a table: the cached quotient commitments, on
//! which every later proof draws, and what the verifier needs of the table.

use vstd::prelude::*;
use vstd::arithmetic::power::pow;
use crate::domain::lagrange;
use crate::error::Error;
use crate::field::{Scalar, values};
use crate::group::{G1Point, G2Point, all_g1_wf, g2_logs};
use crate::kzg::Kzg;
use crate::modmath::{canon, lemma_canon_range, lemma_canon_small, lemma_dot_push, lemma_eqm_add};
use crate::poly::{peval, quotient, lemma_peval_effective};
use crate::table::Table;
use crate::utils::{g1_srs_wf, g1_tau, g2_srs_wf, g2_tau, srs_match};

verus! {

/// What the verifier needs of the table: the commitments in G2 to the
/// vanishing polynomial `X^N - 1` of the table's domain and to the table's
/// polynomial.
#[derive(Clone, Copy, Debug)]
pub struct CommonPreprocessedInput {
    pub zv_2: G2Point,
    pub t_2: G2Point,
}

/// What the prover needs of the table, row by row: the commitment to the
/// quotient `(T - T(w^i)) / (X - w^i)` of the table's polynomial, the
/// commitment to the Lagrange polynomial `L_i`, and the commitment to
/// `(L_i - L_i(0)) / X`; with the verifier's part.
pub struct Index {
    pub q: Vec<G1Point>,
    pub lagrange: Vec<G1Point>,
    pub lagrange_opening: Vec<G1Point>,
    pub common: CommonPreprocessedInput,
}

/// The canonical coefficients of the `i`-th Lagrange polynomial of the
/// table's domain.
pub open spec fn lagrange_coeffs(table: &Table, i: int) -> Seq<int> {
    Seq::new(
        table.size as nat,
        |k: int|
            canon(lagrange(table.size as int, table.domain.omega(), table.domain.size_inv(), i)[k]),
    )
}

/// The `i`-th point of the table's domain.
pub open spec fn row_point(table: &Table, i: int) -> int {
    canon(pow(table.domain.omega(), i as nat))
}

impl CommonPreprocessedInput {
    /// The commitments are those of `table` under the secret `tau`.
    pub open spec fn wf_for(&self, table: &Table, tau: int) -> bool {
        &&& self.zv_2.wf()
        &&& self.t_2.wf()
        &&& self.zv_2.log() == canon(pow(tau, table.size as nat) - 1)
        &&& self.t_2.log() == canon(peval(table.coeffs(), tau))
    }
}

impl Index {
    /// The commitments are those of `table` under the secret `tau`.
    pub open spec fn wf_for(&self, table: &Table, tau: int) -> bool {
        &&& self.q.len() == table.size
        &&& self.lagrange.len() == table.size
        &&& self.lagrange_opening.len() == table.size
        &&& all_g1_wf(self.q@)
        &&& all_g1_wf(self.lagrange@)
        &&& all_g1_wf(self.lagrange_opening@)
        &&& self.common.wf_for(table, tau)
        &&& forall|i: int|
            0 <= i < table.size ==> (#[trigger] self.q[i]).log() == canon(
                peval(quotient(table.coeffs(), row_point(table, i)), tau),
            )
        &&& forall|i: int|
            0 <= i < table.size ==> (#[trigger] self.lagrange[i]).log() == canon(
                peval(lagrange_coeffs(table, i), tau),
            )
        &&& forall|i: int|
            0 <= i < table.size ==> (#[trigger] self.lagrange_opening[i]).log() == canon(
                peval(quotient(lagrange_coeffs(table, i), 0), tau),
            )
    }

    /// The verifier's part of the preprocessing. The reference string must
    /// reach the power `N`, the size of the table.
    pub fn compute_common(srs_g2: &Vec<G2Point>, table: &Table) -> (r: Result<
        CommonPreprocessedInput,
        Error,
    >)
        requires
            g2_srs_wf(srs_g2@),
            table.wf(),
        ensures
            r.is_ok() == (srs_g2.len() > table.size),
            r matches Ok(c) ==> c.wf_for(table, g2_tau(srs_g2@)),
            r matches Err(e) ==> e == Error::DegreeError,
    {
        let n = table.size;
        if srs_g2.len() <= n {
            return Err(Error::DegreeError);
        }
        let ghost tau = g2_tau(srs_g2@);
        proof {
            lemma_peval_effective(table.coeffs(), tau);
        }
        let t_2 = match Kzg::commit_g2(srs_g2, &table.poly) {
            Ok(c) => c,
            Err(e) => {
                return Err(e);
            },
        };
        let zero = Scalar::zero();
        let one = Scalar::one();
        let minus_one = zero.sub(&one);
        let bases = vec![srs_g2[n], srs_g2[0]];
        let scalars = vec![one, minus_one];
        let zv_2 = G2Point::msm(&bases, &scalars);
        proof {
            let top = srs_g2[n as int].log();
            let unit = srs_g2[0].log();
            let e0 = Seq::<int>::empty();
            assert(bases@.take(2) =~= bases@);
            assert(g2_logs(bases@) =~= e0.push(top).push(unit));
            assert(values(scalars@) =~= e0.push(1).push(minus_one@));
            lemma_dot_push(e0, e0, top, 1);
            lemma_dot_push(e0.push(top), e0.push(1), unit, minus_one@);
            vstd::arithmetic::power::lemma_pow0(tau);
            lemma_canon_small(1);
            lemma_canon_range(pow(tau, n as nat));
            lemma_canon_range(0 - 1);
            assert(unit == 1);
            assert(top * 1 + 1 * minus_one@ == top + minus_one@) by (nonlinear_arith);
            lemma_eqm_add(top, pow(tau, n as nat), minus_one@, -1);
        }
        Ok(CommonPreprocessedInput { zv_2, t_2 })
    }

    /// The preprocessing of `table`: one opening of its polynomial per row,
    /// and the commitments to the Lagrange polynomials. The reference strings
    /// must reach the powers `N - 1` in G1 and `N` in G2.
    pub fn gen(srs_g1: &Vec<G1Point>, srs_g2: &Vec<G2Point>, table: &Table) -> (r: Result<
        Index,
        Error,
    >)
        requires
            srs_match(srs_g1@, srs_g2@),
            table.wf(),
        ensures
            r.is_ok() == (srs_g1.len() >= table.size && srs_g2.len() > table.size),
            r matches Ok(index) ==> index.wf_for(table, g1_tau(srs_g1@)),
            r matches Err(e) ==> e == Error::DegreeError,
    {
        let n = table.size;
        if srs_g1.len() < n {
            return Err(Error::DegreeError);
        }
        let common = match Index::compute_common(srs_g2, table) {
            Ok(c) => c,
            Err(e) => {
                return Err(e);
            },
        };
        let ghost tau = g1_tau(srs_g1@);
        let zero = Scalar::zero();
        let mut q: Vec<G1Point> = Vec::new();
        let mut lagrange: Vec<G1Point> = Vec::new();
        let mut lagrange_opening: Vec<G1Point> = Vec::new();
        let mut i: usize = 0;
        while i < n
            invariant
                i <= n,
                n == table.size,
                n <= srs_g1.len(),
                g1_srs_wf(srs_g1@),
                table.wf(),
                tau == g1_tau(srs_g1@),
                zero.wf(),
                zero@ == 0,
                q.len() == i,
                lagrange.len() == i,
                lagrange_opening.len() == i,
                all_g1_wf(q@),
                all_g1_wf(lagrange@),
                all_g1_wf(lagrange_opening@),
                forall|j: int|
                    0 <= j < i ==> (#[trigger] q[j]).log() == canon(
                        peval(quotient(table.coeffs(), row_point(table, j)), tau),
                    ),
                forall|j: int|
                    0 <= j < i ==> (#[trigger] lagrange[j]).log() == canon(
                        peval(lagrange_coeffs(table, j), tau),
                    ),
                forall|j: int|
                    0 <= j < i ==> (#[trigger] lagrange_opening[j]).log() == canon(
                        peval(quotient(lagrange_coeffs(table, j), 0), tau),
                    ),
            decreases n - i,
        {
            let point = table.domain.element(i);
            proof {
                lemma_peval_effective(table.coeffs(), tau);
            }
            let row = match Kzg::open_g1(srs_g1, &table.poly, &point) {
                Ok(o) => o.1,
                Err(e) => {
                    return Err(e);
                },
            };
            let basis = table.domain.lagrange_poly(i);
            proof {
                assert(values(basis@) =~= lagrange_coeffs(table, i as int));
                lemma_peval_effective(values(basis@), tau);
            }
            let l = match Kzg::commit_g1(srs_g1, &basis) {
                Ok(c) => c,
                Err(e) => {
                    return Err(e);
                },
            };
            let lo = match Kzg::open_g1(srs_g1, &basis, &zero) {
                Ok(o) => o.1,
                Err(e) => {
                    return Err(e);
                },
            };
            q.push(row);
            lagrange.push(l);
            lagrange_opening.push(lo);
            i += 1;
        }
        Ok(Index { q, lagrange, lagrange_opening, common })
    }
}

} // verus!
