//! Completeness of the lookup argument: the verifier accepts every proof
//! that the prover makes.

use vstd::prelude::*;
use vstd::arithmetic::power::{pow, lemma1_pow, lemma_pow0};
use crate::data_structures::{Proof, ProvingKey, Statement, Witness};
use crate::domain::{interpolation, inverse_index, lagrange};
use crate::field::values;
use crate::indexer::{CommonPreprocessedInput, Index, lagrange_coeffs, row_point};
use crate::modmath::{
    canon, dot, eqm, finv, invertible, lemma_canon_range, lemma_eqm_add, lemma_eqm_mul,
    lemma_eqm_sub,
};
use crate::poly::{
    peval, quotient, lemma_peval_eqm, lemma_peval_front, lemma_quotient_identity,
};
use crate::modmath::{lemma_finv, lemma_dot_comm, lemma_dot_eqm};
use crate::poly::{shifted, lemma_peval_shifted};
use crate::prover::{
    all_padded_in_table, b_coeffs, degree_shift, first_row, gather, no_collision, ones,
    quotient_weights, shifted_inverses, honest_a, honest_a0, honest_a0_proof, honest_b0, honest_m,
    honest_p, honest_qa, witness_point, witness_rows, lemma_first_row_holds,
};
use crate::kzg::{batched, lemma_opening_round_trip};
use crate::modmath::{lemma_dot_push, lemma_finv_unique, lemma_pow_succ};
use crate::poly::{coeff, column, combination, max_len, lemma_dot_powers, lemma_exchange, lemma_max_len_bound};
use crate::protocol::{Challenges, challenges};
use crate::prover::{honest, lemma_padding_in_table, opened_polys, provable, honest_beta, honest_gamma, honest_qb, honest_u};
use crate::roots::lemma_inverse_index;
use crate::verify::{
    VerifierKey, accepts, b_at_gamma, b_at_zero, batched_value, degree_equation,
    opening_equation, qb_at_gamma, table_equation, zero_equation,
};
use crate::prover::{qb_coeffs, witness_quotient_column, witness_weights};
use crate::roots::{
    domain_facts, lagrange_values, lemma_interpolation_exact, lemma_interpolation_linear,
    lemma_lagrange_sum, lemma_lagrange_vanishing,
};
use crate::table::Table;

verus! {

/// One entry's share of the lookup identity vanishes. With `l` the value of
/// the entry's Lagrange polynomial and `q` that of its cached quotient at
/// `x`, `w` the entry's domain point, `z = x^n - 1`, `t` the value of the
/// interpolating polynomial and `f` the entry: if `u` inverts `f + beta` and
/// `c` is `u w / n`, then `l u (t + beta) - q c z - l` is zero.
pub proof fn lemma_lookup_term(
    l: int,
    q: int,
    u: int,
    f: int,
    beta: int,
    t: int,
    x: int,
    w: int,
    ninv: int,
    z: int,
    c: int,
)
    requires
        eqm(l * (x - w), ninv * w * z),
        eqm(q * (x - w), t - f),
        eqm(u * (f + beta), 1),
        eqm(c, u * w * ninv),
    ensures
        eqm(l * u * (t + beta) - q * c * z - l, 0),
{
    lemma_eqm_mul(q, q, c, u * w * ninv);
    lemma_eqm_mul(q * c, q * (u * w * ninv), z, z);
    assert((q * (u * w * ninv)) * z == (q * u) * (ninv * w * z)) by (nonlinear_arith);
    lemma_eqm_mul(q * u, q * u, ninv * w * z, l * (x - w));
    assert((q * u) * (l * (x - w)) == (u * l) * (q * (x - w))) by (nonlinear_arith);
    lemma_eqm_mul(u * l, u * l, q * (x - w), t - f);
    lemma_eqm_mul(l, l, 1, u * (f + beta));
    assert(l * 1 == l);
    let a = l * u * (t + beta);
    lemma_eqm_sub(a, a, q * c * z, (u * l) * (t - f));
    lemma_eqm_sub(a - q * c * z, a - (u * l) * (t - f), l, l * (u * (f + beta)));
    assert(l * u * (t + beta) - (u * l) * (t - f) - l * (u * (f + beta)) == 0)
        by (nonlinear_arith);
}

/// Shares that vanish entry by entry vanish in sum.
pub proof fn lemma_sum_terms(x: Seq<int>, u: Seq<int>, q: Seq<int>, c: Seq<int>, a: int, b: int)
    requires
        x.len() == u.len(),
        x.len() == q.len(),
        x.len() == c.len(),
        forall|j: int|
            #![trigger x[j]]
            0 <= j < x.len() ==> eqm(x[j] * u[j] * a - q[j] * c[j] * b - x[j], 0),
    ensures
        eqm(dot(x, u) * a - dot(q, c) * b - dot(x, ones(x.len())), 0),
    decreases x.len(),
{
    if x.len() > 0 {
        let n = x.len();
        let x1 = x.drop_last();
        let u1 = u.drop_last();
        let q1 = q.drop_last();
        let c1 = c.drop_last();
        assert forall|j: int| #![trigger x1[j]] 0 <= j < x1.len() implies eqm(
            x1[j] * u1[j] * a - q1[j] * c1[j] * b - x1[j],
            0,
        ) by {
            assert(x1[j] == x[j]);
        }
        lemma_sum_terms(x1, u1, q1, c1, a, b);
        assert(ones(n).drop_last() =~= ones((n - 1) as nat));
        let d1 = dot(x1, u1);
        let d2 = dot(q1, c1);
        let d3 = dot(x1, ones(x1.len()));
        let xl = x.last();
        let ul = u.last();
        let ql = q.last();
        let cl = c.last();
        assert(eqm(x[n - 1] * u[n - 1] * a - q[n - 1] * c[n - 1] * b - x[n - 1], 0));
        assert((d1 + xl * ul) * a - (d2 + ql * cl) * b - (d3 + xl * 1) == (d1 * a - d2 * b - d3)
            + (xl * ul * a - ql * cl * b - xl)) by (nonlinear_arith);
        lemma_eqm_add(d1 * a - d2 * b - d3, 0, xl * ul * a - ql * cl * b - xl, 0);
    } else {
        assert(0 * a - 0 * b - 0 == 0);
    }
}

/// The value at one is the sum of the coefficients.
pub proof fn lemma_peval_at_one(u: Seq<int>)
    requires
        u.len() > 0,
    ensures
        peval(u, 1) == peval(u.drop_last(), 1) + u.last(),
{
    lemma1_pow((u.len() - 1) as nat);
    assert(u.last() * 1 == u.last());
}

/// Openings at zero that hold entry by entry hold for the weighted sum.
pub proof fn lemma_sum_zero_openings(l: Seq<int>, lo: Seq<int>, u: Seq<int>, ninv: int, tau: int)
    requires
        l.len() == lo.len(),
        l.len() == u.len(),
        forall|j: int| #![trigger l[j]] 0 <= j < l.len() ==> eqm(l[j] - ninv - lo[j] * tau, 0),
    ensures
        eqm(dot(l, u) - ninv * peval(u, 1) - dot(lo, u) * tau, 0),
    decreases l.len(),
{
    if l.len() > 0 {
        let n = l.len();
        let l1 = l.drop_last();
        let lo1 = lo.drop_last();
        let u1 = u.drop_last();
        assert forall|j: int| #![trigger l1[j]] 0 <= j < l1.len() implies eqm(
            l1[j] - ninv - lo1[j] * tau,
            0,
        ) by {
            assert(l1[j] == l[j]);
        }
        lemma_sum_zero_openings(l1, lo1, u1, ninv, tau);
        lemma_peval_at_one(u);
        let d1 = dot(l1, u1);
        let d2 = dot(lo1, u1);
        let p = peval(u1, 1);
        let ll = l.last();
        let lol = lo.last();
        let ul = u.last();
        assert(eqm(l[n - 1] - ninv - lo[n - 1] * tau, 0));
        lemma_eqm_mul(ul, ul, ll - ninv - lol * tau, 0);
        assert(ul * 0 == 0);
        assert((d1 + ll * ul) - ninv * (p + ul) - (d2 + lol * ul) * tau == (d1 - ninv * p - d2
            * tau) + ul * (ll - ninv - lol * tau)) by (nonlinear_arith);
        lemma_eqm_add(d1 - ninv * p - d2 * tau, 0, ul * (ll - ninv - lol * tau), 0);
    } else {
        assert(0 - ninv * 0 - 0 * tau == 0);
    }
}

/// What the preprocessing gives for one table row, in the exponent: the
/// Lagrange commitment times `tau - w^r` is `(w^r / N) (tau^N - 1)`, the
/// cached quotient times `tau - w^r` is `T(tau)` minus the row's value, and
/// the Lagrange commitment minus `1 / N` is `tau` times the commitment to
/// `(L_r - L_r(0)) / X`.
pub proof fn lemma_table_row(table: &Table, index: &Index, tau: int, r: int)
    requires
        table.wf(),
        index.wf_for(table, tau),
        0 <= r < table.size,
    ensures
        eqm(
            index.lagrange[r].log() * (tau - row_point(table, r)),
            table.domain.size_inv() * row_point(table, r) * (pow(tau, table.size as nat) - 1),
        ),
        eqm(
            index.q[r].log() * (tau - row_point(table, r)),
            peval(table.coeffs(), tau) - table.values[r]@,
        ),
        eqm(
            index.lagrange[r].log() - table.domain.size_inv() - index.lagrange_opening[r].log()
                * tau,
            0,
        ),
{
    let n = table.size as int;
    let w = table.domain.omega();
    let ninv = table.domain.size_inv();
    let wr = pow(w, r as nat);
    let wc = row_point(table, r);
    let z = pow(tau, n as nat) - 1;
    let lc = lagrange_coeffs(table, r);
    let lx = lagrange(n, w, ninv, r);
    let l = index.lagrange[r].log();
    lemma_canon_range(wr);
    assert(domain_facts(w, n, ninv, table.domain.unit_inv()));
    // the Lagrange commitment
    lemma_lagrange_vanishing(w, n, ninv, r, tau);
    assert forall|k: int| 0 <= k < lc.len() implies eqm(#[trigger] lc[k], lx[k]) by {
        lemma_canon_range(lx[k]);
    }
    lemma_peval_eqm(lc, lx, tau, tau);
    lemma_canon_range(peval(lc, tau));
    lemma_eqm_sub(tau, tau, wc, wr);
    lemma_eqm_mul(l, peval(lx, tau), tau - wc, tau - wr);
    lemma_eqm_mul(ninv, ninv, wc, wr);
    lemma_eqm_mul(ninv * wc, ninv * wr, z, z);
    // the cached quotient
    let t = table.coeffs();
    let tv = values(table.values@);
    let interp = interpolation(tv, w, ninv);
    let qx = peval(quotient(t, wc), tau);
    lemma_quotient_identity(t, quotient(t, wc), wc, tau);
    assert forall|k: int| 0 <= k < t.len() implies eqm(#[trigger] t[k], interp[k]) by {
        assert(t[k] == table.poly[k]@);
        lemma_canon_range(interp[k]);
    }
    lemma_peval_eqm(t, interp, wc, wr);
    lemma_interpolation_exact(tv, w, ninv, table.domain.unit_inv(), r);
    lemma_canon_range(qx);
    lemma_eqm_mul(index.q[r].log(), qx, tau - wc, tau - wc);
    assert((tau - wc) * qx == qx * (tau - wc)) by (nonlinear_arith);
    lemma_eqm_sub(peval(t, tau), peval(t, tau), peval(t, wc), tv[r]);
    // the opening at zero
    let lo = peval(quotient(lc, 0), tau);
    lemma_quotient_identity(lc, quotient(lc, 0), 0, tau);
    lemma_peval_front(lc, 0);
    assert(0 * peval(lc.skip(1), 0) == 0);
    lemma_pow0(pow(w, inverse_index(n, r) as nat));
    assert(lx[0] == ninv * 1);
    lemma_canon_range(lo);
    lemma_eqm_mul(index.lagrange_opening[r].log(), lo, tau, tau);
    assert((tau - 0) * lo == lo * tau) by (nonlinear_arith);
    lemma_canon_range(lx[0]);
    assert(ninv * 1 == ninv);
    assert(peval(lc, 0) == lc[0]);
    lemma_eqm_sub(l, peval(lc, tau), ninv, lc[0]);
    lemma_eqm_sub(l - ninv, peval(lc, tau) - lc[0], index.lagrange_opening[r].log() * tau, lo * tau);
    lemma_eqm_sub(peval(lc, tau) - lc[0], lo * tau, lo * tau, lo * tau);
}

/// The same for one witness entry, at any `x`: the witness domain's Lagrange
/// polynomial times `x - h_j` is `(h_j / M) (x^M - 1)`, and the quotient of
/// the witness polynomial by `X - h_j` times `x - h_j` is `f(x)` minus the
/// entry.
pub proof fn lemma_witness_row(witness: &Witness, x: int, j: int)
    requires
        witness.wf(),
        0 <= j < witness.domain_size,
    ensures
        eqm(
            peval(
                lagrange(witness.domain_size as int, witness.domain.omega(), witness.domain.size_inv(), j),
                x,
            ) * (x - witness_point(witness, j)),
            witness.domain.size_inv() * witness_point(witness, j) * (pow(x, witness.domain_size as nat)
                - 1),
        ),
        eqm(
            peval(quotient(witness.coeffs(), witness_point(witness, j)), x) * (x - witness_point(
                witness,
                j,
            )),
            peval(witness.coeffs(), x) - witness.padded[j]@,
        ),
{
    let n = witness.domain_size as int;
    let w = witness.domain.omega();
    let ninv = witness.domain.size_inv();
    let wj = pow(w, j as nat);
    let wc = witness_point(witness, j);
    let z = pow(x, n as nat) - 1;
    let lx = lagrange(n, w, ninv, j);
    lemma_canon_range(wj);
    assert(domain_facts(w, n, ninv, witness.domain.unit_inv()));
    lemma_lagrange_vanishing(w, n, ninv, j, x);
    lemma_eqm_sub(x, x, wc, wj);
    lemma_eqm_mul(peval(lx, x), peval(lx, x), x - wc, x - wj);
    lemma_eqm_mul(ninv, ninv, wc, wj);
    lemma_eqm_mul(ninv * wc, ninv * wj, z, z);
    let f = witness.coeffs();
    let fv = values(witness.padded@);
    let interp = interpolation(fv, w, ninv);
    let qx = peval(quotient(f, wc), x);
    lemma_quotient_identity(f, quotient(f, wc), wc, x);
    assert forall|k: int| 0 <= k < f.len() implies eqm(#[trigger] f[k], interp[k]) by {
        assert(f[k] == witness.f[k]@);
        lemma_canon_range(interp[k]);
    }
    lemma_peval_eqm(f, interp, wc, wj);
    lemma_interpolation_exact(fv, w, ninv, witness.domain.unit_inv(), j);
    assert((x - wc) * qx == qx * (x - wc)) by (nonlinear_arith);
    lemma_eqm_sub(peval(f, x), peval(f, x), peval(f, wc), fv[j]);
}

/// The table-side identity and the opening of `A` at zero hold for the
/// honest prover's commitments: with `a`, `q_a`, `m` the commitments to `A`,
/// to the aggregate quotient and to the multiplicity polynomial,
/// `a (T(tau) + beta) - q_a (tau^N - 1) - m` vanishes, and so does
/// `a - A(0) - tau pi_0`.
pub proof fn lemma_table_side(table: &Table, index: &Index, witness: &Witness, tau: int, beta: int)
    requires
        table.wf(),
        index.wf_for(table, tau),
        all_padded_in_table(table, witness),
        no_collision(values(witness.padded@), beta),
    ensures
        ({
            let rows = witness_rows(table, witness);
            let u = shifted_inverses(values(witness.padded@), beta);
            let a = honest_a(index, rows, u);
            &&& eqm(
                a * canon(peval(table.coeffs(), tau)) - honest_qa(index, table, rows, u) * canon(
                    pow(tau, table.size as nat) - 1,
                ) - honest_m(index, rows) + beta * a,
                0,
            )
            &&& eqm((a - honest_a0(table, u)) - honest_a0_proof(index, rows, u) * tau, 0)
        }),
{
    let fv = values(witness.padded@);
    let tv = values(table.values@);
    let rows = witness_rows(table, witness);
    let u = shifted_inverses(fv, beta);
    let x = gather(index.lagrange@, rows);
    let qs = gather(index.q@, rows);
    let los = gather(index.lagrange_opening@, rows);
    let c = quotient_weights(table, rows, u);
    let ninv = table.domain.size_inv();
    let t = peval(table.coeffs(), tau);
    let z = pow(tau, table.size as nat) - 1;
    assert forall|j: int| #![trigger x[j]] 0 <= j < x.len() implies eqm(
        x[j] * u[j] * (t + beta) - qs[j] * c[j] * z - x[j],
        0,
    ) && eqm(x[j] - ninv - los[j] * tau, 0) by {
        let r = rows[j];
        assert(first_row(tv, witness.padded[j]@) >= 0);
        lemma_first_row_holds(tv, witness.padded[j]@);
        assert(table.values[r]@ == fv[j]);
        lemma_table_row(table, index, tau, r);
        assert(invertible(fv[j] + beta));
        lemma_finv(fv[j] + beta);
        assert(u[j] * (fv[j] + beta) == (fv[j] + beta) * u[j]) by (nonlinear_arith);
        lemma_canon_range(u[j] * row_point(table, r) * ninv);
        lemma_lookup_term(
            x[j],
            qs[j],
            u[j],
            fv[j],
            beta,
            t,
            tau,
            row_point(table, r),
            ninv,
            z,
            c[j],
        );
    }
    lemma_sum_terms(x, u, qs, c, t + beta, z);
    lemma_sum_zero_openings(x, los, u, ninv, tau);
    let a = honest_a(index, rows, u);
    let qa = honest_qa(index, table, rows, u);
    let m = honest_m(index, rows);
    let a0 = honest_a0(table, u);
    let ap = honest_a0_proof(index, rows, u);
    let da = dot(x, u);
    let dq = dot(qs, c);
    let dm = dot(x, ones(x.len()));
    let dl = dot(los, u);
    lemma_canon_range(da);
    lemma_canon_range(dq);
    lemma_canon_range(dm);
    lemma_canon_range(dl);
    lemma_canon_range(t);
    lemma_canon_range(z);
    lemma_canon_range(ninv * peval(u, 1));
    // the first identity
    lemma_eqm_mul(a, da, canon(t), t);
    lemma_eqm_mul(qa, dq, canon(z), z);
    lemma_eqm_mul(beta, beta, a, da);
    lemma_eqm_sub(a * canon(t), da * t, qa * canon(z), dq * z);
    lemma_eqm_sub(a * canon(t) - qa * canon(z), da * t - dq * z, m, dm);
    lemma_eqm_add(a * canon(t) - qa * canon(z) - m, da * t - dq * z - dm, beta * a, beta * da);
    assert(da * t - dq * z - dm + beta * da == da * (t + beta) - dq * z - dm) by (nonlinear_arith);
    // the second identity
    lemma_eqm_sub(a, da, a0, ninv * peval(u, 1));
    lemma_eqm_mul(ap, dl, tau, tau);
    lemma_eqm_sub(a - a0, da - ninv * peval(u, 1), ap * tau, dl * tau);
}

/// The degree bound holds for the honest prover's commitments: the
/// commitment to `X^s (B - B(0)) / X` is `tau^s` times the commitment to
/// `(B - B(0)) / X`.
pub proof fn lemma_degree_bound(table: &Table, witness: &Witness, tau: int, u: Seq<int>)
    ensures
        eqm(
            honest_b0(tau, witness, u) * canon(pow(tau, degree_shift(table, witness))) - honest_p(
                tau,
                table,
                witness,
                u,
            ),
            0,
        ),
{
    let b0 = b_coeffs(witness, u).skip(1);
    let s = degree_shift(table, witness);
    lemma_peval_shifted(b0, s, tau);
    lemma_canon_range(peval(b0, tau));
    lemma_canon_range(pow(tau, s));
    lemma_canon_range(peval(shifted(b0, s), tau));
    lemma_eqm_mul(honest_b0(tau, witness, u), peval(b0, tau), canon(pow(tau, s)), pow(tau, s));
    assert(peval(b0, tau) * pow(tau, s) == pow(tau, s) * peval(b0, tau)) by (nonlinear_arith);
    lemma_eqm_sub(
        honest_b0(tau, witness, u) * canon(pow(tau, s)),
        peval(shifted(b0, s), tau),
        honest_p(tau, table, witness, u),
        peval(shifted(b0, s), tau),
    );
}

/// The values at `x` of the quotients `(f - f(h_j)) / (X - h_j)` of the
/// witness polynomial.
pub open spec fn witness_quotient_values(witness: &Witness, x: int) -> Seq<int> {
    Seq::new(
        witness.domain_size as nat,
        |j: int| peval(quotient(witness.coeffs(), witness_point(witness, j)), x),
    )
}

/// The witness-side quotient is the combination of the quotients
/// `(f - f(h_j)) / (X - h_j)`, at every `x`.
pub proof fn lemma_witness_quotient_value(witness: &Witness, u: Seq<int>, x: int)
    requires
        witness.wf(),
        u.len() == witness.domain_size,
    ensures
        eqm(
            peval(qb_coeffs(witness, u), x),
            dot(witness_weights(witness, u), witness_quotient_values(witness, x)),
        ),
{
    let m = witness.domain_size as int;
    let f = witness.coeffs();
    let wts = witness_weights(witness, u);
    let polys = Seq::new(m as nat, |j: int| quotient(f, witness_point(witness, j)));
    let n = (m - 1) as nat;
    let mixed = Seq::new(n, |k: int| dot(wts, column(polys, k)));
    let qb = qb_coeffs(witness, u);
    lemma_exchange(wts, polys, n, x);
    assert(Seq::new(polys.len(), |j: int| peval(polys[j], x)) =~= witness_quotient_values(
        witness,
        x,
    ));
    assert forall|k: int| 0 <= k < qb.len() implies eqm(#[trigger] qb[k], mixed[k]) by {
        let col = witness_quotient_column(witness, k);
        let exact = column(polys, k);
        assert forall|j: int| 0 <= j < col.len() implies eqm(#[trigger] col[j], exact[j]) by {
            lemma_canon_range(peval(f.skip(k + 1), witness_point(witness, j)));
            assert(exact[j] == coeff(polys[j], k));
        }
        lemma_dot_eqm(wts, col, wts, exact);
        lemma_canon_range(dot(wts, col));
    }
    lemma_peval_eqm(qb, mixed, x, x);
}

/// The witness-side identity holds for the honest prover's polynomials, at
/// every `x`: `B(x) (f(x) + beta) - Q_B(x) (x^M - 1) - 1` vanishes.
pub proof fn lemma_witness_side(witness: &Witness, beta: int, x: int)
    requires
        witness.wf(),
        no_collision(values(witness.padded@), beta),
    ensures
        ({
            let u = shifted_inverses(values(witness.padded@), beta);
            eqm(
                peval(b_coeffs(witness, u), x) * (peval(witness.coeffs(), x) + beta) - peval(
                    qb_coeffs(witness, u),
                    x,
                ) * (pow(x, witness.domain_size as nat) - 1) - 1,
                0,
            )
        }),
{
    let m = witness.domain_size as int;
    let w = witness.domain.omega();
    let minv = witness.domain.size_inv();
    let fv = values(witness.padded@);
    let u = shifted_inverses(fv, beta);
    let f = witness.coeffs();
    let lm = lagrange_values(m, w, minv, x);
    let fq = witness_quotient_values(witness, x);
    let wts = witness_weights(witness, u);
    let t = peval(f, x);
    let z = pow(x, m as nat) - 1;
    assert(domain_facts(w, m, minv, witness.domain.unit_inv()));
    assert forall|j: int| #![trigger lm[j]] 0 <= j < lm.len() implies eqm(
        lm[j] * u[j] * (t + beta) - fq[j] * wts[j] * z - lm[j],
        0,
    ) by {
        lemma_witness_row(witness, x, j);
        assert(invertible(fv[j] + beta));
        lemma_finv(fv[j] + beta);
        assert(u[j] * (fv[j] + beta) == (fv[j] + beta) * u[j]) by (nonlinear_arith);
        lemma_canon_range(u[j] * witness_point(witness, j) * minv);
        lemma_lookup_term(
            lm[j],
            fq[j],
            u[j],
            fv[j],
            beta,
            t,
            x,
            witness_point(witness, j),
            minv,
            z,
            wts[j],
        );
    }
    lemma_sum_terms(lm, u, fq, wts, t + beta, z);
    // the three sums are the values of B, of Q_B and one
    let b = b_coeffs(witness, u);
    let interp = interpolation(u, w, minv);
    lemma_interpolation_linear(u, w, minv, x);
    lemma_dot_comm(u, lm);
    assert forall|k: int| 0 <= k < b.len() implies eqm(#[trigger] b[k], interp[k]) by {
        lemma_canon_range(interp[k]);
    }
    lemma_peval_eqm(b, interp, x, x);
    lemma_lagrange_sum(w, m, minv, witness.domain.unit_inv(), x);
    lemma_dot_comm(ones(m as nat), lm);
    lemma_witness_quotient_value(witness, u, x);
    lemma_dot_comm(wts, fq);
    let qb = peval(qb_coeffs(witness, u), x);
    lemma_eqm_mul(peval(b, x), dot(lm, u), t + beta, t + beta);
    lemma_eqm_mul(qb, dot(fq, wts), z, z);
    lemma_eqm_sub(peval(b, x) * (t + beta), dot(lm, u) * (t + beta), qb * z, dot(fq, wts) * z);
    lemma_eqm_sub(
        peval(b, x) * (t + beta) - qb * z,
        dot(lm, u) * (t + beta) - dot(fq, wts) * z,
        1,
        dot(lm, ones(lm.len())),
    );
}

/// The value of the combination of three polynomials with the powers of
/// `eta` is the combination of their values.
pub proof fn lemma_batched_three(polys: Seq<Seq<int>>, eta: int, x: int)
    requires
        polys.len() == 3,
    ensures
        eqm(
            peval(batched(polys, eta), x),
            peval(polys[0], x) + eta * peval(polys[1], x) + eta * eta * peval(polys[2], x),
        ),
{
    let a = seq![1int, eta, eta * eta];
    let n = max_len(polys);
    let mixed = Seq::new(n, |k: int| dot(a, column(polys, k)));
    let vals = Seq::new(polys.len(), |j: int| peval(polys[j], x));
    let h = batched(polys, eta);
    assert forall|j: int| 0 <= j < polys.len() implies (#[trigger] polys[j]).len() <= n by {
        lemma_max_len_bound(polys, j);
    }
    lemma_exchange(a, polys, n, x);
    let e = Seq::<int>::empty();
    assert(a =~= e.push(1).push(eta).push(eta * eta));
    assert(vals =~= e.push(vals[0]).push(vals[1]).push(vals[2]));
    lemma_dot_push(e, e, 1, vals[0]);
    lemma_dot_push(e.push(1), e.push(vals[0]), eta, vals[1]);
    lemma_dot_push(e.push(1).push(eta), e.push(vals[0]).push(vals[1]), eta * eta, vals[2]);
    assert(1 * vals[0] == vals[0]);
    lemma_pow0(eta);
    lemma_pow_succ(eta, 0);
    lemma_pow_succ(eta, 1);
    assert(eta * 1 == eta);
    assert forall|k: int| 0 <= k < h.len() implies eqm(#[trigger] h[k], mixed[k]) by {
        let col = column(polys, k);
        assert forall|i: int| 0 <= i < a.len() implies eqm(#[trigger] a[i], pow(eta, i as nat)) by {}
        lemma_dot_powers(a, col, eta);
        lemma_canon_range(combination(polys, eta)[k]);
    }
    lemma_peval_eqm(h, mixed, x, x);
}

/// What the verifier computes for the value of the witness-side quotient at
/// `gamma` is that value, for the honest prover's evaluations.
pub proof fn lemma_verifier_quotient(
    vk: VerifierKey,
    table: &Table,
    witness: &Witness,
    proof: Proof,
    beta: int,
    gamma: int,
)
    requires
        table.wf(),
        witness.wf(),
        vk.table_size == table.size,
        vk.domain_size == witness.domain_size,
        no_collision(values(witness.padded@), beta),
        invertible(pow(gamma, witness.domain_size as nat) - 1),
        proof.a_0@ == honest_a0(table, shifted_inverses(values(witness.padded@), beta)),
        proof.b0_gamma@ == canon(
            peval(
                b_coeffs(witness, shifted_inverses(values(witness.padded@), beta)).skip(1),
                gamma,
            ),
        ),
        proof.f_gamma@ == canon(peval(witness.coeffs(), gamma)),
    ensures
        eqm(
            qb_at_gamma(vk, proof, beta, gamma),
            peval(qb_coeffs(witness, shifted_inverses(values(witness.padded@), beta)), gamma),
        ),
{
    let n = table.size as int;
    let m = witness.domain_size as int;
    let ninv = table.domain.size_inv();
    let minv = witness.domain.size_inv();
    let w = witness.domain.omega();
    let u = shifted_inverses(values(witness.padded@), beta);
    let p = peval(u, 1);
    let b = b_coeffs(witness, u);
    let f = witness.coeffs();
    let qb = peval(qb_coeffs(witness, u), gamma);
    let zh = pow(gamma, m as nat) - 1;
    // the inverse of M
    assert(m * minv == minv * m) by (nonlinear_arith);
    lemma_finv_unique(m, minv);
    // B(0)
    let bz = b_at_zero(vk, proof);
    lemma_canon_range(ninv * p);
    lemma_eqm_mul(n, n, proof.a_0@, ninv * p);
    lemma_eqm_mul(n * proof.a_0@, n * (ninv * p), minv, minv);
    assert((n * (ninv * p)) * minv == (ninv * n) * (p * minv)) by (nonlinear_arith);
    lemma_eqm_mul(ninv * n, 1, p * minv, p * minv);
    assert(1 * (p * minv) == minv * p) by (nonlinear_arith);
    lemma_inverse_index(m, 0);
    lemma_pow0(w);
    let interp = interpolation(u, w, minv);
    assert(interp[0] == minv * p);
    lemma_canon_range(interp[0]);
    assert(eqm(bz, b[0]));
    // B(gamma)
    lemma_peval_front(b, gamma);
    let b0g = peval(b.skip(1), gamma);
    lemma_canon_range(b0g);
    lemma_eqm_mul(proof.b0_gamma@, b0g, gamma, gamma);
    lemma_eqm_add(proof.b0_gamma@ * gamma, b0g * gamma, bz, b[0]);
    assert(b0g * gamma + b[0] == b[0] + gamma * b0g) by (nonlinear_arith);
    let bg = b_at_gamma(vk, proof, gamma);
    assert(eqm(bg, peval(b, gamma)));
    // the numerator
    lemma_witness_side(witness, beta, gamma);
    let fg = peval(f, gamma);
    lemma_canon_range(fg);
    lemma_eqm_add(proof.f_gamma@, fg, beta, beta);
    lemma_eqm_mul(bg, peval(b, gamma), proof.f_gamma@ + beta, fg + beta);
    lemma_eqm_sub(bg * (proof.f_gamma@ + beta), peval(b, gamma) * (fg + beta), 1, 1);
    lemma_eqm_add(peval(b, gamma) * (fg + beta) - qb * zh - 1, 0, qb * zh, qb * zh);
    let num = bg * (proof.f_gamma@ + beta) - 1;
    assert(eqm(num, qb * zh));
    // divided by the vanishing polynomial
    lemma_finv(zh);
    lemma_eqm_mul(num, qb * zh, finv(zh), finv(zh));
    assert((qb * zh) * finv(zh) == qb * (zh * finv(zh))) by (nonlinear_arith);
    lemma_eqm_mul(qb, qb, zh * finv(zh), 1);
    assert(qb * 1 == qb);
}

/// The batched opening at `gamma` holds for the honest prover's proof.
pub proof fn lemma_opening_side(
    vk: VerifierKey,
    witness: &Witness,
    statement: Statement,
    proof: Proof,
    ch: Challenges,
    u: Seq<int>,
)
    requires
        statement.f.log() == canon(peval(witness.coeffs(), vk.tau())),
        proof.b_0.log() == honest_b0(vk.tau(), witness, u),
        proof.q_b.log() == honest_qb(vk.tau(), witness, u),
        proof.b0_gamma@ == canon(peval(b_coeffs(witness, u).skip(1), ch.gamma)),
        proof.f_gamma@ == canon(peval(witness.coeffs(), ch.gamma)),
        eqm(qb_at_gamma(vk, proof, ch.beta, ch.gamma), peval(qb_coeffs(witness, u), ch.gamma)),
        proof.pi_gamma.log() == canon(
            peval(quotient(batched(opened_polys(witness, u), ch.eta), ch.gamma), vk.tau()),
        ),
    ensures
        eqm(opening_equation(vk, statement, proof, ch), 0),
{
    let tau = vk.tau();
    let eta = ch.eta;
    let gamma = ch.gamma;
    let polys = opened_polys(witness, u);
    let h = batched(polys, eta);
    let b0 = b_coeffs(witness, u).skip(1);
    let f = witness.coeffs();
    let qb = qb_coeffs(witness, u);
    assert(polys[0] == b0 && polys[1] == f && polys[2] == qb);
    lemma_batched_three(polys, eta, tau);
    lemma_batched_three(polys, eta, gamma);
    lemma_opening_round_trip(h, gamma, tau, 0);
    lemma_canon_range(peval(h, tau));
    lemma_canon_range(peval(h, gamma));
    lemma_canon_range(peval(b0, tau));
    lemma_canon_range(peval(f, tau));
    lemma_canon_range(peval(qb, tau));
    lemma_canon_range(peval(b0, gamma));
    lemma_canon_range(peval(f, gamma));
    // the combined commitment
    let group = proof.b_0.log() + eta * statement.f.log() + eta * eta * proof.q_b.log();
    lemma_eqm_mul(eta, eta, statement.f.log(), peval(f, tau));
    lemma_eqm_mul(eta * eta, eta * eta, proof.q_b.log(), peval(qb, tau));
    lemma_eqm_add(proof.b_0.log(), peval(b0, tau), eta * statement.f.log(), eta * peval(f, tau));
    lemma_eqm_add(
        proof.b_0.log() + eta * statement.f.log(),
        peval(b0, tau) + eta * peval(f, tau),
        eta * eta * proof.q_b.log(),
        eta * eta * peval(qb, tau),
    );
    assert(eqm(group, peval(h, tau)));
    // the combined value
    let v = batched_value(vk, proof, ch);
    let qv = qb_at_gamma(vk, proof, ch.beta, ch.gamma);
    lemma_eqm_mul(eta, eta, proof.f_gamma@, peval(f, gamma));
    lemma_eqm_mul(eta * eta, eta * eta, qv, peval(qb, gamma));
    lemma_eqm_add(proof.b0_gamma@, peval(b0, gamma), eta * proof.f_gamma@, eta * peval(f, gamma));
    lemma_eqm_add(
        proof.b0_gamma@ + eta * proof.f_gamma@,
        peval(b0, gamma) + eta * peval(f, gamma),
        eta * eta * qv,
        eta * eta * peval(qb, gamma),
    );
    assert(eqm(v, peval(h, gamma)));
    // the opening
    let pi = proof.pi_gamma.log();
    lemma_eqm_sub(group, canon(peval(h, tau)), v, canon(peval(h, gamma)));
    lemma_eqm_sub(
        group - v,
        canon(peval(h, tau)) - canon(peval(h, gamma)),
        pi * (tau - gamma),
        pi * (tau - gamma),
    );
    lemma_eqm_sub(
        canon(peval(h, tau)) - canon(peval(h, gamma)),
        pi * (tau - gamma),
        pi * (tau - gamma),
        pi * (tau - gamma),
    );
}

/// The keys, the preprocessed inputs, the table, the witness and the
/// statement belong together: the keys hold the powers of one secret, and
/// index and common input are those of the table under it.
pub open spec fn consistent(
    pk: &ProvingKey,
    vk: &VerifierKey,
    index: &Index,
    common: &CommonPreprocessedInput,
    table: &Table,
    witness: &Witness,
    statement: &Statement,
) -> bool {
    &&& pk.wf()
    &&& vk.wf()
    &&& table.wf()
    &&& witness.wf()
    &&& statement.f.wf()
    &&& index.wf_for(table, pk.tau())
    &&& common.wf_for(table, pk.tau())
    &&& vk.tau() == pk.tau()
    &&& vk.table_size == table.size
    &&& vk.witness_size == witness.size
    &&& vk.domain_size == witness.domain_size
}

/// Completeness: the verifier accepts every proof that the prover makes.
/// For keys, index and common input that belong together, every input
/// from which the prover makes a proof, and the proof that it makes, the
/// verifier's acceptance condition holds.
pub proof fn lemma_completeness(
    pk: &ProvingKey,
    vk: &VerifierKey,
    index: &Index,
    common: &CommonPreprocessedInput,
    table: &Table,
    witness: &Witness,
    statement: &Statement,
    proof: Proof,
)
    requires
        consistent(pk, vk, index, common, table, witness, statement),
        provable(pk, index, table, witness, statement),
        proof.wf(),
        honest(pk, index, table, witness, statement, proof),
    ensures
        accepts(*vk, *common, *statement, proof),
{
    let tau = pk.tau();
    let ch = challenges(vk.table_size, vk.witness_size, *common, *statement, proof);
    let beta = honest_beta(index, table, witness, statement);
    let gamma = honest_gamma(pk, index, table, witness, statement);
    let u = honest_u(index, table, witness, statement);
    let rows = witness_rows(table, witness);
    assert(common.zv_2@ == index.common.zv_2@);
    assert(common.t_2@ == index.common.t_2@);
    assert(ch.beta == beta);
    assert(ch.gamma == gamma);
    assert(ch.eta == challenges(table.size, witness.size, index.common, *statement, proof).eta);
    lemma_padding_in_table(table, witness);
    lemma_table_side(table, index, witness, tau, beta);
    lemma_degree_bound(table, witness, tau, u);
    lemma_verifier_quotient(*vk, table, witness, proof, beta, gamma);
    lemma_opening_side(*vk, witness, *statement, proof, ch, u);
    let e1 = table_equation(*common, proof, ch.beta);
    let e2 = degree_equation(*vk, proof);
    let e3 = opening_equation(*vk, *statement, proof, ch);
    let e4 = zero_equation(*vk, proof);
    assert(eqm(e1, 0));
    assert(eqm(e2, 0));
    assert(eqm(e4, 0));
    let rho = ch.rho;
    lemma_eqm_mul(rho, rho, e2, 0);
    lemma_eqm_mul(rho * rho, rho * rho, e3, 0);
    lemma_eqm_mul(rho * rho * rho, rho * rho * rho, e4, 0);
    assert(rho * 0 == 0);
    assert(rho * rho * 0 == 0);
    assert(rho * rho * rho * 0 == 0);
    lemma_eqm_add(e1, 0, rho * e2, 0);
    lemma_eqm_add(e1 + rho * e2, 0, rho * rho * e3, 0);
    lemma_eqm_add(e1 + rho * e2 + rho * rho * e3, 0, rho * rho * rho * e4, 0);
}

} // verus!
