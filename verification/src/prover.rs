//! The prover: from the preprocessed table and a witness whose entries all
//! occur in the table, a proof of constant size.
//!
//! The witness is taken with its padding, on the witness domain. With `r_j`
//! the first table row that holds the entry `f_j` and
//! `u_j = 1 / (f_j + beta)`, the table side is `A = sum of u_j L_{r_j}` and
//! the multiplicity polynomial is `m = sum of L_{r_j}`, both over the table's
//! domain; the witness side is the polynomial `B` that takes the values `u_j`
//! on the witness domain. Every sum runs over the witness entries, and a row
//! is found by halving in the table's sorted row numbers, so the table's size
//! enters the work only through its logarithm.

use vstd::prelude::*;
use vstd::arithmetic::power::pow;
use crate::data_structures::{Proof, ProvingKey, Statement, Witness, padding};
use crate::domain::lemma_padded_size_bound;
use crate::domain::interpolation;
use crate::error::Error;
use crate::field::{Scalar, all_wf, values};
use crate::group::{G1Point, all_g1_wf, g1_encoding, g1_logs};
use crate::indexer::{Index, row_point};
use crate::kzg::{Kzg, batched};
use crate::modmath::{
    canon, dot, finv, invertible, lemma_add_c, lemma_canon_range, lemma_canon_small,
    lemma_finv_congruent, lemma_mul_c,
};
use crate::poly::{
    divide_by_linear, max_len, peval, poly_eval, poly_values, quotient, shifted,
    truncated, lemma_peval_effective,
};
use crate::protocol::{
    beta_state, challenges, gamma_state, round_beta, round_eta, round_gamma, start, start_state,
};
use crate::rng::FsState;
use crate::table::Table;

verus! {

/// The index of the first entry of `vals` that equals `v`, and -1 where
/// there is none.
pub open spec fn first_row(vals: Seq<int>, v: int) -> int
    decreases vals.len(),
{
    if vals.len() == 0 {
        -1
    } else if first_row(vals.drop_last(), v) >= 0 {
        first_row(vals.drop_last(), v)
    } else if vals.last() == v {
        vals.len() - 1
    } else {
        -1
    }
}

/// For each entry of the padded witness, the first table row that holds it.
pub open spec fn witness_rows(table: &Table, witness: &Witness) -> Seq<int> {
    Seq::new(
        witness.padded.len() as nat,
        |j: int| first_row(values(table.values@), witness.padded[j]@),
    )
}

/// Every witness entry occurs in the table.
pub open spec fn all_in_table(table: &Table, witness: &Witness) -> bool {
    forall|j: int|
        0 <= j < witness.values.len() ==> first_row(
            values(table.values@),
            #[trigger] witness.values[j]@,
        ) >= 0
}

/// Every entry of the padded witness occurs in the table.
pub open spec fn all_padded_in_table(table: &Table, witness: &Witness) -> bool {
    forall|j: int|
        0 <= j < witness.padded.len() ==> first_row(
            values(table.values@),
            #[trigger] witness.padded[j]@,
        ) >= 0
}

/// The padding adds no entry: the padded witness is in the table exactly
/// when the witness is.
pub proof fn lemma_padding_in_table(table: &Table, witness: &Witness)
    requires
        witness.wf(),
    ensures
        all_padded_in_table(table, witness) == all_in_table(table, witness),
{
    let tv = values(table.values@);
    let pad = padding(witness.values@, witness.domain_size as nat);
    if all_in_table(table, witness) {
        assert forall|j: int| 0 <= j < witness.padded.len() implies first_row(
            tv,
            #[trigger] witness.padded[j]@,
        ) >= 0 by {
            assert(witness.padded[j] == pad[j]);
            if j < witness.values.len() {
                assert(first_row(tv, witness.values[j]@) >= 0);
            } else {
                assert(first_row(tv, witness.values[0]@) >= 0);
            }
        }
    }
    if all_padded_in_table(table, witness) {
        assert forall|j: int| 0 <= j < witness.values.len() implies first_row(
            tv,
            #[trigger] witness.values[j]@,
        ) >= 0 by {
            assert(witness.padded[j] == pad[j]);
            assert(first_row(tv, witness.padded[j]@) >= 0);
        }
    }
}

/// The row numbers as integers.
pub open spec fn rows_int(rows: Seq<usize>) -> Seq<int> {
    Seq::new(rows.len(), |j: int| rows[j] as int)
}

/// The multiples of the generator that the points of the given rows are.
pub open spec fn gather(points: Seq<G1Point>, rows: Seq<int>) -> Seq<int> {
    Seq::new(rows.len(), |j: int| points[rows[j]].log())
}

/// `n` ones.
pub open spec fn ones(n: nat) -> Seq<int> {
    Seq::new(n, |j: int| 1int)
}

/// Every entry plus `beta` has an inverse in the field: none is zero.
pub open spec fn no_collision(vals: Seq<int>, beta: int) -> bool {
    forall|j: int| 0 <= j < vals.len() ==> invertible(#[trigger] vals[j] + beta)
}

/// The inverses `1 / (vals[j] + beta)`.
pub open spec fn shifted_inverses(vals: Seq<int>, beta: int) -> Seq<int> {
    Seq::new(vals.len(), |j: int| finv(vals[j] + beta))
}

/// The weights of the cached quotients: `u_j w^{r_j} / N`.
pub open spec fn quotient_weights(table: &Table, rows: Seq<int>, u: Seq<int>) -> Seq<int> {
    Seq::new(
        rows.len(),
        |j: int| canon(u[j] * row_point(table, rows[j]) * table.domain.size_inv()),
    )
}

/// The `j`-th point of the witness domain.
pub open spec fn witness_point(witness: &Witness, j: int) -> int {
    canon(pow(witness.domain.omega(), j as nat))
}

/// The canonical coefficients of the polynomial `B` that takes the values
/// `u` on the witness domain.
pub open spec fn b_coeffs(witness: &Witness, u: Seq<int>) -> Seq<int> {
    Seq::new(
        u.len(),
        |k: int| canon(interpolation(u, witness.domain.omega(), witness.domain.size_inv())[k]),
    )
}

/// The weights of the witness-side quotients: `u_j h_j / M`.
pub open spec fn witness_weights(witness: &Witness, u: Seq<int>) -> Seq<int> {
    Seq::new(
        u.len(),
        |j: int| canon(u[j] * witness_point(witness, j) * witness.domain.size_inv()),
    )
}

/// Coefficient `k` of each quotient `(f - f(h_j)) / (X - h_j)` of the witness
/// polynomial.
pub open spec fn witness_quotient_column(witness: &Witness, k: int) -> Seq<int> {
    Seq::new(
        witness.domain_size as nat,
        |j: int| canon(peval(witness.coeffs().skip(k + 1), witness_point(witness, j))),
    )
}

/// The canonical coefficients of the witness-side quotient `Q_B`: the sum of
/// the quotients `(f - f(h_j)) / (X - h_j)` with the weights `u_j h_j / M`.
pub open spec fn qb_coeffs(witness: &Witness, u: Seq<int>) -> Seq<int> {
    Seq::new(
        if witness.domain_size == 0 {
            0
        } else {
            (witness.domain_size - 1) as nat
        },
        |k: int| canon(dot(witness_weights(witness, u), witness_quotient_column(witness, k))),
    )
}

/// An entry found at `i` and not before is first found at `i`.
pub proof fn lemma_first_row_found(vals: Seq<int>, v: int, i: int)
    requires
        0 <= i < vals.len(),
        vals[i] == v,
        forall|k: int| 0 <= k < i ==> #[trigger] vals[k] != v,
    ensures
        first_row(vals, v) == i,
    decreases vals.len(),
{
    if i == vals.len() - 1 {
        lemma_first_row_absent(vals.drop_last(), v);
    } else {
        lemma_first_row_found(vals.drop_last(), v, i);
    }
}

/// An entry found nowhere has no first row.
pub proof fn lemma_first_row_absent(vals: Seq<int>, v: int)
    requires
        forall|k: int| 0 <= k < vals.len() ==> #[trigger] vals[k] != v,
    ensures
        first_row(vals, v) == -1,
    decreases vals.len(),
{
    if vals.len() > 0 {
        lemma_first_row_absent(vals.drop_last(), v);
    }
}

/// An entry that occurs has a first row.
pub proof fn lemma_first_row_exists(vals: Seq<int>, v: int, i: int)
    requires
        0 <= i < vals.len(),
        vals[i] == v,
    ensures
        first_row(vals, v) >= 0,
    decreases vals.len(),
{
    if i < vals.len() - 1 {
        lemma_first_row_exists(vals.drop_last(), v, i);
    }
}

/// The first row, where there is one, holds the entry.
pub proof fn lemma_first_row_holds(vals: Seq<int>, v: int)
    ensures
        -1 <= first_row(vals, v) < vals.len(),
        first_row(vals, v) >= 0 ==> vals[first_row(vals, v)] == v,
    decreases vals.len(),
{
    if vals.len() > 0 {
        lemma_first_row_holds(vals.drop_last(), v);
    }
}

/// For each entry of the padded witness the first table row that holds it,
/// or `None` where an entry is not in the table.
pub fn find_rows(table: &Table, witness: &Witness) -> (r: Option<Vec<usize>>)
    requires
        table.wf(),
    ensures
        r.is_some() == all_padded_in_table(table, witness),
        r matches Some(rows) ==> rows_int(rows@) == witness_rows(table, witness) && (forall|
            j: int,
        |
            0 <= j < rows.len() ==> #[trigger] rows[j] < table.size),
{
    let ghost tv = values(table.values@);
    let mut rows: Vec<usize> = Vec::new();
    let mut j: usize = 0;
    while j < witness.padded.len()
        invariant
            j <= witness.padded.len(),
            table.wf(),
            tv == values(table.values@),
            rows.len() == j,
            forall|i: int| 0 <= i < j ==> #[trigger] rows[i] < table.size,
            forall|i: int|
                0 <= i < j ==> rows[i] as int == first_row(tv, #[trigger] witness.padded[i]@),
        decreases witness.padded.len() - j,
    {
        match table.find_row(&witness.padded[j]) {
            Some(i) => {
                proof {
                    assert forall|k: int| 0 <= k < i implies #[trigger] tv[k] != witness.padded[j as int]@ by {
                        assert(table.values[k]@ != witness.padded[j as int]@);
                    }
                    lemma_first_row_found(tv, witness.padded[j as int]@, i as int);
                }
                rows.push(i);
            },
            None => {
                proof {
                    assert forall|k: int| 0 <= k < tv.len() implies #[trigger] tv[k] != witness.padded[j as int]@ by {
                        assert(table.values[k]@ != witness.padded[j as int]@);
                    }
                    lemma_first_row_absent(tv, witness.padded[j as int]@);
                }
                return None;
            },
        }
        j += 1;
    }
    proof {
        assert(rows_int(rows@) =~= witness_rows(table, witness));
    }
    Some(rows)
}

/// The points of the given rows.
pub fn gather_points(points: &Vec<G1Point>, rows: &Vec<usize>) -> (r: Vec<G1Point>)
    requires
        all_g1_wf(points@),
        forall|j: int| 0 <= j < rows.len() ==> #[trigger] rows[j] < points.len(),
    ensures
        r.len() == rows.len(),
        all_g1_wf(r@),
        g1_logs(r@) == gather(points@, rows_int(rows@)),
{
    let mut out: Vec<G1Point> = Vec::new();
    let mut j: usize = 0;
    while j < rows.len()
        invariant
            j <= rows.len(),
            all_g1_wf(points@),
            forall|i: int| 0 <= i < rows.len() ==> #[trigger] rows[i] < points.len(),
            out.len() == j,
            all_g1_wf(out@),
            forall|i: int| 0 <= i < j ==> #[trigger] out[i] == points[rows[i] as int],
        decreases rows.len() - j,
    {
        let r = rows[j];
        out.push(points[r]);
        j += 1;
    }
    proof {
        assert(g1_logs(out@) =~= gather(points@, rows_int(rows@)));
    }
    out
}

/// The inverses `1 / (vals[j] + beta)`, or `None` where a denominator is
/// zero.
pub fn inverses(vals: &Vec<Scalar>, beta: &Scalar) -> (r: Option<Vec<Scalar>>)
    requires
        all_wf(vals@),
        beta.wf(),
    ensures
        r.is_some() == no_collision(values(vals@), beta@),
        r matches Some(u) ==> all_wf(u@) && values(u@) == shifted_inverses(values(vals@), beta@),
{
    let ghost vv = values(vals@);
    let mut out: Vec<Scalar> = Vec::new();
    let mut j: usize = 0;
    while j < vals.len()
        invariant
            j <= vals.len(),
            all_wf(vals@),
            beta.wf(),
            vv == values(vals@),
            out.len() == j,
            all_wf(out@),
            forall|i: int| 0 <= i < j ==> invertible(#[trigger] vv[i] + beta@),
            forall|i: int| 0 <= i < j ==> (#[trigger] out[i])@ == finv(vv[i] + beta@),
        decreases vals.len() - j,
    {
        let d = vals[j].add(beta);
        proof {
            lemma_canon_range(vals[j as int]@ + beta@);
            lemma_canon_small(0);
            assert(vv[j as int] == vals[j as int]@);
        }
        match d.inverse() {
            Some(v) => {
                proof {
                    lemma_finv_congruent(d@, vv[j as int] + beta@);
                }
                out.push(v);
            },
            None => {
                proof {
                    crate::modmath::lemma_zero_not_invertible(vv[j as int] + beta@);
                }
                return None;
            },
        }
        j += 1;
    }
    proof {
        assert(values(out@) =~= shifted_inverses(vv, beta@));
    }
    Some(out)
}

/// The weights of the cached quotients.
pub fn compute_quotient_weights(table: &Table, rows: &Vec<usize>, u: &Vec<Scalar>) -> (r: Vec<
    Scalar,
>)
    requires
        table.wf(),
        all_wf(u@),
        rows.len() == u.len(),
        forall|j: int| 0 <= j < rows.len() ==> #[trigger] rows[j] < table.size,
    ensures
        all_wf(r@),
        r.len() == rows.len(),
        values(r@) == quotient_weights(table, rows_int(rows@), values(u@)),
{
    let ninv = table.domain.size_inverse();
    let mut out: Vec<Scalar> = Vec::new();
    let mut j: usize = 0;
    while j < rows.len()
        invariant
            j <= rows.len(),
            table.wf(),
            all_wf(u@),
            rows.len() == u.len(),
            forall|i: int| 0 <= i < rows.len() ==> #[trigger] rows[i] < table.size,
            ninv.wf(),
            ninv@ == table.domain.size_inv(),
            out.len() == j,
            all_wf(out@),
            forall|i: int|
                0 <= i < j ==> (#[trigger] out[i])@ == quotient_weights(
                    table,
                    rows_int(rows@),
                    values(u@),
                )[i],
        decreases rows.len() - j,
    {
        let w = table.domain.element(rows[j]);
        let t = u[j].mul(&w);
        let c = t.mul(&ninv);
        proof {
            lemma_mul_c(u[j as int]@, u[j as int]@, w@, w@, t@);
            lemma_mul_c(t@, u[j as int]@ * w@, ninv@, ninv@, c@);
            lemma_canon_range(u[j as int]@ * w@ * ninv@);
            crate::modmath::lemma_eqm_small(c@, canon(u[j as int]@ * w@ * ninv@));
        }
        out.push(c);
        j += 1;
    }
    proof {
        assert(values(out@) =~= quotient_weights(table, rows_int(rows@), values(u@)));
    }
    out
}

/// The coefficients of the witness-side quotient.
pub fn witness_quotient(witness: &Witness, u: &Vec<Scalar>) -> (r: Vec<Scalar>)
    requires
        witness.wf(),
        all_wf(u@),
        u.len() == witness.domain_size,
    ensures
        all_wf(r@),
        r.len() == if witness.domain_size == 0 { 0 } else { witness.domain_size - 1 },
        values(r@) == qb_coeffs(witness, values(u@)),
{
    let m = witness.domain_size;
    let minv = witness.domain.size_inverse();
    let ghost wts = witness_weights(witness, values(u@));
    let mut qb: Vec<Scalar> = Vec::new();
    while qb.len() + 1 < m
        invariant
            m == witness.domain_size,
            qb.len() == 0 || qb.len() < m,
            forall|k: int| 0 <= k < qb.len() ==> (#[trigger] qb[k]).wf() && qb[k]@ == 0,
        decreases m - qb.len(),
    {
        qb.push(Scalar::zero());
    }
    let mut j: usize = 0;
    proof {
        lemma_canon_small(0);
        assert forall|k: int| 0 <= k < qb.len() implies (#[trigger] qb[k])@ == canon(
            dot(wts.take(0), witness_quotient_column(witness, k).take(0)),
        ) by {}
    }
    while j < m
        invariant
            j <= m,
            m == witness.domain_size,
            witness.wf(),
            all_wf(u@),
            u.len() == m,
            minv.wf(),
            minv@ == witness.domain.size_inv(),
            wts == witness_weights(witness, values(u@)),
            qb.len() == if m == 0 { 0 } else { m - 1 },
            all_wf(qb@),
            forall|k: int|
                0 <= k < qb.len() ==> (#[trigger] qb[k])@ == canon(
                    dot(wts.take(j as int), witness_quotient_column(witness, k).take(j as int)),
                ),
        decreases m - j,
    {
        let h = witness.domain.element(j);
        let t = u[j].mul(&h);
        let c = t.mul(&minv);
        let fq = divide_by_linear(&witness.f, &h).0;
        proof {
            lemma_mul_c(u[j as int]@, u[j as int]@, h@, h@, t@);
            lemma_mul_c(t@, u[j as int]@ * h@, minv@, minv@, c@);
            lemma_canon_range(u[j as int]@ * h@ * minv@);
            crate::modmath::lemma_eqm_small(c@, canon(u[j as int]@ * h@ * minv@));
            assert(c@ == wts[j as int]);
        }
        let mut k: usize = 0;
        while k < qb.len()
            invariant
                k <= qb.len(),
                j < m,
                m == witness.domain_size,
                witness.wf(),
                c.wf(),
                c@ == wts[j as int],
                wts.len() == m,
                qb.len() == m - 1,
                fq.len() == m - 1,
                all_wf(fq@),
                all_wf(qb@),
                h@ == witness_point(witness, j as int),
                forall|i: int|
                    0 <= i < fq.len() ==> (#[trigger] fq[i])@ == canon(
                        peval(witness.coeffs().skip(i + 1), h@),
                    ),
                forall|i: int|
                    0 <= i < k ==> (#[trigger] qb[i])@ == canon(
                        dot(wts.take(j + 1), witness_quotient_column(witness, i).take(j + 1)),
                    ),
                forall|i: int|
                    k <= i < qb.len() ==> (#[trigger] qb[i])@ == canon(
                        dot(wts.take(j as int), witness_quotient_column(witness, i).take(j as int)),
                    ),
            decreases qb.len() - k,
        {
            let term = c.mul(&fq[k]);
            let next = qb[k].add(&term);
            proof {
                let col = witness_quotient_column(witness, k as int);
                let before = dot(wts.take(j as int), col.take(j as int));
                assert(wts.take(j + 1).drop_last() =~= wts.take(j as int));
                assert(col.take(j + 1).drop_last() =~= col.take(j as int));
                assert(col[j as int] == fq[k as int]@);
                lemma_canon_range(before);
                lemma_mul_c(c@, c@, fq[k as int]@, fq[k as int]@, term@);
                lemma_add_c(qb[k as int]@, before, term@, c@ * fq[k as int]@, next@);
                lemma_canon_range(before + c@ * fq[k as int]@);
                crate::modmath::lemma_eqm_small(next@, canon(before + c@ * fq[k as int]@));
            }
            qb.set(k, next);
            k += 1;
        }
        j += 1;
    }
    proof {
        assert forall|k: int| 0 <= k < qb.len() implies values(qb@)[k] == qb_coeffs(
            witness,
            values(u@),
        )[k] by {
            assert(wts.take(m as int) =~= wts);
            assert(witness_quotient_column(witness, k).take(m as int)
                =~= witness_quotient_column(witness, k));
            assert(values(qb@)[k] == qb[k]@);
        }
        assert(values(qb@) =~= qb_coeffs(witness, values(u@)));
    }
    qb
}

/// The prover.
pub struct Prover;

/// The multiplicity commitment in the exponent: the sum of the Lagrange
/// commitments of the rows.
pub open spec fn honest_m(index: &Index, rows: Seq<int>) -> int {
    canon(dot(gather(index.lagrange@, rows), ones(rows.len())))
}

/// The transcript from which the honest prover squeezes `beta`.
pub open spec fn honest_state_1(
    index: &Index,
    table: &Table,
    witness: &Witness,
    statement: &Statement,
) -> FsState {
    beta_state(
        start_state(
            table.size,
            witness.size,
            index.common.zv_2@,
            index.common.t_2@,
            statement.f@,
        ),
        g1_encoding(honest_m(index, witness_rows(table, witness))),
    )
}

/// The first challenge of the honest run.
pub open spec fn honest_beta(
    index: &Index,
    table: &Table,
    witness: &Witness,
    statement: &Statement,
) -> int {
    honest_state_1(index, table, witness, statement).next_value()
}

/// The inverses `1 / (f_j + beta)` of the honest run.
pub open spec fn honest_u(
    index: &Index,
    table: &Table,
    witness: &Witness,
    statement: &Statement,
) -> Seq<int> {
    shifted_inverses(values(witness.padded@), honest_beta(index, table, witness, statement))
}

/// The commitment to `A` in the exponent.
pub open spec fn honest_a(index: &Index, rows: Seq<int>, u: Seq<int>) -> int {
    canon(dot(gather(index.lagrange@, rows), u))
}

/// The aggregate of the cached quotients in the exponent.
pub open spec fn honest_qa(index: &Index, table: &Table, rows: Seq<int>, u: Seq<int>) -> int {
    canon(dot(gather(index.q@, rows), quotient_weights(table, rows, u)))
}

/// The opening proof of `A` at zero in the exponent.
pub open spec fn honest_a0_proof(index: &Index, rows: Seq<int>, u: Seq<int>) -> int {
    canon(dot(gather(index.lagrange_opening@, rows), u))
}

/// The value of `A` at zero: the sum of the `u_j`, over `N`.
pub open spec fn honest_a0(table: &Table, u: Seq<int>) -> int {
    canon(table.domain.size_inv() * peval(u, 1))
}

/// The commitment to `(B - B(0)) / X` in the exponent.
pub open spec fn honest_b0(tau: int, witness: &Witness, u: Seq<int>) -> int {
    canon(peval(b_coeffs(witness, u).skip(1), tau))
}

/// The commitment to the witness-side quotient in the exponent.
pub open spec fn honest_qb(tau: int, witness: &Witness, u: Seq<int>) -> int {
    canon(peval(qb_coeffs(witness, u), tau))
}

/// The exponent `N + 1 - M` of the degree-bounding shift.
pub open spec fn degree_shift(table: &Table, witness: &Witness) -> nat {
    (table.size + 1 - witness.domain_size) as nat
}

/// The degree-bounding commitment in the exponent.
pub open spec fn honest_p(tau: int, table: &Table, witness: &Witness, u: Seq<int>) -> int {
    canon(peval(shifted(b_coeffs(witness, u).skip(1), degree_shift(table, witness)), tau))
}

/// The transcript from which the honest prover squeezes `gamma`.
pub open spec fn honest_state_2(
    pk: &ProvingKey,
    index: &Index,
    table: &Table,
    witness: &Witness,
    statement: &Statement,
) -> FsState {
    let rows = witness_rows(table, witness);
    let u = honest_u(index, table, witness, statement);
    gamma_state(
        honest_state_1(index, table, witness, statement).advance(),
        g1_encoding(honest_a(index, rows, u)),
        g1_encoding(honest_qa(index, table, rows, u)),
        g1_encoding(honest_b0(pk.tau(), witness, u)),
        g1_encoding(honest_qb(pk.tau(), witness, u)),
        g1_encoding(honest_p(pk.tau(), table, witness, u)),
    )
}

/// The second challenge of the honest run.
pub open spec fn honest_gamma(
    pk: &ProvingKey,
    index: &Index,
    table: &Table,
    witness: &Witness,
    statement: &Statement,
) -> int {
    honest_state_2(pk, index, table, witness, statement).next_value()
}

/// The three polynomials that are opened at `gamma`.
pub open spec fn opened_polys(witness: &Witness, u: Seq<int>) -> Seq<Seq<int>> {
    seq![b_coeffs(witness, u).skip(1), witness.coeffs(), qb_coeffs(witness, u)]
}

/// `proof` is the proof that the honest prover makes of these inputs: every
/// commitment and every value in it is the one that the protocol prescribes.
pub open spec fn honest(
    pk: &ProvingKey,
    index: &Index,
    table: &Table,
    witness: &Witness,
    statement: &Statement,
    proof: Proof,
) -> bool {
    let tau = pk.tau();
    let rows = witness_rows(table, witness);
    let u = honest_u(index, table, witness, statement);
    let gamma = honest_gamma(pk, index, table, witness, statement);
    let eta = challenges(table.size, witness.size, index.common, *statement, proof).eta;
    &&& proof.m.log() == honest_m(index, rows)
    &&& proof.a.log() == honest_a(index, rows, u)
    &&& proof.q_a.log() == honest_qa(index, table, rows, u)
    &&& proof.a0_proof.log() == honest_a0_proof(index, rows, u)
    &&& proof.a_0@ == honest_a0(table, u)
    &&& proof.b_0.log() == honest_b0(tau, witness, u)
    &&& proof.q_b.log() == honest_qb(tau, witness, u)
    &&& proof.p.log() == honest_p(tau, table, witness, u)
    &&& proof.b0_gamma@ == canon(peval(b_coeffs(witness, u).skip(1), gamma))
    &&& proof.f_gamma@ == canon(peval(witness.coeffs(), gamma))
    &&& proof.pi_gamma.log() == canon(
        peval(quotient(batched(opened_polys(witness, u), eta), gamma), tau),
    )
}

/// Determinism: the proof is a function of the inputs. Two proofs that the
/// prover makes of the same inputs are the same value, byte for byte.
pub proof fn lemma_honest_proof_unique(
    pk: &ProvingKey,
    index: &Index,
    table: &Table,
    witness: &Witness,
    statement: &Statement,
    first: Proof,
    second: Proof,
)
    requires
        first.wf(),
        second.wf(),
        honest(pk, index, table, witness, statement, first),
        honest(pk, index, table, witness, statement, second),
    ensures
        first == second,
{
    crate::group::lemma_g1_same_log(first.m, second.m);
    crate::group::lemma_g1_same_log(first.a, second.a);
    crate::group::lemma_g1_same_log(first.q_a, second.q_a);
    crate::group::lemma_g1_same_log(first.b_0, second.b_0);
    crate::group::lemma_g1_same_log(first.q_b, second.q_b);
    crate::group::lemma_g1_same_log(first.p, second.p);
    crate::group::lemma_g1_same_log(first.a0_proof, second.a0_proof);
    crate::field::lemma_scalar_same_value(first.b0_gamma, second.b0_gamma);
    crate::field::lemma_scalar_same_value(first.f_gamma, second.f_gamma);
    crate::field::lemma_scalar_same_value(first.a_0, second.a_0);
    assert(challenges(table.size, witness.size, index.common, *statement, first).eta == challenges(
        table.size,
        witness.size,
        index.common,
        *statement,
        second,
    ).eta);
    crate::group::lemma_g1_same_log(first.pi_gamma, second.pi_gamma);
}

/// The inputs from which the prover makes a proof.
pub open spec fn provable(
    pk: &ProvingKey,
    index: &Index,
    table: &Table,
    witness: &Witness,
    statement: &Statement,
) -> bool {
    &&& witness.size < table.size
    &&& pk.srs_g1.len() >= table.size
    &&& statement.f.log() == canon(peval(witness.coeffs(), pk.tau()))
    &&& all_in_table(table, witness)
    &&& no_collision(values(witness.padded@), honest_beta(index, table, witness, statement))
    &&& invertible(pow(honest_gamma(pk, index, table, witness, statement), witness.domain_size as nat) - 1)
}

/// The error that the prover returns for inputs that are not provable: the
/// first that applies of a witness not smaller than the table, a reference
/// string too short for the table, a statement that is not the commitment to
/// the witness, a witness entry that is not in the table, and a challenge on
/// which the argument is undefined.
pub open spec fn failure(
    pk: &ProvingKey,
    index: &Index,
    table: &Table,
    witness: &Witness,
    statement: &Statement,
) -> Error {
    if witness.size >= table.size {
        Error::SizingError
    } else if pk.srs_g1.len() < table.size {
        Error::DegreeError
    } else if statement.f.log() != canon(peval(witness.coeffs(), pk.tau())) {
        Error::StatementMismatchError
    } else if !all_in_table(table, witness) {
        Error::ProverError
    } else {
        Error::ChallengeError
    }
}

/// The coefficients from the second on.
fn tail(p: &Vec<Scalar>) -> (r: Vec<Scalar>)
    requires
        all_wf(p@),
        p.len() >= 1,
    ensures
        all_wf(r@),
        values(r@) == values(p@).skip(1),
        r.len() == p.len() - 1,
{
    let mut out: Vec<Scalar> = Vec::new();
    let mut i: usize = 1;
    while i < p.len()
        invariant
            1 <= i <= p.len(),
            all_wf(p@),
            out.len() == i - 1,
            all_wf(out@),
            forall|k: int| 0 <= k < out.len() ==> #[trigger] out[k] == p[k + 1],
        decreases p.len() - i,
    {
        out.push(p[i]);
        i += 1;
    }
    proof {
        let a = values(out@);
        let b = values(p@).skip(1);
        assert(a.len() == b.len());
        assert forall|k: int| 0 <= k < a.len() implies a[k] == b[k] by {
            assert(out[k] == p[k + 1]);
        }
        assert(a =~= b);
    }
    out
}

impl Prover {
    /// The table-side commitments and the value of `A` at zero.
    fn table_round(index: &Index, table: &Table, rows: &Vec<usize>, u: &Vec<Scalar>) -> (r: (
        G1Point,
        G1Point,
        G1Point,
        Scalar,
    ))
        requires
            table.wf(),
            index.q.len() == table.size,
            index.lagrange.len() == table.size,
            index.lagrange_opening.len() == table.size,
            all_g1_wf(index.q@),
            all_g1_wf(index.lagrange@),
            all_g1_wf(index.lagrange_opening@),
            all_wf(u@),
            rows.len() == u.len(),
            forall|j: int| 0 <= j < rows.len() ==> #[trigger] rows[j] < table.size,
        ensures
            r.0.wf() && r.1.wf() && r.2.wf() && r.3.wf(),
            r.0.log() == honest_a(index, rows_int(rows@), values(u@)),
            r.1.log() == honest_qa(index, table, rows_int(rows@), values(u@)),
            r.2.log() == honest_a0_proof(index, rows_int(rows@), values(u@)),
            r.3@ == honest_a0(table, values(u@)),
    {
        let bases_l = gather_points(&index.lagrange, rows);
        let a = G1Point::msm(&bases_l, u);
        let bases_q = gather_points(&index.q, rows);
        let weights = compute_quotient_weights(table, rows, u);
        let q_a = G1Point::msm(&bases_q, &weights);
        let bases_o = gather_points(&index.lagrange_opening, rows);
        let a0_proof = G1Point::msm(&bases_o, u);
        let one = Scalar::one();
        let sum = poly_eval(u, &one);
        let ninv = table.domain.size_inverse();
        let a_0 = ninv.mul(&sum);
        proof {
            assert(bases_l@.take(u.len() as int) =~= bases_l@);
            assert(bases_q@.take(weights.len() as int) =~= bases_q@);
            assert(bases_o@.take(u.len() as int) =~= bases_o@);
            lemma_canon_range(peval(values(u@), 1));
            lemma_mul_c(ninv@, ninv@, sum@, peval(values(u@), 1), a_0@);
            lemma_canon_range(ninv@ * peval(values(u@), 1));
            crate::modmath::lemma_eqm_small(a_0@, canon(ninv@ * peval(values(u@), 1)));
        }
        (a, q_a, a0_proof, a_0)
    }

    /// The multiplicity commitment: the sum of the Lagrange commitments of
    /// the rows.
    fn multiplicity_commitment(index: &Index, rows: &Vec<usize>) -> (r: G1Point)
        requires
            all_g1_wf(index.lagrange@),
            forall|j: int| 0 <= j < rows.len() ==> #[trigger] rows[j] < index.lagrange.len(),
        ensures
            r.wf(),
            r.log() == honest_m(index, rows_int(rows@)),
    {
        let bases = gather_points(&index.lagrange, rows);
        let mut units: Vec<Scalar> = Vec::new();
        let mut j: usize = 0;
        while j < rows.len()
            invariant
                j <= rows.len(),
                units.len() == j,
                forall|i: int| 0 <= i < j ==> (#[trigger] units[i]).wf() && units[i]@ == 1,
            decreases rows.len() - j,
        {
            units.push(Scalar::one());
            j += 1;
        }
        proof {
            assert(values(units@) =~= ones(rows.len() as nat));
            assert(bases@.take(units.len() as int) =~= bases@);
            assert(rows_int(rows@).len() == rows.len());
        }
        G1Point::msm(&bases, &units)
    }

    /// The witness-side polynomials `(B - B(0)) / X` and `Q_B`, with their
    /// commitments and the degree-bounding commitment.
    fn witness_round(pk: &ProvingKey, table: &Table, witness: &Witness, u: &Vec<Scalar>) -> (r:
        Result<(Vec<Scalar>, Vec<Scalar>, G1Point, G1Point, G1Point), Error>)
        requires
            pk.wf(),
            table.wf(),
            witness.wf(),
            all_wf(u@),
            u.len() == witness.domain_size,
            1 <= witness.domain_size <= table.size,
            pk.srs_g1.len() >= table.size,
        ensures
            r.is_ok(),
            r matches Ok(o) ==> ({
                &&& all_wf(o.0@)
                &&& all_wf(o.1@)
                &&& o.0.len() == witness.domain_size - 1
                &&& o.1.len() == witness.domain_size - 1
                &&& values(o.0@) == b_coeffs(witness, values(u@)).skip(1)
                &&& values(o.1@) == qb_coeffs(witness, values(u@))
                &&& o.2.wf()
                &&& o.3.wf()
                &&& o.4.wf()
                &&& o.2.log() == honest_b0(pk.tau(), witness, values(u@))
                &&& o.3.log() == honest_qb(pk.tau(), witness, values(u@))
                &&& o.4.log() == honest_p(pk.tau(), table, witness, values(u@))
            }),
    {
        let bpoly = witness.domain.interpolate(u);
        proof {
            assert(values(bpoly@) =~= b_coeffs(witness, values(u@)));
        }
        let b0poly = tail(&bpoly);
        let qb = witness_quotient(witness, u);
        let shift = table.size + 1 - witness.domain_size;
        proof {
            lemma_peval_effective(values(b0poly@), 0);
            lemma_peval_effective(values(qb@), 0);
        }
        let b_0 = match Kzg::commit_g1(&pk.srs_g1, &b0poly) {
            Ok(c) => c,
            Err(e) => {
                return Err(e);
            },
        };
        let q_b = match Kzg::commit_g1(&pk.srs_g1, &qb) {
            Ok(c) => c,
            Err(e) => {
                return Err(e);
            },
        };
        let p = match Kzg::commit_shifted_g1(&pk.srs_g1, &b0poly, shift) {
            Ok(c) => c,
            Err(e) => {
                return Err(e);
            },
        };
        Ok((b0poly, qb, b_0, q_b, p))
    }

    /// The batched opening at `gamma` of the three witness-side polynomials.
    fn opening_round(
        pk: &ProvingKey,
        witness: &Witness,
        b0poly: Vec<Scalar>,
        qb: Vec<Scalar>,
        gamma: &Scalar,
        eta: &Scalar,
        Ghost(u): Ghost<Seq<int>>,
    ) -> (r: Result<G1Point, Error>)
        requires
            pk.wf(),
            witness.wf(),
            gamma.wf(),
            eta.wf(),
            all_wf(b0poly@),
            all_wf(qb@),
            1 <= witness.domain_size <= pk.srs_g1.len(),
            b0poly.len() == witness.domain_size - 1,
            qb.len() == witness.domain_size - 1,
            values(b0poly@) == b_coeffs(witness, u).skip(1),
            values(qb@) == qb_coeffs(witness, u),
        ensures
            r.is_ok(),
            r matches Ok(pi) ==> pi.wf() && pi.log() == canon(
                peval(quotient(batched(opened_polys(witness, u), eta@), gamma@), pk.tau()),
            ),
    {
        let fcopy = truncated(&witness.f, witness.f.len());
        proof {
            assert(fcopy@ =~= witness.f@);
        }
        let polys = vec![b0poly, fcopy, qb];
        proof {
            let pv = poly_values(polys@);
            assert(pv =~= opened_polys(witness, u));
            reveal_with_fuel(max_len, 4);
            assert(pv.drop_last() =~= seq![pv[0], pv[1]]);
            assert(pv.drop_last().drop_last() =~= seq![pv[0]]);
            assert(pv.drop_last().drop_last().drop_last() =~= Seq::<Seq<int>>::empty());
            assert(max_len(pv) == witness.domain_size);
            lemma_peval_effective(batched(pv, eta@), 0);
            assert forall|i: int| 0 <= i < polys.len() implies all_wf(#[trigger] polys[i]@) by {}
        }
        match Kzg::batch_open_g1(&pk.srs_g1, &polys, gamma, eta) {
            Ok(o) => Ok(o.1),
            Err(e) => Err(e),
        }
    }

    /// A proof that every entry of `witness` occurs in `table`.
    ///
    /// It fails, in this order, for a witness that is not smaller than the
    /// table, for a reference string shorter than the table, for a statement
    /// that is not the commitment to the witness, for a witness entry that is
    /// not in the table, and for a challenge on which the argument is
    /// undefined (`beta` the negative of a witness entry, or `gamma` on the
    /// witness domain), which happens with negligible probability.
    pub fn prove(
        pk: &ProvingKey,
        index: &Index,
        table: &Table,
        witness: &Witness,
        statement: &Statement,
    ) -> (r: Result<Proof, Error>)
        requires
            pk.wf(),
            table.wf(),
            witness.wf(),
            index.wf_for(table, pk.tau()),
            statement.f.wf(),
        ensures
            r.is_ok() == provable(pk, index, table, witness, statement),
            r matches Ok(proof) ==> proof.wf() && honest(
                pk,
                index,
                table,
                witness,
                statement,
                proof,
            ),
            r matches Err(e) ==> e == failure(pk, index, table, witness, statement),
    {
        if witness.size >= table.size {
            return Err(Error::SizingError);
        }
        if pk.srs_g1.len() < table.size {
            return Err(Error::DegreeError);
        }
        proof {
            lemma_padded_size_bound(
                witness.domain_size as int,
                witness.size as int,
                table.size as int,
            );
            lemma_peval_effective(witness.coeffs(), pk.tau());
        }
        let cm = match Kzg::commit_g1(&pk.srs_g1, &witness.f) {
            Ok(c) => c,
            Err(e) => {
                return Err(e);
            },
        };
        if !cm.same(&statement.f) {
            return Err(Error::StatementMismatchError);
        }
        proof {
            lemma_padding_in_table(table, witness);
        }
        let rows = match find_rows(table, witness) {
            Some(rows) => rows,
            None => {
                return Err(Error::ProverError);
            },
        };
        let m = Prover::multiplicity_commitment(index, &rows);
        let mut t = start(table.size, witness.size, &index.common, statement);
        let beta = round_beta(&mut t, &m);
        assert(beta@ == honest_beta(index, table, witness, statement));
        let u = match inverses(&witness.padded, &beta) {
            Some(u) => u,
            None => {
                return Err(Error::ChallengeError);
            },
        };
        assert(values(u@) == honest_u(index, table, witness, statement));
        let ts = Prover::table_round(index, table, &rows, &u);
        let ws = match Prover::witness_round(pk, table, witness, &u) {
            Ok(o) => o,
            Err(e) => {
                return Err(e);
            },
        };
        let b0poly = ws.0;
        let qb = ws.1;
        let gamma = round_gamma(&mut t, &ts.0, &ts.1, &ws.2, &ws.3, &ws.4);
        assert(gamma@ == honest_gamma(pk, index, table, witness, statement));
        let one = Scalar::one();
        let gm = gamma.pow(witness.domain_size);
        let zh = gm.sub(&one);
        proof {
            let exact = pow(gamma@, witness.domain_size as nat);
            lemma_canon_range(exact);
            crate::modmath::lemma_sub_c(gm@, exact, 1, 1, zh@);
            if invertible(zh@) {
                lemma_finv_congruent(zh@, exact - 1);
            }
            if invertible(exact - 1) {
                lemma_finv_congruent(exact - 1, zh@);
            }
        }
        if zh.inverse().is_none() {
            return Err(Error::ChallengeError);
        }
        let b0_gamma = poly_eval(&b0poly, &gamma);
        let f_gamma = poly_eval(&witness.f, &gamma);
        let eta = round_eta(&mut t, &b0_gamma, &f_gamma, &ts.3);
        let pi_gamma = match Prover::opening_round(
            pk,
            witness,
            b0poly,
            qb,
            &gamma,
            &eta,
            Ghost(values(u@)),
        ) {
            Ok(pi) => pi,
            Err(e) => {
                return Err(e);
            },
        };
        let proof = Proof {
            m,
            a: ts.0,
            q_a: ts.1,
            b_0: ws.2,
            q_b: ws.3,
            p: ws.4,
            b0_gamma,
            f_gamma,
            a_0: ts.3,
            pi_gamma,
            a0_proof: ts.2,
        };
        assert(eta@ == challenges(table.size, witness.size, index.common, *statement, proof).eta);
        Ok(proof)
    }
}

} // verus!
