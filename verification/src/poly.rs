//! Polynomials over the scalar field, as coefficient vectors from the constant
//! term up. The specification evaluates over the integers; executable results
//! are the canonical representatives.

use vstd::prelude::*;
use vstd::arithmetic::power::{pow, lemma_pow0};
use crate::field::{Scalar, all_wf, values};
use crate::modmath::{
    canon, dot, eqm, lemma_canon_range, lemma_canon_small, lemma_eqm_add, lemma_eqm_mul,
    lemma_eqm_pow, lemma_pow_succ,
};

verus! {

/// The value at `x` of the polynomial with coefficients `p`: the sum of
/// `p[i] * x^i`.
pub open spec fn peval(p: Seq<int>, x: int) -> int
    decreases p.len(),
{
    if p.len() == 0 {
        0
    } else {
        peval(p.drop_last(), x) + p.last() * pow(x, (p.len() - 1) as nat)
    }
}

/// The coefficients of the quotient of `p` by `X - z`: coefficient `k` is the
/// value at `z` of the polynomial whose coefficients are those of `p` from
/// `k + 1` on.
pub open spec fn quotient(p: Seq<int>, z: int) -> Seq<int> {
    Seq::new(if p.len() == 0 { 0 } else { (p.len() - 1) as nat }, |k: int| peval(p.skip(k + 1), z))
}

/// The number of coefficients up to the highest nonzero one: the degree plus
/// one, and zero for the zero polynomial.
pub open spec fn effective_len(p: Seq<int>) -> nat
    decreases p.len(),
{
    if p.len() == 0 {
        0
    } else if p.last() != 0 {
        p.len()
    } else {
        effective_len(p.drop_last())
    }
}

/// Coefficient `k`, zero beyond the length.
pub open spec fn coeff(p: Seq<int>, k: int) -> int {
    if 0 <= k < p.len() {
        p[k]
    } else {
        0
    }
}

/// The `k`-th coefficients of a sequence of polynomials.
pub open spec fn column(polys: Seq<Seq<int>>, k: int) -> Seq<int> {
    Seq::new(polys.len(), |i: int| coeff(polys[i], k))
}

/// The greatest length among the polynomials.
pub open spec fn max_len(polys: Seq<Seq<int>>) -> nat
    decreases polys.len(),
{
    if polys.len() == 0 {
        0
    } else if polys.last().len() > max_len(polys.drop_last()) {
        polys.last().len()
    } else {
        max_len(polys.drop_last())
    }
}

/// The combination of the polynomials with the powers of `eta`: the sum of
/// `eta^i * polys[i]`, coefficient by coefficient.
pub open spec fn combination(polys: Seq<Seq<int>>, eta: int) -> Seq<int> {
    Seq::new(max_len(polys), |k: int| peval(column(polys, k), eta))
}

/// The coefficient values of a sequence of coefficient vectors.
pub open spec fn poly_values(polys: Seq<Vec<Scalar>>) -> Seq<Seq<int>> {
    Seq::new(polys.len(), |i: int| values(polys[i]@))
}

/// Every coefficient of every polynomial is canonical.
pub open spec fn all_polys_wf(polys: Seq<Vec<Scalar>>) -> bool {
    forall|i: int| 0 <= i < polys.len() ==> all_wf(#[trigger] polys[i]@)
}

/// `p` times `X^s`: `s` zero coefficients, then those of `p`.
pub open spec fn shifted(p: Seq<int>, s: nat) -> Seq<int> {
    Seq::new(s, |k: int| 0int) + p
}

/// Horner's rule, one step from the constant term.
pub proof fn lemma_peval_front(p: Seq<int>, x: int)
    requires
        p.len() > 0,
    ensures
        peval(p, x) == p[0] + x * peval(p.skip(1), x),
    decreases p.len(),
{
    let n = p.len();
    if n == 1 {
        assert(p.drop_last().len() == 0);
        assert(p.skip(1).len() == 0);
        lemma_pow0(x);
        assert(peval(p.skip(1), x) == 0);
        assert(peval(p.drop_last(), x) == 0);
        assert(peval(p, x) == 0 + p.last() * pow(x, 0));
    } else {
        let q = p.drop_last();
        lemma_peval_front(q, x);
        let s = p.skip(1);
        assert(s.drop_last() =~= q.skip(1));
        assert(s.last() == p.last());
        lemma_pow_succ(x, (n - 2) as nat);
        let a = peval(q.skip(1), x);
        let l = p.last();
        let w = pow(x, (n - 2) as nat);
        assert(peval(s, x) == a + l * w);
        assert(pow(x, (n - 1) as nat) == x * w);
        assert(x * (a + l * w) == x * a + l * (x * w)) by (nonlinear_arith);
    }
}

/// Horner's rule at coefficient `i`.
pub proof fn lemma_peval_skip(p: Seq<int>, i: int, x: int)
    requires
        0 <= i < p.len(),
    ensures
        peval(p.skip(i), x) == p[i] + x * peval(p.skip(i + 1), x),
{
    lemma_peval_front(p.skip(i), x);
    assert(p.skip(i).skip(1) =~= p.skip(i + 1));
}

/// Congruent coefficients and congruent points give congruent values.
pub proof fn lemma_peval_eqm(p: Seq<int>, q: Seq<int>, x: int, y: int)
    requires
        p.len() == q.len(),
        forall|i: int| 0 <= i < p.len() ==> eqm(#[trigger] p[i], q[i]),
        eqm(x, y),
    ensures
        eqm(peval(p, x), peval(q, y)),
    decreases p.len(),
{
    if p.len() > 0 {
        let e = (p.len() - 1) as nat;
        lemma_peval_eqm(p.drop_last(), q.drop_last(), x, y);
        lemma_eqm_pow(x, y, e);
        assert(eqm(p[p.len() - 1], q[p.len() - 1]));
        lemma_eqm_mul(p.last(), q.last(), pow(x, e), pow(y, e));
        lemma_eqm_add(
            peval(p.drop_last(), x),
            peval(q.drop_last(), y),
            p.last() * pow(x, e),
            q.last() * pow(y, e),
        );
    }
}

/// Against the powers of `x`, the dot product is the value at `x`.
pub proof fn lemma_dot_powers(a: Seq<int>, p: Seq<int>, x: int)
    requires
        a.len() == p.len(),
        forall|i: int| 0 <= i < a.len() ==> eqm(#[trigger] a[i], pow(x, i as nat)),
    ensures
        eqm(dot(a, p), peval(p, x)),
    decreases a.len(),
{
    if a.len() > 0 {
        let e = (a.len() - 1) as nat;
        lemma_dot_powers(a.drop_last(), p.drop_last(), x);
        assert(eqm(a[a.len() - 1], pow(x, e)));
        lemma_eqm_mul(a.last(), pow(x, e), p.last(), p.last());
        assert(pow(x, e) * p.last() == p.last() * pow(x, e)) by (nonlinear_arith);
        lemma_eqm_add(
            dot(a.drop_last(), p.drop_last()),
            peval(p.drop_last(), x),
            a.last() * p.last(),
            p.last() * pow(x, e),
        );
    }
}

/// Against the powers of `x` from `x^s` on, the dot product is `x^s` times
/// the value at `x`.
pub proof fn lemma_dot_shifted_powers(a: Seq<int>, p: Seq<int>, x: int, s: nat)
    requires
        a.len() == p.len(),
        forall|i: int| 0 <= i < a.len() ==> eqm(#[trigger] a[i], pow(x, (s + i) as nat)),
    ensures
        eqm(dot(a, p), pow(x, s) * peval(p, x)),
    decreases a.len(),
{
    if a.len() > 0 {
        let e = (a.len() - 1) as nat;
        lemma_dot_shifted_powers(a.drop_last(), p.drop_last(), x, s);
        assert(eqm(a[a.len() - 1], pow(x, (s + e) as nat)));
        vstd::arithmetic::power::lemma_pow_adds(x, s, e);
        lemma_eqm_mul(a.last(), pow(x, s) * pow(x, e), p.last(), p.last());
        lemma_eqm_add(
            dot(a.drop_last(), p.drop_last()),
            pow(x, s) * peval(p.drop_last(), x),
            a.last() * p.last(),
            (pow(x, s) * pow(x, e)) * p.last(),
        );
        let w = pow(x, s);
        let r = peval(p.drop_last(), x);
        let l = p.last();
        let t = pow(x, e);
        assert(w * (r + l * t) == w * r + (w * t) * l) by (nonlinear_arith);
    } else {
        assert(pow(x, s) * 0 == 0);
    }
}

/// Coefficients above the effective length do not count.
pub proof fn lemma_peval_effective(p: Seq<int>, x: int)
    ensures
        effective_len(p) <= p.len(),
        peval(p.take(effective_len(p) as int), x) == peval(p, x),
        forall|i: int| effective_len(p) <= i < p.len() ==> #[trigger] p[i] == 0,
        effective_len(p) > 0 ==> p[effective_len(p) - 1] != 0,
    decreases p.len(),
{
    if p.len() == 0 {
        assert(p.take(0) =~= p);
    } else if p.last() != 0 {
        assert(p.take(p.len() as int) =~= p);
    } else {
        let q = p.drop_last();
        lemma_peval_effective(q, x);
        assert(q.take(effective_len(q) as int) =~= p.take(effective_len(p) as int));
        assert forall|i: int| effective_len(p) <= i < p.len() implies #[trigger] p[i] == 0 by {
            if i < q.len() {
                assert(q[i] == 0);
            }
        }
        assert(p.last() * pow(x, (p.len() - 1) as nat) == 0) by (nonlinear_arith)
            requires
                p.last() == 0,
        ;
    }
}

/// Coefficients that are zero from some index on add nothing: a prefix that
/// holds all the nonzero ones has the same value.
pub proof fn lemma_peval_zero_ext(a: Seq<int>, b: Seq<int>, x: int)
    requires
        a.len() <= b.len(),
        forall|i: int| 0 <= i < a.len() ==> #[trigger] a[i] == b[i],
        forall|i: int| a.len() <= i < b.len() ==> #[trigger] b[i] == 0,
    ensures
        peval(a, x) == peval(b, x),
    decreases b.len(),
{
    if a.len() == b.len() {
        assert(a =~= b);
    } else {
        lemma_peval_zero_ext(a, b.drop_last(), x);
        assert(b[b.len() - 1] == 0);
        assert(b.last() * pow(x, (b.len() - 1) as nat) == 0) by (nonlinear_arith)
            requires
                b.last() == 0,
        ;
    }
}

/// The quotient by `X - z` of a polynomial and of its effective prefix have
/// the same value everywhere.
pub proof fn lemma_quotient_effective(p: Seq<int>, z: int, x: int)
    ensures
        peval(quotient(p.take(effective_len(p) as int), z), x) == peval(quotient(p, z), x),
{
    lemma_peval_effective(p, x);
    let n = effective_len(p) as int;
    let t = p.take(n);
    let a = quotient(t, z);
    let b = quotient(p, z);
    assert forall|i: int| 0 <= i < a.len() implies #[trigger] a[i] == b[i] by {
        lemma_peval_zero_ext(t.skip(i + 1), p.skip(i + 1), z);
    }
    assert forall|i: int| a.len() <= i < b.len() implies #[trigger] b[i] == 0 by {
        lemma_peval_zero_ext(Seq::<int>::empty(), p.skip(i + 1), z);
    }
    lemma_peval_zero_ext(a, b, x);
}

/// The value is linear in the coefficients.
pub proof fn lemma_peval_add_scaled(a: Seq<int>, b: Seq<int>, c: int, x: int)
    requires
        a.len() == b.len(),
    ensures
        peval(Seq::new(a.len(), |k: int| a[k] + c * b[k]), x) == peval(a, x) + c * peval(b, x),
    decreases a.len(),
{
    let s = Seq::new(a.len(), |k: int| a[k] + c * b[k]);
    if a.len() > 0 {
        let a1 = a.drop_last();
        let b1 = b.drop_last();
        lemma_peval_add_scaled(a1, b1, c, x);
        assert(s.drop_last() =~= Seq::new(a1.len(), |k: int| a1[k] + c * b1[k]));
        let w = pow(x, (a.len() - 1) as nat);
        assert((a.last() + c * b.last()) * w == a.last() * w + c * (b.last() * w))
            by (nonlinear_arith);
        assert(c * (peval(b1, x) + b.last() * w) == c * peval(b1, x) + c * (b.last() * w))
            by (nonlinear_arith);
    } else {
        assert(c * 0 == 0);
    }
}

/// Padding with zero coefficients does not change the value.
pub proof fn lemma_peval_padded(p: Seq<int>, n: nat, x: int)
    requires
        n >= p.len(),
    ensures
        peval(Seq::new(n, |k: int| coeff(p, k)), x) == peval(p, x),
{
    lemma_peval_zero_ext(p, Seq::new(n, |k: int| coeff(p, k)), x);
}

/// The value at `x` of a combination of polynomials is the combination of
/// their values: with coefficient `k` the dot product of the weights `a` with
/// the `k`-th coefficients, the value is the dot product of `a` with the
/// values.
pub proof fn lemma_exchange(a: Seq<int>, polys: Seq<Seq<int>>, n: nat, x: int)
    requires
        a.len() == polys.len(),
        forall|j: int| 0 <= j < polys.len() ==> (#[trigger] polys[j]).len() <= n,
    ensures
        peval(Seq::new(n, |k: int| dot(a, column(polys, k))), x) == dot(
            a,
            Seq::new(polys.len(), |j: int| peval(polys[j], x)),
        ),
    decreases polys.len(),
{
    let lhs = Seq::new(n, |k: int| dot(a, column(polys, k)));
    let vals = Seq::new(polys.len(), |j: int| peval(polys[j], x));
    if polys.len() == 0 {
        lemma_peval_zero_ext(Seq::<int>::empty(), lhs, x);
    } else {
        let a1 = a.drop_last();
        let head = polys.drop_last();
        let al = a.last();
        let pl = polys.last();
        lemma_exchange(a1, head, n, x);
        let first = Seq::new(n, |k: int| dot(a1, column(head, k)));
        let second = Seq::new(n, |k: int| coeff(pl, k));
        assert forall|k: int| 0 <= k < n implies #[trigger] lhs[k] == first[k] + al * second[k] by {
            assert(column(polys, k).drop_last() =~= column(head, k));
            assert(column(polys, k).last() == coeff(pl, k));
        }
        assert(lhs =~= Seq::new(first.len(), |k: int| first[k] + al * second[k]));
        lemma_peval_add_scaled(first, second, al, x);
        lemma_peval_padded(pl, n, x);
        assert(vals.drop_last() =~= Seq::new(head.len(), |j: int| peval(head[j], x)));
        assert(vals.last() == peval(pl, x));
    }
}

/// The value of `p` times `X^s` is `x^s` times the value of `p`.
pub proof fn lemma_peval_shifted(p: Seq<int>, s: nat, x: int)
    ensures
        peval(shifted(p, s), x) == pow(x, s) * peval(p, x),
    decreases p.len(),
{
    let sp = shifted(p, s);
    if p.len() == 0 {
        lemma_peval_zero_ext(Seq::<int>::empty(), sp, x);
        assert(pow(x, s) * 0 == 0);
    } else {
        let head = p.drop_last();
        lemma_peval_shifted(head, s, x);
        assert(sp.drop_last() =~= shifted(head, s));
        assert(sp.last() == p.last());
        let e = (p.len() - 1) as nat;
        vstd::arithmetic::power::lemma_pow_adds(x, s, e);
        let l = p.last();
        let a = pow(x, s);
        let b = pow(x, e);
        let r = peval(head, x);
        assert(l * (a * b) == a * (l * b)) by (nonlinear_arith);
        assert(a * (r + l * b) == a * r + a * (l * b)) by (nonlinear_arith);
    }
}

/// The division identity: `p(x) - p(z)` is `(x - z)` times the value at `x` of
/// the quotient of `p` by `X - z`, for any coefficients congruent to the
/// quotient's.
pub proof fn lemma_quotient_identity(p: Seq<int>, q: Seq<int>, z: int, x: int)
    requires
        p.len() > 0,
        q.len() == p.len() - 1,
        forall|k: int| 0 <= k < q.len() ==> eqm(#[trigger] q[k], peval(p.skip(k + 1), z)),
    ensures
        eqm(peval(p, x) - peval(p, z), (x - z) * peval(q, x)),
    decreases p.len(),
{
    lemma_peval_front(p, x);
    lemma_peval_front(p, z);
    let head = p.skip(1);
    if p.len() == 1 {
        assert(head.len() == 0);
        assert(peval(q, x) == 0);
        assert((x - z) * 0 == 0);
        assert(x * 0 == 0);
        assert(z * 0 == 0);
    } else {
        let q1 = q.skip(1);
        assert forall|k: int| 0 <= k < q1.len() implies eqm(
            #[trigger] q1[k],
            peval(head.skip(k + 1), z),
        ) by {
            assert(q1[k] == q[k + 1]);
            assert(head.skip(k + 1) =~= p.skip(k + 2));
        }
        lemma_quotient_identity(head, q1, z, x);
        lemma_peval_front(q, x);
        let px = peval(head, x);
        let pz = peval(head, z);
        let qx = peval(q1, x);
        let q0 = q[0];
        assert(eqm(q0, pz));
        // (x - z) * (q0 + x * qx) is congruent to (x - z) * pz + x * (px - pz)
        lemma_eqm_mul(x - z, x - z, q0, pz);
        lemma_eqm_mul(x, x, (x - z) * qx, px - pz);
        lemma_eqm_add((x - z) * q0, (x - z) * pz, x * ((x - z) * qx), x * (px - pz));
        assert((x - z) * (q0 + x * qx) == (x - z) * q0 + x * ((x - z) * qx))
            by (nonlinear_arith);
        assert((x - z) * pz + x * (px - pz) == (p[0] + x * px) - (p[0] + z * pz))
            by (nonlinear_arith);
    }
}

/// The number of coefficients up to the highest nonzero one.
pub fn effective_length(p: &Vec<Scalar>) -> (n: usize)
    ensures
        n == effective_len(values(p@)),
        n <= p.len(),
{
    let ghost vals = values(p@);
    let mut n = p.len();
    proof {
        assert(vals.take(n as int) =~= vals);
    }
    while n > 0 && p[n - 1].is_zero()
        invariant
            n <= p.len(),
            vals == values(p@),
            effective_len(vals) == effective_len(vals.take(n as int)),
        decreases n,
    {
        proof {
            assert(vals.take(n as int).drop_last() =~= vals.take(n - 1));
            assert(vals.take(n as int).last() == p[n - 1]@);
        }
        n -= 1;
    }
    proof {
        if n > 0 {
            assert(vals.take(n as int).last() == p[n - 1]@);
        }
    }
    n
}

/// The first `n` coefficients.
pub fn truncated(p: &Vec<Scalar>, n: usize) -> (r: Vec<Scalar>)
    requires
        n <= p.len(),
    ensures
        r@ == p@.take(n as int),
        all_wf(p@) ==> all_wf(r@),
{
    let mut r: Vec<Scalar> = Vec::new();
    let mut i: usize = 0;
    while i < n
        invariant
            i <= n,
            n <= p.len(),
            r@ == p@.take(i as int),
        decreases n - i,
    {
        r.push(p[i]);
        proof {
            assert(p@.take(i as int).push(p@[i as int]) =~= p@.take(i + 1));
        }
        i += 1;
    }
    r
}

/// No polynomial is longer than the greatest length.
pub proof fn lemma_max_len_bound(polys: Seq<Seq<int>>, i: int)
    requires
        0 <= i < polys.len(),
    ensures
        polys[i].len() <= max_len(polys),
    decreases polys.len(),
{
    if i < polys.len() - 1 {
        lemma_max_len_bound(polys.drop_last(), i);
    }
}

/// The combination of the polynomials with the powers of `eta`.
pub fn linear_combination(polys: &Vec<Vec<Scalar>>, eta: &Scalar) -> (r: Vec<Scalar>)
    requires
        all_polys_wf(polys@),
        eta.wf(),
    ensures
        all_wf(r@),
        r.len() == max_len(poly_values(polys@)),
        forall|k: int|
            0 <= k < r.len() ==> (#[trigger] r[k])@ == canon(
                combination(poly_values(polys@), eta@)[k],
            ),
{
    let ghost pv = poly_values(polys@);
    let mut n: usize = 0;
    let mut i: usize = 0;
    proof {
        assert(pv.take(0).len() == 0);
    }
    while i < polys.len()
        invariant
            i <= polys.len(),
            pv == poly_values(polys@),
            n == max_len(pv.take(i as int)),
        decreases polys.len() - i,
    {
        proof {
            assert(pv.take(i + 1).drop_last() =~= pv.take(i as int));
            assert(pv.take(i + 1).last() == values(polys[i as int]@));
        }
        if polys[i].len() > n {
            n = polys[i].len();
        }
        i += 1;
    }
    proof {
        assert(pv.take(polys.len() as int) =~= pv);
    }
    let mut out: Vec<Scalar> = Vec::new();
    let mut k: usize = 0;
    while k < n
        invariant
            k <= n,
            n == max_len(pv),
            pv == poly_values(polys@),
            all_polys_wf(polys@),
            eta.wf(),
            out.len() == k,
            all_wf(out@),
            forall|j: int|
                0 <= j < k ==> (#[trigger] out[j])@ == canon(combination(pv, eta@)[j]),
        decreases n - k,
    {
        let ghost col = column(pv, k as int);
        let mut acc = Scalar::zero();
        let mut i = polys.len();
        proof {
            assert(col.skip(i as int).len() == 0);
            lemma_canon_small(0);
        }
        while i > 0
            invariant
                i <= polys.len(),
                k < n,
                pv == poly_values(polys@),
                col == column(pv, k as int),
                all_polys_wf(polys@),
                eta.wf(),
                acc.wf(),
                acc@ == canon(peval(col.skip(i as int), eta@)),
            decreases i,
        {
            i -= 1;
            let t = acc.mul(eta);
            let c = if k < polys[i].len() {
                polys[i][k]
            } else {
                Scalar::zero()
            };
            let ghost rest = peval(col.skip(i + 1), eta@);
            proof {
                assert(all_wf(polys[i as int]@));
                assert(col[i as int] == c@);
                lemma_peval_skip(col, i as int, eta@);
                lemma_canon_range(rest);
                lemma_canon_range(acc@ * eta@);
                lemma_eqm_mul(acc@, rest, eta@, eta@);
                lemma_eqm_add(t@, rest * eta@, c@, c@);
                assert(rest * eta@ + c@ == c@ + eta@ * rest) by (nonlinear_arith);
            }
            acc = t.add(&c);
        }
        proof {
            assert(col.skip(0) =~= col);
        }
        out.push(acc);
        k += 1;
    }
    out
}

/// The value of `p` at `x`, by Horner's rule.
pub fn poly_eval(p: &Vec<Scalar>, x: &Scalar) -> (r: Scalar)
    requires
        all_wf(p@),
        x.wf(),
    ensures
        r.wf(),
        r@ == canon(peval(values(p@), x@)),
{
    let ghost vals = values(p@);
    let mut acc = Scalar::zero();
    let mut i = p.len();
    proof {
        assert(vals.skip(i as int).len() == 0);
        lemma_canon_small(0);
    }
    while i > 0
        invariant
            i <= p.len(),
            acc.wf(),
            all_wf(p@),
            x.wf(),
            vals == values(p@),
            acc@ == canon(peval(vals.skip(i as int), x@)),
        decreases i,
    {
        i -= 1;
        let t = acc.mul(x);
        let ghost rest = peval(vals.skip(i + 1), x@);
        proof {
            lemma_peval_skip(vals, i as int, x@);
            lemma_canon_range(rest);
            lemma_canon_range(acc@ * x@);
            lemma_eqm_mul(acc@, rest, x@, x@);
            lemma_eqm_add(t@, rest * x@, p[i as int]@, p[i as int]@);
            assert(rest * x@ + p[i as int]@ == p[i as int]@ + x@ * rest) by (nonlinear_arith);
        }
        acc = t.add(&p[i]);
    }
    proof {
        assert(vals.skip(0) =~= vals);
    }
    acc
}

/// Division by `X - z`: the quotient's coefficients and the remainder, which
/// is the value at `z`. An empty `p` gives an empty quotient.
pub fn divide_by_linear(p: &Vec<Scalar>, z: &Scalar) -> (r: (Vec<Scalar>, Scalar))
    requires
        all_wf(p@),
        z.wf(),
    ensures
        all_wf(r.0@),
        r.1.wf(),
        r.0.len() == if p.len() == 0 { 0 } else { p.len() - 1 },
        forall|k: int| 0 <= k < r.0.len() ==> (#[trigger] r.0[k])@ == canon(peval(values(p@).skip(k + 1), z@)),
        r.1@ == canon(peval(values(p@), z@)),
{
    let ghost vals = values(p@);
    let n = p.len();
    let mut q: Vec<Scalar> = Vec::new();
    while q.len() + 1 < n
        invariant
            n == p.len(),
            q.len() == 0 || q.len() < n,
            all_wf(q@),
        decreases n - q.len(),
    {
        q.push(Scalar::zero());
    }
    let mut acc = Scalar::zero();
    let mut i = n;
    proof {
        assert(vals.skip(i as int).len() == 0);
        lemma_canon_small(0);
    }
    while i > 0
        invariant
            i <= n,
            n == p.len(),
            q.len() == if n == 0 { 0 } else { n - 1 },
            acc.wf(),
            all_wf(p@),
            all_wf(q@),
            z.wf(),
            vals == values(p@),
            acc@ == canon(peval(vals.skip(i as int), z@)),
            forall|k: int| i <= k < q.len() ==> (#[trigger] q[k])@ == canon(peval(vals.skip(k + 1), z@)),
            i < n ==> i < q.len() + 1,
        decreases i,
    {
        if i < n {
            q.set(i - 1, acc);
        }
        i -= 1;
        let t = acc.mul(z);
        let ghost rest = peval(vals.skip(i + 1), z@);
        proof {
            lemma_peval_skip(vals, i as int, z@);
            lemma_canon_range(rest);
            lemma_canon_range(acc@ * z@);
            lemma_eqm_mul(acc@, rest, z@, z@);
            lemma_eqm_add(t@, rest * z@, p[i as int]@, p[i as int]@);
            assert(rest * z@ + p[i as int]@ == p[i as int]@ + z@ * rest) by (nonlinear_arith);
        }
        acc = t.add(&p[i]);
    }
    proof {
        assert(vals.skip(0) =~= vals);
    }
    (q, acc)
}

} // verus!
