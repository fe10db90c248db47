//! Geometric sums and the powers of a root of unity: what interpolation over
//! an evaluation domain rests on.

use vstd::prelude::*;
use vstd::arithmetic::div_mod::{lemma_fundamental_div_mod, lemma_mod_bound};
use vstd::arithmetic::power::{
    pow, lemma1_pow, lemma_pow0, lemma_pow_adds, lemma_pow_distributes, lemma_pow_multiplies,
};
use vstd::arithmetic::div_mod::{lemma_mod_multiples_vanish, lemma_small_mod};
use crate::domain::{interpolation, inverse_index, lagrange, primitive_root};
use crate::modmath::dot;
use crate::poly::{column, lemma_exchange, lemma_peval_eqm, lemma_peval_zero_ext};
use crate::prover::ones;
use crate::modmath::{
    eqm, lemma_eqm_add, lemma_eqm_mul, lemma_eqm_pow, lemma_eqm_sub, lemma_pow_succ,
};
use crate::poly::peval;

verus! {

/// The geometric sum `1 + y + ... + y^(n-1)`.
pub open spec fn geom(y: int, n: nat) -> int
    decreases n,
{
    if n == 0 {
        0
    } else {
        geom(y, (n - 1) as nat) + pow(y, (n - 1) as nat)
    }
}

/// `(y - 1) (1 + y + ... + y^(n-1)) = y^n - 1`.
pub proof fn lemma_geom(y: int, n: nat)
    ensures
        (y - 1) * geom(y, n) == pow(y, n) - 1,
    decreases n,
{
    if n == 0 {
        lemma_pow0(y);
        assert((y - 1) * 0 == 0);
    } else {
        let e = (n - 1) as nat;
        lemma_geom(y, e);
        lemma_pow_succ(y, e);
        let g = geom(y, e);
        let w = pow(y, e);
        assert((y - 1) * (g + w) == (y - 1) * g + y * w - w) by (nonlinear_arith);
    }
}

/// Geometric sums of congruent numbers are congruent.
pub proof fn lemma_geom_eqm(y: int, z: int, n: nat)
    requires
        eqm(y, z),
    ensures
        eqm(geom(y, n), geom(z, n)),
    decreases n,
{
    if n > 0 {
        let e = (n - 1) as nat;
        lemma_geom_eqm(y, z, e);
        lemma_eqm_pow(y, z, e);
        lemma_eqm_add(geom(y, e), geom(z, e), pow(y, e), pow(z, e));
    }
}

/// The geometric sum of one has `n` terms of one.
pub proof fn lemma_geom_one(n: nat)
    ensures
        geom(1, n) == n,
    decreases n,
{
    if n > 0 {
        lemma_geom_one((n - 1) as nat);
        lemma1_pow((n - 1) as nat);
    }
}

/// A polynomial with the coefficients `c u^k` has the value
/// `c (1 + u x + ... + (u x)^(n-1))`.
pub proof fn lemma_peval_geometric(c: int, u: int, x: int, n: nat)
    ensures
        peval(Seq::new(n, |k: int| c * pow(u, k as nat)), x) == c * geom(u * x, n),
    decreases n,
{
    let s = Seq::new(n, |k: int| c * pow(u, k as nat));
    if n == 0 {
        assert(c * 0 == 0);
    } else {
        let e = (n - 1) as nat;
        lemma_peval_geometric(c, u, x, e);
        assert(s.drop_last() =~= Seq::new(e, |k: int| c * pow(u, k as nat)));
        lemma_pow_distributes(u, x, e);
        let a = pow(u, e);
        let b = pow(x, e);
        let g = geom(u * x, e);
        assert((c * a) * b == c * (a * b)) by (nonlinear_arith);
        assert(c * (g + a * b) == c * g + c * (a * b)) by (nonlinear_arith);
    }
}

/// The powers of a number of order dividing `n` repeat with period `n`.
pub proof fn lemma_pow_period(w: int, n: int, a: nat)
    requires
        n > 0,
        eqm(pow(w, n as nat), 1),
    ensures
        eqm(pow(w, a), pow(w, (a as int % n) as nat)),
{
    let q = a as int / n;
    let r = a as int % n;
    lemma_fundamental_div_mod(a as int, n);
    lemma_mod_bound(a as int, n);
    assert(q >= 0) by (nonlinear_arith)
        requires
            a as int == n * q + r,
            0 <= r < n,
            a >= 0,
            n > 0,
    ;
    assert(n * q >= 0) by (nonlinear_arith)
        requires
            n > 0,
            q >= 0,
    ;
    lemma_pow_adds(w, (n * q) as nat, r as nat);
    lemma_pow_multiplies(w, n as nat, q as nat);
    lemma_eqm_pow(pow(w, n as nat), 1, q as nat);
    lemma1_pow(q as nat);
    lemma_eqm_mul(pow(w, (n * q) as nat), 1, pow(w, r as nat), pow(w, r as nat));
    assert(1 * pow(w, r as nat) == pow(w, r as nat));
}

/// Exponents that agree modulo `n` give congruent powers of a number of
/// order dividing `n`.
pub proof fn lemma_pow_same_residue(w: int, n: int, a: nat, b: nat)
    requires
        n > 0,
        eqm(pow(w, n as nat), 1),
        a as int % n == b as int % n,
    ensures
        eqm(pow(w, a), pow(w, b)),
{
    lemma_pow_period(w, n, a);
    lemma_pow_period(w, n, b);
}

/// What the theory of a domain rests on: `w` has order `n`, `ninv` is the
/// inverse of `n`, and `unit_inv[d]` is the inverse of `w^d - 1` for
/// `0 < d < n`.
pub open spec fn domain_facts(w: int, n: int, ninv: int, unit_inv: Seq<int>) -> bool {
    &&& n >= 1
    &&& primitive_root(w, n)
    &&& eqm(ninv * n, 1)
    &&& unit_inv.len() == n
    &&& forall|d: int| 0 < d < n ==> eqm((pow(w, d as nat) - 1) * #[trigger] unit_inv[d], 1)
}

/// The inverse index is an index, and the two add up to a multiple of `n`.
pub proof fn lemma_inverse_index(n: int, i: int)
    requires
        0 <= i < n,
    ensures
        0 <= inverse_index(n, i) < n,
        inverse_index(n, i) == if i == 0 { 0 } else { n - i },
        (i + inverse_index(n, i)) % n == 0,
{
    if i == 0 {
        assert((n - 0) % n == 0) by (nonlinear_arith)
            requires
                n > 0,
        ;
        lemma_small_mod(0, n as nat);
    } else {
        lemma_small_mod((n - i) as nat, n as nat);
        assert((i + (n - i)) % n == 0) by (nonlinear_arith)
            requires
                n > 0,
        ;
    }
}

/// The point of the inverse index is the inverse of the point.
pub proof fn lemma_inverse_point(w: int, n: int, i: int)
    requires
        0 <= i < n,
        eqm(pow(w, n as nat), 1),
    ensures
        eqm(pow(w, i as nat) * pow(w, inverse_index(n, i) as nat), 1),
{
    lemma_inverse_index(n, i);
    lemma_pow_adds(w, i as nat, inverse_index(n, i) as nat);
    if i == 0 {
        lemma_pow0(w);
    }
}

/// The `n`-th power of a power of `w` is congruent to one.
pub proof fn lemma_pow_of_power(w: int, n: int, e: nat)
    requires
        n > 0,
        eqm(pow(w, n as nat), 1),
    ensures
        eqm(pow(pow(w, e), n as nat), 1),
{
    lemma_pow_multiplies(w, e, n as nat);
    lemma_pow_multiplies(w, n as nat, e);
    assert(e * (n as nat) == (n as nat) * e) by (nonlinear_arith);
    lemma_eqm_pow(pow(w, n as nat), 1, e);
    lemma1_pow(e);
}

/// The geometric sum over a full period of a power of `w` other than one
/// vanishes.
pub proof fn lemma_geom_root(w: int, n: int, ninv: int, unit_inv: Seq<int>, d: int)
    requires
        domain_facts(w, n, ninv, unit_inv),
        0 < d < n,
    ensures
        eqm(geom(pow(w, d as nat), n as nat), 0),
{
    let y = pow(w, d as nat);
    let g = geom(y, n as nat);
    let v = unit_inv[d];
    lemma_geom(y, n as nat);
    lemma_pow_of_power(w, n, d as nat);
    lemma_eqm_sub(pow(y, n as nat), 1, 1, 1);
    // (y - 1) g is congruent to zero; multiply by the inverse of y - 1
    lemma_eqm_mul((y - 1) * g, 0, v, v);
    lemma_eqm_mul((y - 1) * v, 1, g, g);
    assert(((y - 1) * g) * v == ((y - 1) * v) * g) by (nonlinear_arith);
    assert(0 * v == 0);
    assert(1 * g == g);
}

/// The geometric sum over a full period of anything congruent to `w^e`: it
/// is `n` where `n` divides `e`, and vanishes otherwise.
pub proof fn lemma_geom_at(w: int, n: int, ninv: int, unit_inv: Seq<int>, y: int, e: nat)
    requires
        domain_facts(w, n, ninv, unit_inv),
        eqm(y, pow(w, e)),
    ensures
        eqm(
            geom(y, n as nat),
            if e as int % n == 0 {
                n
            } else {
                0
            },
        ),
{
    let r = e as int % n;
    lemma_mod_bound(e as int, n);
    lemma_pow_period(w, n, e);
    lemma_geom_eqm(y, pow(w, r as nat), n as nat);
    if r == 0 {
        lemma_pow0(w);
        lemma_geom_one(n as nat);
    } else {
        lemma_geom_root(w, n, ninv, unit_inv, r);
    }
}

/// The value of a Lagrange polynomial as a geometric sum.
pub proof fn lemma_lagrange_eval(w: int, n: int, ninv: int, i: int, x: int)
    requires
        n >= 1,
    ensures
        peval(lagrange(n, w, ninv, i), x) == ninv * geom(
            pow(w, inverse_index(n, i) as nat) * x,
            n as nat,
        ),
{
    let u = pow(w, inverse_index(n, i) as nat);
    assert(lagrange(n, w, ninv, i) =~= Seq::new(n as nat, |k: int| ninv * pow(u, k as nat)));
    lemma_peval_geometric(ninv, u, x, n as nat);
}

/// The Lagrange polynomial of the point `w^i` times `X - w^i` is
/// `(w^i / n) (X^n - 1)`, at every `x`.
pub proof fn lemma_lagrange_vanishing(w: int, n: int, ninv: int, i: int, x: int)
    requires
        0 <= i < n,
        eqm(pow(w, n as nat), 1),
    ensures
        eqm(
            peval(lagrange(n, w, ninv, i), x) * (x - pow(w, i as nat)),
            ninv * pow(w, i as nat) * (pow(x, n as nat) - 1),
        ),
{
    let e = inverse_index(n, i) as nat;
    lemma_inverse_index(n, i);
    let u = pow(w, e);
    let wi = pow(w, i as nat);
    let y = u * x;
    let g = geom(y, n as nat);
    let xn = pow(x, n as nat);
    lemma_lagrange_eval(w, n, ninv, i, x);
    lemma_geom(y, n as nat);
    lemma_pow_distributes(u, x, n as nat);
    lemma_pow_of_power(w, n, e);
    lemma_inverse_point(w, n, i);
    // w^i (y - 1) is congruent to x - w^i
    lemma_eqm_mul(wi * u, 1, x, x);
    assert(wi * (y - 1) == (wi * u) * x - wi) by (nonlinear_arith)
        requires
            y == u * x,
    ;
    assert(1 * x == x);
    lemma_eqm_sub((wi * u) * x, x, wi, wi);
    // y^n - 1 is congruent to x^n - 1
    lemma_eqm_mul(pow(u, n as nat), 1, xn, xn);
    assert(1 * xn == xn);
    lemma_eqm_sub(pow(y, n as nat), xn, 1, 1);
    // put together
    lemma_eqm_mul(ninv * g, ninv * g, x - wi, wi * (y - 1));
    assert((ninv * g) * (wi * (y - 1)) == (ninv * wi) * ((y - 1) * g)) by (nonlinear_arith);
    lemma_eqm_mul(ninv * wi, ninv * wi, (y - 1) * g, xn - 1);
}

/// A Lagrange polynomial is one at its own point and zero at the others.
pub proof fn lemma_lagrange_at_point(w: int, n: int, ninv: int, unit_inv: Seq<int>, i: int, j: int)
    requires
        domain_facts(w, n, ninv, unit_inv),
        0 <= i < n,
        0 <= j < n,
    ensures
        eqm(
            peval(lagrange(n, w, ninv, i), pow(w, j as nat)),
            if i == j {
                1
            } else {
                0
            },
        ),
{
    let inv = inverse_index(n, i);
    lemma_inverse_index(n, i);
    let y = pow(w, inv as nat) * pow(w, j as nat);
    let e = (inv + j) as nat;
    lemma_lagrange_eval(w, n, ninv, i, pow(w, j as nat));
    lemma_pow_adds(w, inv as nat, j as nat);
    lemma_geom_at(w, n, ninv, unit_inv, y, e);
    let g = geom(y, n as nat);
    if i == j {
        assert(e as int % n == 0);
        lemma_eqm_mul(ninv, ninv, g, n);
    } else {
        if i == 0 {
            lemma_small_mod(j as nat, n as nat);
        } else if j < i {
            lemma_small_mod((n - i + j) as nat, n as nat);
        } else {
            lemma_small_mod((j - i) as nat, n as nat);
            lemma_mod_multiples_vanish(1, j - i, n);
        }
        assert(e as int % n != 0);
        lemma_eqm_mul(ninv, ninv, g, 0);
        assert(ninv * 0 == 0);
    }
}

/// The values at `x` of the Lagrange polynomials of the domain.
pub open spec fn lagrange_values(n: int, w: int, ninv: int, x: int) -> Seq<int> {
    Seq::new(n as nat, |j: int| peval(lagrange(n, w, ninv, j), x))
}

/// `(n - j) k` and `(n - k) j` agree modulo `n`, where `n - 0` is read as
/// zero.
pub proof fn lemma_inverse_index_swap(n: int, j: int, k: int)
    requires
        0 <= j < n,
        0 <= k < n,
    ensures
        0 <= inverse_index(n, j) * k,
        0 <= inverse_index(n, k) * j,
        (inverse_index(n, j) * k) % n == (inverse_index(n, k) * j) % n,
{
    lemma_inverse_index(n, j);
    lemma_inverse_index(n, k);
    let a = inverse_index(n, j);
    let b = inverse_index(n, k);
    assert(0 <= a * k) by (nonlinear_arith)
        requires
            a >= 0,
            k >= 0,
    ;
    assert(0 <= b * j) by (nonlinear_arith)
        requires
            b >= 0,
            j >= 0,
    ;
    if j == 0 {
        assert(a * k == 0) by (nonlinear_arith)
            requires
                a == 0,
        ;
        assert(b * j == 0) by (nonlinear_arith)
            requires
                j == 0,
        ;
    } else if k == 0 {
        assert(a * k == 0) by (nonlinear_arith)
            requires
                k == 0,
        ;
        assert(b * j == 0) by (nonlinear_arith)
            requires
                b == 0,
        ;
    } else {
        assert((n - j) * k == n * (k - j) + (n - k) * j) by (nonlinear_arith);
        lemma_mod_multiples_vanish(k - j, (n - k) * j, n);
    }
}

/// `c` times the value of `vals` at `y` is the dot product of `vals` with
/// anything congruent to the `c y^j`.
pub proof fn lemma_scaled_peval_as_dot(vals: Seq<int>, c: int, y: int, d: Seq<int>)
    requires
        d.len() == vals.len(),
        forall|j: int| 0 <= j < d.len() ==> eqm(#[trigger] d[j], c * pow(y, j as nat)),
    ensures
        eqm(c * peval(vals, y), dot(vals, d)),
    decreases vals.len(),
{
    if vals.len() == 0 {
        assert(c * 0 == 0);
    } else {
        let e = (vals.len() - 1) as nat;
        lemma_scaled_peval_as_dot(vals.drop_last(), c, y, d.drop_last());
        assert(eqm(d[vals.len() - 1], c * pow(y, e)));
        lemma_eqm_mul(vals.last(), vals.last(), d.last(), c * pow(y, e));
        lemma_eqm_add(
            c * peval(vals.drop_last(), y),
            dot(vals.drop_last(), d.drop_last()),
            vals.last() * (c * pow(y, e)),
            vals.last() * d.last(),
        );
        let r = peval(vals.drop_last(), y);
        let l = vals.last();
        let p = pow(y, e);
        assert(c * (r + l * p) == c * r + l * (c * p)) by (nonlinear_arith);
    }
}

/// The interpolating polynomial is the combination of the Lagrange
/// polynomials with the values as weights, at every `x`.
pub proof fn lemma_interpolation_linear(vals: Seq<int>, w: int, ninv: int, x: int)
    requires
        vals.len() >= 1,
        eqm(pow(w, vals.len()), 1),
    ensures
        eqm(
            peval(interpolation(vals, w, ninv), x),
            dot(vals, lagrange_values(vals.len() as int, w, ninv, x)),
        ),
{
    let n = vals.len() as int;
    let lags = Seq::new(n as nat, |j: int| lagrange(n, w, ninv, j));
    let mixed = Seq::new(n as nat, |k: int| dot(vals, column(lags, k)));
    let interp = interpolation(vals, w, ninv);
    lemma_exchange(vals, lags, n as nat, x);
    assert(Seq::new(lags.len(), |j: int| peval(lags[j], x)) =~= lagrange_values(n, w, ninv, x));
    assert forall|k: int| 0 <= k < n implies eqm(#[trigger] interp[k], mixed[k]) by {
        let y = pow(w, inverse_index(n, k) as nat);
        let col = column(lags, k);
        assert forall|j: int| 0 <= j < n implies eqm(
            #[trigger] col[j],
            ninv * pow(y, j as nat),
        ) by {
            lemma_inverse_index(n, j);
            lemma_inverse_index(n, k);
            lemma_inverse_index_swap(n, j, k);
            let a = inverse_index(n, j);
            let b = inverse_index(n, k);
            assert(col[j] == ninv * pow(pow(w, a as nat), k as nat));
            lemma_pow_multiplies(w, a as nat, k as nat);
            lemma_pow_multiplies(w, b as nat, j as nat);
            assert((a as nat) * (k as nat) == a * k) by (nonlinear_arith)
                requires
                    a >= 0,
                    k >= 0,
            ;
            assert((b as nat) * (j as nat) == b * j) by (nonlinear_arith)
                requires
                    b >= 0,
                    j >= 0,
            ;
            lemma_pow_same_residue(w, n, (a * k) as nat, (b * j) as nat);
            lemma_eqm_mul(
                ninv,
                ninv,
                pow(pow(w, a as nat), k as nat),
                pow(pow(w, b as nat), j as nat),
            );
        }
        lemma_scaled_peval_as_dot(vals, ninv, y, col);
    }
    lemma_peval_eqm(interp, mixed, x, x);
}

/// The dot product with a sequence that is one at `i` and zero elsewhere
/// picks the entry `i`.
pub proof fn lemma_dot_unit(vals: Seq<int>, d: Seq<int>, i: int)
    requires
        d.len() == vals.len(),
        forall|j: int|
            0 <= j < d.len() ==> eqm(
                #[trigger] d[j],
                if j == i {
                    1
                } else {
                    0
                },
            ),
    ensures
        eqm(
            dot(vals, d),
            if 0 <= i < vals.len() {
                vals[i]
            } else {
                0
            },
        ),
    decreases vals.len(),
{
    if vals.len() > 0 {
        let last = vals.len() - 1;
        lemma_dot_unit(vals.drop_last(), d.drop_last(), i);
        assert(eqm(d[last], if last == i { 1 } else { 0 }));
        lemma_eqm_mul(vals.last(), vals.last(), d.last(), if last == i { 1int } else { 0int });
        let rest = if 0 <= i < last {
            vals.drop_last()[i]
        } else {
            0
        };
        let term = vals.last() * (if last == i {
            1int
        } else {
            0int
        });
        lemma_eqm_add(dot(vals.drop_last(), d.drop_last()), rest, vals.last() * d.last(), term);
        assert(vals.last() * 1 == vals.last());
        assert(vals.last() * 0 == 0);
    }
}

/// The interpolating polynomial takes the values on the domain.
pub proof fn lemma_interpolation_exact(
    vals: Seq<int>,
    w: int,
    ninv: int,
    unit_inv: Seq<int>,
    i: int,
)
    requires
        domain_facts(w, vals.len() as int, ninv, unit_inv),
        0 <= i < vals.len(),
    ensures
        eqm(peval(interpolation(vals, w, ninv), pow(w, i as nat)), vals[i]),
{
    let n = vals.len() as int;
    let x = pow(w, i as nat);
    lemma_interpolation_linear(vals, w, ninv, x);
    let d = lagrange_values(n, w, ninv, x);
    assert forall|j: int| 0 <= j < d.len() implies eqm(
        #[trigger] d[j],
        if j == i {
            1
        } else {
            0
        },
    ) by {
        lemma_lagrange_at_point(w, n, ninv, unit_inv, j, i);
    }
    lemma_dot_unit(vals, d, i);
}

/// The value of the all-ones polynomial is the geometric sum.
pub proof fn lemma_peval_ones(n: nat, y: int)
    ensures
        peval(ones(n), y) == geom(y, n),
    decreases n,
{
    if n > 0 {
        lemma_peval_ones((n - 1) as nat, y);
        assert(ones(n).drop_last() =~= ones((n - 1) as nat));
        assert(1 * pow(y, (n - 1) as nat) == pow(y, (n - 1) as nat));
    }
}

/// The Lagrange polynomials of a domain add up to one, at every `x`.
pub proof fn lemma_lagrange_sum(w: int, n: int, ninv: int, unit_inv: Seq<int>, x: int)
    requires
        domain_facts(w, n, ninv, unit_inv),
    ensures
        eqm(dot(ones(n as nat), lagrange_values(n, w, ninv, x)), 1),
{
    let vals = ones(n as nat);
    let interp = interpolation(vals, w, ninv);
    lemma_interpolation_linear(vals, w, ninv, x);
    let unit = Seq::new(
        n as nat,
        |k: int|
            if k == 0 {
                1int
            } else {
                0int
            },
    );
    assert forall|k: int| 0 <= k < n implies eqm(#[trigger] interp[k], unit[k]) by {
        let e = inverse_index(n, k) as nat;
        let y = pow(w, e);
        lemma_inverse_index(n, k);
        lemma_peval_ones(n as nat, y);
        lemma_geom_at(w, n, ninv, unit_inv, y, e);
        let g = geom(y, n as nat);
        if k == 0 {
            lemma_small_mod(0, n as nat);
            lemma_eqm_mul(ninv, ninv, g, n);
        } else {
            lemma_small_mod((n - k) as nat, n as nat);
            lemma_eqm_mul(ninv, ninv, g, 0);
            assert(ninv * 0 == 0);
        }
    }
    lemma_peval_eqm(interp, unit, x, x);
    lemma_peval_zero_ext(seq![1int], unit, x);
    assert(seq![1int].drop_last() =~= Seq::<int>::empty());
    lemma_pow0(x);
    assert(peval(seq![1int], x) == 0 + 1 * pow(x, 0)) by {
        reveal_with_fuel(peval, 2);
    }
}

} // verus!
