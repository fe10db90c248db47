//! Congruences modulo the scalar-field order, and the few facts about them
//! that the rest of the crate reasons with.

use vstd::prelude::*;
use vstd::arithmetic::div_mod::{
    lemma_add_mod_noop, lemma_mod_twice, lemma_mul_mod_noop_general, lemma_small_mod,
    lemma_sub_mod_noop, lemma_mod_bound, lemma_mod_equivalence,
};
use vstd::arithmetic::power::pow;

verus! {

/// The integer that four little-endian 64-bit limbs stand for.
pub open spec fn limbs_value(l0: u64, l1: u64, l2: u64, l3: u64) -> int {
    l0 as int + 0x1_0000_0000_0000_0000 * (l1 as int + 0x1_0000_0000_0000_0000 * (l2 as int
        + 0x1_0000_0000_0000_0000 * (l3 as int)))
}

/// The order of the BN254 scalar field, which is also the order of the groups
/// G1 and G2:
/// 21888242871839275222246405745257275088548364400416034343698204186575808495617.
pub open spec fn modulus() -> int {
    limbs_value(
        4891460686036598785u64,
        2896914383306846353u64,
        13281191951274694749u64,
        3486998266802970665u64,
    )
}

/// Congruence modulo the field order.
pub open spec fn eqm(a: int, b: int) -> bool {
    a % modulus() == b % modulus()
}

/// The canonical representative of `a`.
pub open spec fn canon(a: int) -> int {
    a % modulus()
}

pub proof fn lemma_modulus_bounds()
    ensures
        modulus() > 0x1_0000_0000_0000_0000,
        modulus() < 0x1_0000_0000_0000_0000 * (0x1_0000_0000_0000_0000 * (0x1_0000_0000_0000_0000
            * 0x4000_0000_0000_0000)),
{
}

pub proof fn lemma_canon_range(a: int)
    ensures
        0 <= canon(a) < modulus(),
        eqm(canon(a), a),
{
    lemma_modulus_bounds();
    lemma_mod_bound(a, modulus());
    lemma_mod_twice(a, modulus());
}

pub proof fn lemma_canon_small(a: int)
    requires
        0 <= a < modulus(),
    ensures
        canon(a) == a,
{
    lemma_small_mod(a as nat, modulus() as nat);
}

/// Congruent canonical representatives are equal.
pub proof fn lemma_eqm_small(a: int, b: int)
    requires
        eqm(a, b),
        0 <= a < modulus(),
        0 <= b < modulus(),
    ensures
        a == b,
{
    lemma_canon_small(a);
    lemma_canon_small(b);
}

pub proof fn lemma_eqm_add(a: int, b: int, c: int, d: int)
    requires
        eqm(a, b),
        eqm(c, d),
    ensures
        eqm(a + c, b + d),
{
    lemma_modulus_bounds();
    lemma_add_mod_noop(a, c, modulus());
    lemma_add_mod_noop(b, d, modulus());
}

pub proof fn lemma_eqm_sub(a: int, b: int, c: int, d: int)
    requires
        eqm(a, b),
        eqm(c, d),
    ensures
        eqm(a - c, b - d),
{
    lemma_modulus_bounds();
    lemma_sub_mod_noop(a, c, modulus());
    lemma_sub_mod_noop(b, d, modulus());
}

pub proof fn lemma_eqm_mul(a: int, b: int, c: int, d: int)
    requires
        eqm(a, b),
        eqm(c, d),
    ensures
        eqm(a * c, b * d),
{
    lemma_modulus_bounds();
    lemma_mul_mod_noop_general(a, c, modulus());
    lemma_mul_mod_noop_general(b, d, modulus());
}

/// The sum of the products `a[i] * b[i]` of two sequences of one length
/// (zero where the lengths differ).
pub open spec fn dot(a: Seq<int>, b: Seq<int>) -> int
    decreases a.len(),
{
    if a.len() == 0 || a.len() != b.len() {
        0
    } else {
        dot(a.drop_last(), b.drop_last()) + a.last() * b.last()
    }
}

/// Appending one entry to each sequence adds one product.
pub proof fn lemma_dot_push(a: Seq<int>, b: Seq<int>, x: int, y: int)
    requires
        a.len() == b.len(),
    ensures
        dot(a.push(x), b.push(y)) == dot(a, b) + x * y,
{
    assert(a.push(x).drop_last() =~= a);
    assert(b.push(y).drop_last() =~= b);
}

/// Entrywise congruent sequences have congruent dot products.
pub proof fn lemma_dot_eqm(a: Seq<int>, b: Seq<int>, c: Seq<int>, d: Seq<int>)
    requires
        a.len() == b.len(),
        a.len() == c.len(),
        a.len() == d.len(),
        forall|i: int| 0 <= i < a.len() ==> eqm(#[trigger] a[i], c[i]),
        forall|i: int| 0 <= i < b.len() ==> eqm(#[trigger] b[i], d[i]),
    ensures
        eqm(dot(a, b), dot(c, d)),
    decreases a.len(),
{
    if a.len() > 0 {
        lemma_dot_eqm(a.drop_last(), b.drop_last(), c.drop_last(), d.drop_last());
        assert(eqm(a[a.len() - 1], c[a.len() - 1]));
        assert(eqm(b[a.len() - 1], d[a.len() - 1]));
        lemma_eqm_mul(a.last(), c.last(), b.last(), d.last());
        lemma_eqm_add(
            dot(a.drop_last(), b.drop_last()),
            dot(c.drop_last(), d.drop_last()),
            a.last() * b.last(),
            c.last() * d.last(),
        );
    }
}

/// `a` and `b` are congruent exactly when their difference is congruent to
/// zero.
pub proof fn lemma_eqm_diff(a: int, b: int)
    ensures
        eqm(a, b) <==> canon(a - b) == 0,
{
    lemma_modulus_bounds();
    lemma_mod_equivalence(a, b, modulus());
}

/// Powers of congruent bases are congruent.
pub proof fn lemma_eqm_pow(a: int, b: int, e: nat)
    requires
        eqm(a, b),
    ensures
        eqm(pow(a, e), pow(b, e)),
    decreases e,
{
    reveal(pow);
    if e > 0 {
        lemma_eqm_pow(a, b, (e - 1) as nat);
        lemma_eqm_mul(a, b, pow(a, (e - 1) as nat), pow(b, (e - 1) as nat));
    }
}

/// `pow(a, e + 1) == a * pow(a, e)`.
pub proof fn lemma_pow_succ(a: int, e: nat)
    ensures
        pow(a, e + 1) == a * pow(a, e),
        pow(a, e + 1) == pow(a, e) * a,
{
    reveal(pow);
    assert(a * pow(a, e) == pow(a, e) * a) by (nonlinear_arith);
}

/// The dot product of two sequences of two entries.
pub proof fn lemma_dot2(a0: int, a1: int, b0: int, b1: int)
    ensures
        dot(seq![a0, a1], seq![b0, b1]) == a0 * b0 + a1 * b1,
{
    let e = Seq::<int>::empty();
    assert(seq![a0, a1] =~= e.push(a0).push(a1));
    assert(seq![b0, b1] =~= e.push(b0).push(b1));
    lemma_dot_push(e, e, a0, b0);
    lemma_dot_push(e.push(a0), e.push(b0), a1, b1);
}

/// The dot product of two sequences of five entries.
pub proof fn lemma_dot5(a: Seq<int>, b: Seq<int>)
    requires
        a.len() == 5,
        b.len() == 5,
    ensures
        dot(a, b) == a[0] * b[0] + a[1] * b[1] + a[2] * b[2] + a[3] * b[3] + a[4] * b[4],
{
    let e = Seq::<int>::empty();
    assert(a =~= e.push(a[0]).push(a[1]).push(a[2]).push(a[3]).push(a[4]));
    assert(b =~= e.push(b[0]).push(b[1]).push(b[2]).push(b[3]).push(b[4]));
    lemma_dot_push(e, e, a[0], b[0]);
    lemma_dot_push(e.push(a[0]), e.push(b[0]), a[1], b[1]);
    lemma_dot_push(e.push(a[0]).push(a[1]), e.push(b[0]).push(b[1]), a[2], b[2]);
    lemma_dot_push(
        e.push(a[0]).push(a[1]).push(a[2]),
        e.push(b[0]).push(b[1]).push(b[2]),
        a[3],
        b[3],
    );
    lemma_dot_push(
        e.push(a[0]).push(a[1]).push(a[2]).push(a[3]),
        e.push(b[0]).push(b[1]).push(b[2]).push(b[3]),
        a[4],
        b[4],
    );
}

/// The dot product of two sequences of eight entries.
pub proof fn lemma_dot8(a: Seq<int>, b: Seq<int>)
    requires
        a.len() == 8,
        b.len() == 8,
    ensures
        dot(a, b) == a[0] * b[0] + a[1] * b[1] + a[2] * b[2] + a[3] * b[3] + a[4] * b[4] + a[5]
            * b[5] + a[6] * b[6] + a[7] * b[7],
{
    let a5 = a.take(5);
    let b5 = b.take(5);
    lemma_dot5(a5, b5);
    assert(a =~= a5.push(a[5]).push(a[6]).push(a[7]));
    assert(b =~= b5.push(b[5]).push(b[6]).push(b[7]));
    lemma_dot_push(a5, b5, a[5], b[5]);
    lemma_dot_push(a5.push(a[5]), b5.push(b[5]), a[6], b[6]);
    lemma_dot_push(a5.push(a[5]).push(a[6]), b5.push(b[5]).push(b[6]), a[7], b[7]);
}

/// A canonical product of numbers congruent to `a` and `b` is congruent to
/// `a * b`.
pub proof fn lemma_mul_c(x: int, a: int, y: int, b: int, r: int)
    requires
        eqm(x, a),
        eqm(y, b),
        r == canon(x * y),
    ensures
        eqm(r, a * b),
{
    lemma_canon_range(x * y);
    lemma_eqm_mul(x, a, y, b);
}

/// A canonical sum of numbers congruent to `a` and `b` is congruent to
/// `a + b`.
pub proof fn lemma_add_c(x: int, a: int, y: int, b: int, r: int)
    requires
        eqm(x, a),
        eqm(y, b),
        r == canon(x + y),
    ensures
        eqm(r, a + b),
{
    lemma_canon_range(x + y);
    lemma_eqm_add(x, a, y, b);
}

/// A canonical difference of numbers congruent to `a` and `b` is congruent
/// to `a - b`.
pub proof fn lemma_sub_c(x: int, a: int, y: int, b: int, r: int)
    requires
        eqm(x, a),
        eqm(y, b),
        r == canon(x - y),
    ensures
        eqm(r, a - b),
{
    lemma_canon_range(x - y);
    lemma_eqm_sub(x, a, y, b);
}

/// `v` is the canonical inverse of `a` modulo the field order.
pub open spec fn is_inverse(a: int, v: int) -> bool {
    0 <= v < modulus() && eqm(a * v, 1)
}

/// `a` has an inverse modulo the field order.
pub open spec fn invertible(a: int) -> bool {
    exists|v: int| #[trigger] is_inverse(a, v)
}

/// The canonical inverse of `a` modulo the field order, where there is one.
pub open spec fn finv(a: int) -> int {
    choose|v: int| #[trigger] is_inverse(a, v)
}

/// An inverse, where there is one, is canonical and is an inverse.
pub proof fn lemma_finv(a: int)
    requires
        invertible(a),
    ensures
        0 <= finv(a) < modulus(),
        eqm(a * finv(a), 1),
{
    assert(is_inverse(a, finv(a)));
}

/// There is at most one canonical inverse.
pub proof fn lemma_finv_unique(a: int, v: int)
    requires
        0 <= v < modulus(),
        eqm(a * v, 1),
    ensures
        invertible(a),
        finv(a) == v,
{
    assert(is_inverse(a, v));
    let w = finv(a);
    assert(is_inverse(a, w));
    lemma_eqm_mul(v, v, a * w, 1);
    lemma_eqm_mul(a * v, 1, w, w);
    assert(v * (a * w) == (a * v) * w) by (nonlinear_arith);
    assert(v * 1 == v);
    assert(1 * w == w);
    lemma_eqm_small(v, w);
}

/// Zero has no inverse.
pub proof fn lemma_zero_not_invertible(a: int)
    requires
        eqm(a, 0),
    ensures
        !invertible(a),
{
    lemma_modulus_bounds();
    lemma_canon_small(0);
    lemma_canon_small(1);
    assert forall|v: int| !(#[trigger] is_inverse(a, v)) by {
        lemma_eqm_mul(a, 0, v, v);
        assert(0 * v == 0);
    }
}

/// Congruent numbers have the same inverse.
pub proof fn lemma_finv_congruent(a: int, b: int)
    requires
        eqm(a, b),
        invertible(a),
    ensures
        invertible(b),
        finv(b) == finv(a),
{
    let w = finv(a);
    lemma_finv(a);
    lemma_eqm_mul(a, b, w, w);
    lemma_finv_unique(b, w);
}

/// `pow(b * b, k) == pow(b, 2 k)`.
pub proof fn lemma_pow_square(b: int, k: nat)
    ensures
        pow(b * b, k) == pow(b, 2 * k),
    decreases k,
{
    reveal(pow);
    if k > 0 {
        lemma_pow_square(b, (k - 1) as nat);
        lemma_pow_succ(b, (2 * k - 2) as nat);
        lemma_pow_succ(b, (2 * k - 1) as nat);
        let w = pow(b, (2 * k - 2) as nat);
        assert(b * (b * w) == (b * b) * w) by (nonlinear_arith);
    }
}

/// The dot product is symmetric.
pub proof fn lemma_dot_comm(a: Seq<int>, b: Seq<int>)
    ensures
        dot(a, b) == dot(b, a),
    decreases a.len(),
{
    if a.len() > 0 && a.len() == b.len() {
        lemma_dot_comm(a.drop_last(), b.drop_last());
        assert(a.last() * b.last() == b.last() * a.last()) by (nonlinear_arith);
    }
}

} // verus!
