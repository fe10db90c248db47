//! Evaluation domains: the powers of a root of unity of two-power order, with
//! interpolation over them.

use vstd::prelude::*;
use vstd::arithmetic::power::{pow, lemma_pow0};
use ark_bn254::Fr;
use ark_ff::{FftField, PrimeField};
use crate::error::Error;
use crate::field::{Scalar, all_wf, values};
use crate::modmath::{
    canon, eqm, modulus, lemma_canon_range, lemma_canon_small, lemma_eqm_diff, lemma_eqm_mul,
    lemma_pow_succ,
};
use crate::poly::{peval, poly_eval};

verus! {

/// `n` is a power of two.
pub open spec fn is_pow2(n: int) -> bool
    decreases n,
{
    if n <= 1 {
        n == 1
    } else {
        n % 2 == 0 && is_pow2(n / 2)
    }
}

/// A power of two is twice a power of two or one.
pub fn is_power_of_two(n: usize) -> (r: bool)
    ensures
        r == is_pow2(n as int),
{
    if n == 0 {
        return false;
    }
    let mut k = n;
    while k % 2 == 0
        invariant
            k >= 1,
            is_pow2(n as int) == is_pow2(k as int),
        decreases k,
    {
        k = k / 2;
    }
    k == 1
}

/// Of two powers of two, the greater is at least twice the smaller.
pub proof fn lemma_pow2_order(a: int, b: int)
    requires
        is_pow2(a),
        is_pow2(b),
        a > b,
    ensures
        a >= 2 * b,
    decreases b,
{
    if b > 1 {
        lemma_pow2_order(a / 2, b / 2);
    }
}

/// `d` is the size of the domain that holds `m` entries: the least power of
/// two that is not below `m`.
pub open spec fn is_padded_size(d: int, m: int) -> bool {
    is_pow2(d) && m <= d && d < 2 * m
}

/// The size of the domain that holds `m` entries, for `m >= 1`.
pub open spec fn padded_size(m: int) -> int {
    choose|d: int| is_padded_size(d, m)
}

/// There is one such size.
pub proof fn lemma_padded_size_unique(d: int, m: int)
    requires
        is_padded_size(d, m),
    ensures
        padded_size(m) == d,
{
    let e = padded_size(m);
    assert(is_padded_size(e, m));
    if e > d {
        lemma_pow2_order(e, d);
    }
    if d > e {
        lemma_pow2_order(d, e);
    }
}

/// Fewer entries than a power of two fit into a domain of at most that size.
pub proof fn lemma_padded_size_bound(d: int, m: int, n: int)
    requires
        is_padded_size(d, m),
        is_pow2(n),
        m <= n,
    ensures
        d <= n,
{
    if d > n {
        lemma_pow2_order(d, n);
    }
}

/// The largest domain size is a power of two.
pub proof fn lemma_max_domain_size_is_pow2()
    ensures
        is_pow2(max_domain_size()),
{
    reveal_with_fuel(is_pow2, 30);
}

/// Twice a power of two is a power of two.
pub proof fn lemma_pow2_double(d: int)
    requires
        is_pow2(d),
    ensures
        is_pow2(2 * d),
        d >= 1,
{
    assert((2 * d) / 2 == d);
    assert((2 * d) % 2 == 0);
}

/// Twice a power of two below the largest domain size is at most that size.
proof fn lemma_double_fits(d: int)
    requires
        is_pow2(d),
        d < max_domain_size(),
    ensures
        2 * d <= max_domain_size(),
{
    lemma_max_domain_size_is_pow2();
    lemma_pow2_order(max_domain_size(), d);
}

/// The size of the domain that holds `m` entries.
pub fn padded_size_of(m: usize) -> (d: usize)
    requires
        1 <= m <= max_domain_size(),
    ensures
        is_padded_size(d as int, m as int),
        d == padded_size(m as int),
        d <= max_domain_size(),
{
    let mut d: usize = 1;
    while d < m
        invariant
            1 <= m <= max_domain_size(),
            is_pow2(d as int),
            d < 2 * m,
            d <= max_domain_size(),
        decreases 2 * m - d,
    {
        proof {
            lemma_double_fits(d as int);
            lemma_pow2_double(d as int);
        }
        d = 2 * d;
    }
    proof {
        lemma_padded_size_unique(d as int, m as int);
    }
    d
}

/// The largest domain: two to the two-adicity of the field.
pub open spec fn max_domain_size() -> int {
    0x1000_0000
}

/// `w` has multiplicative order `n` modulo the field order.
pub open spec fn primitive_root(w: int, n: int) -> bool {
    &&& eqm(pow(w, n as nat), 1)
    &&& forall|d: int| 0 < d < n ==> !eqm(#[trigger] pow(w, d as nat), 1)
}

/// The root of unity of order `n` that arkworks uses for a domain of `n`
/// points.
pub uninterp spec fn root_of_unity(n: int) -> int;

/// `FftField::get_root_of_unity` for the scalar field, on sizes up to the
/// field's two-adicity: for a power of two it is an element of order `n`, and
/// there is none for any other `n`.
#[verifier::external_body]
fn fr_root_of_unity(n: usize) -> (r: Option<Scalar>)
    requires
        n <= max_domain_size(),
    ensures
        r.is_some() == is_pow2(n as int),
        r matches Some(w) ==> w.wf() && w@ == root_of_unity(n as int) && primitive_root(
            w@,
            n as int,
        ),
{
    match Fr::get_root_of_unity(n) {
        Some(w) => {
            let [l0, l1, l2, l3] = w.into_repr().0;
            Some(Scalar { l0, l1, l2, l3 })
        },
        None => None,
    }
}

/// The exponent of the inverse of the `i`-th element: `(n - i) mod n`.
pub open spec fn inverse_index(n: int, i: int) -> int {
    (n - i) % n
}

/// The coefficients of the polynomial of degree below `n` that takes the
/// values `vals` on the powers of `w`: coefficient `k` is `vals(w^-k) / n`,
/// where `vals` is read as a polynomial and `ninv` is the inverse of `n`.
pub open spec fn interpolation(vals: Seq<int>, w: int, ninv: int) -> Seq<int> {
    Seq::new(
        vals.len(),
        |k: int| ninv * peval(vals, pow(w, inverse_index(vals.len() as int, k) as nat)),
    )
}

/// The coefficients of the `i`-th Lagrange polynomial of the domain, which is
/// one at `w^i` and zero at the other points: coefficient `k` is
/// `w^(-i k) / n`.
pub open spec fn lagrange(n: int, w: int, ninv: int, i: int) -> Seq<int> {
    Seq::new(n as nat, |k: int| ninv * pow(pow(w, inverse_index(n, i) as nat), k as nat))
}

/// A domain of `size` points.
pub struct Domain {
    size: usize,
    omega: Scalar,
    size_inv: Scalar,
    elements: Vec<Scalar>,
    unit_inv: Ghost<Seq<int>>,
}

impl Domain {
    pub closed spec fn size(&self) -> int {
        self.size as int
    }

    /// The generator.
    pub closed spec fn omega(&self) -> int {
        self.omega@
    }

    /// The inverse of the size.
    pub closed spec fn size_inv(&self) -> int {
        self.size_inv@
    }

    /// The points, `omega^0` to `omega^(size - 1)`.
    pub closed spec fn elements(&self) -> Seq<Scalar> {
        self.elements@
    }

    /// For `0 < d < size`, the inverse of `omega^d - 1`.
    pub closed spec fn unit_inv(&self) -> Seq<int> {
        self.unit_inv@
    }

    pub open spec fn wf(&self) -> bool {
        &&& 1 <= self.size() <= max_domain_size()
        &&& is_pow2(self.size())
        &&& self.omega() == root_of_unity(self.size())
        &&& 0 <= self.omega() < modulus()
        &&& primitive_root(self.omega(), self.size())
        &&& 0 <= self.size_inv() < modulus()
        &&& eqm(self.size_inv() * self.size(), 1)
        &&& self.elements().len() == self.size()
        &&& all_wf(self.elements())
        &&& forall|i: int|
            0 <= i < self.size() ==> (#[trigger] self.elements()[i])@ == canon(
                pow(self.omega(), i as nat),
            )
        &&& self.unit_inv().len() == self.size()
        &&& forall|d: int|
            0 < d < self.size() ==> eqm(
                (pow(self.omega(), d as nat) - 1) * #[trigger] self.unit_inv()[d],
                1,
            )
    }

    /// The domain of `size` points. There is one exactly for the powers of
    /// two up to `2^28`.
    pub fn new(size: usize) -> (r: Result<Domain, Error>)
        ensures
            r.is_ok() == (is_pow2(size as int) && size <= max_domain_size()),
            r matches Ok(d) ==> d.wf() && d.size() == size,
            r matches Err(e) ==> e == Error::TableSizeError,
    {
        if size > 0x1000_0000 {
            return Err(Error::TableSizeError);
        }
        let omega = match fr_root_of_unity(size) {
            Some(w) => w,
            None => {
                return Err(Error::TableSizeError);
            },
        };
        assert(size >= 1);
        let one = Scalar::one();
        let count = Scalar::from_u64(size as u64);
        let size_inv = match count.inverse() {
            Some(v) => v,
            None => {
                return Err(Error::TableSizeError);
            },
        };
        proof {
            assert(size as int * size_inv@ == size_inv@ * size as int) by (nonlinear_arith);
        }
        let mut elements: Vec<Scalar> = Vec::new();
        let ghost mut unit_inv: Seq<int> = Seq::empty();
        let mut cur = one;
        proof {
            lemma_pow0(omega@);
            lemma_canon_small(1);
        }
        let mut i: usize = 0;
        while i < size
            invariant
                i <= size,
                omega.wf(),
                one.wf(),
                one@ == 1,
                cur.wf(),
                cur@ == canon(pow(omega@, i as nat)),
                primitive_root(omega@, size as int),
                elements.len() == i,
                all_wf(elements@),
                forall|k: int|
                    0 <= k < i ==> (#[trigger] elements@[k])@ == canon(pow(omega@, k as nat)),
                unit_inv.len() == i,
                forall|d: int|
                    0 < d < i ==> eqm((pow(omega@, d as nat) - 1) * #[trigger] unit_inv[d], 1),
            decreases size - i,
        {
            elements.push(cur);
            // The inverse of `omega^i - 1` is kept as a witness that the points
            // differ pairwise by units, on which interpolation rests.
            let diff = cur.sub(&one);
            proof {
                lemma_canon_range(pow(omega@, i as nat));
                lemma_canon_range(cur@ - 1);
            }
            if i > 0 {
                proof {
                    let d = i as int;
                    assert(!eqm(pow(omega@, d as nat), 1));
                    lemma_eqm_diff(cur@, 1);
                    lemma_canon_small(1);
                }
                let inv = match diff.inverse() {
                    Some(v) => v,
                    None => one,
                };
                proof {
                    lemma_eqm_diff_cong(cur@, pow(omega@, i as nat));
                    lemma_eqm_mul(diff@, pow(omega@, i as nat) - 1, inv@, inv@);
                    let ghost before = unit_inv;
                    unit_inv = unit_inv.push(inv@);
                    assert forall|d: int| 0 < d < i + 1 implies eqm(
                        (pow(omega@, d as nat) - 1) * #[trigger] unit_inv[d],
                        1,
                    ) by {
                        if d < i {
                            assert(unit_inv[d] == before[d]);
                        }
                    }
                }
            } else {
                proof {
                    unit_inv = unit_inv.push(0);
                }
            }
            let next = cur.mul(&omega);
            proof {
                lemma_pow_succ(omega@, i as nat);
                lemma_eqm_mul(cur@, pow(omega@, i as nat), omega@, omega@);
                lemma_canon_range(cur@ * omega@);
            }
            cur = next;
            i += 1;
        }
        Ok(Domain { size, omega, size_inv, elements, unit_inv: Ghost(unit_inv) })
    }

    /// The number of points.
    pub fn len(&self) -> (r: usize)
        ensures
            r == self.size(),
    {
        self.size
    }

    /// The `i`-th point, `omega^i`.
    pub fn element(&self, i: usize) -> (r: Scalar)
        requires
            self.wf(),
            i < self.size(),
        ensures
            r.wf(),
            r@ == canon(pow(self.omega(), i as nat)),
    {
        self.elements[i]
    }

    /// The inverse of the `i`-th point, which is the point of index
    /// `(size - i) mod size`.
    pub fn inverse_element(&self, i: usize) -> (r: Scalar)
        requires
            self.wf(),
            i < self.size(),
        ensures
            r.wf(),
            r@ == canon(pow(self.omega(), inverse_index(self.size(), i as int) as nat)),
    {
        let k = if i == 0 {
            0
        } else {
            self.size - i
        };
        proof {
            if i == 0 {
                assert((self.size() - 0) % self.size() == 0) by (nonlinear_arith)
                    requires
                        self.size() >= 1,
                ;
            } else {
                vstd::arithmetic::div_mod::lemma_small_mod(
                    (self.size() - i) as nat,
                    self.size() as nat,
                );
            }
        }
        self.elements[k]
    }

    /// The inverse of the size, as a field element.
    pub fn size_inverse(&self) -> (r: Scalar)
        requires
            self.wf(),
        ensures
            r.wf(),
            r@ == self.size_inv(),
    {
        self.size_inv
    }

    /// The coefficients of the polynomial of degree below the size that takes
    /// the values `vals` on the domain.
    pub fn interpolate(&self, vals: &Vec<Scalar>) -> (r: Vec<Scalar>)
        requires
            self.wf(),
            all_wf(vals@),
            vals.len() == self.size(),
        ensures
            all_wf(r@),
            r.len() == vals.len(),
            forall|k: int|
                0 <= k < r.len() ==> (#[trigger] r[k])@ == canon(
                    interpolation(values(vals@), self.omega(), self.size_inv())[k],
                ),
    {
        let mut out: Vec<Scalar> = Vec::new();
        let mut k: usize = 0;
        while k < self.size
            invariant
                k <= self.size,
                self.wf(),
                all_wf(vals@),
                vals.len() == self.size(),
                out.len() == k,
                all_wf(out@),
                forall|j: int|
                    0 <= j < k ==> (#[trigger] out[j])@ == canon(
                        interpolation(values(vals@), self.omega(), self.size_inv())[j],
                    ),
            decreases self.size - k,
        {
            let x = self.inverse_element(k);
            let y = poly_eval(vals, &x);
            let c = self.size_inv.mul(&y);
            proof {
                let e = inverse_index(self.size(), k as int) as nat;
                let exact = peval(values(vals@), pow(self.omega(), e));
                lemma_canon_range(pow(self.omega(), e));
                crate::poly::lemma_peval_eqm(
                    values(vals@),
                    values(vals@),
                    x@,
                    pow(self.omega(), e),
                );
                lemma_canon_range(peval(values(vals@), x@));
                lemma_eqm_mul(self.size_inv(), self.size_inv(), y@, exact);
                lemma_canon_range(self.size_inv() * y@);
            }
            out.push(c);
            k += 1;
        }
        out
    }

    /// The coefficients of the `i`-th Lagrange polynomial.
    pub fn lagrange_poly(&self, i: usize) -> (r: Vec<Scalar>)
        requires
            self.wf(),
            i < self.size(),
        ensures
            all_wf(r@),
            r.len() == self.size(),
            forall|k: int|
                0 <= k < r.len() ==> (#[trigger] r[k])@ == canon(
                    lagrange(self.size(), self.omega(), self.size_inv(), i as int)[k],
                ),
    {
        let u = self.inverse_element(i);
        let ghost base = pow(self.omega(), inverse_index(self.size(), i as int) as nat);
        let mut out: Vec<Scalar> = Vec::new();
        let mut power = Scalar::one();
        proof {
            lemma_pow0(base);
            lemma_canon_small(1);
        }
        let mut k: usize = 0;
        while k < self.size
            invariant
                k <= self.size,
                self.wf(),
                i < self.size(),
                u.wf(),
                u@ == canon(base),
                base == pow(self.omega(), inverse_index(self.size(), i as int) as nat),
                power.wf(),
                power@ == canon(pow(base, k as nat)),
                out.len() == k,
                all_wf(out@),
                forall|j: int|
                    0 <= j < k ==> (#[trigger] out[j])@ == canon(
                        lagrange(self.size(), self.omega(), self.size_inv(), i as int)[j],
                    ),
            decreases self.size - k,
        {
            let c = self.size_inv.mul(&power);
            let next = power.mul(&u);
            proof {
                lemma_canon_range(pow(base, k as nat));
                lemma_canon_range(base);
                lemma_eqm_mul(self.size_inv(), self.size_inv(), power@, pow(base, k as nat));
                lemma_canon_range(self.size_inv() * power@);
                lemma_pow_succ(base, k as nat);
                lemma_eqm_mul(power@, pow(base, k as nat), u@, base);
                lemma_canon_range(power@ * u@);
            }
            out.push(c);
            power = next;
            k += 1;
        }
        out
    }
}

/// The difference with one of two congruent numbers is congruent.
proof fn lemma_eqm_diff_cong(a: int, b: int)
    requires
        eqm(a, b),
    ensures
        eqm(canon(a - 1), b - 1),
{
    crate::modmath::lemma_eqm_sub(a, b, 1, 1);
    lemma_canon_range(a - 1);
}

} // verus!
