//! Elements of the BN254 scalar field, held as four canonical 64-bit limbs.
//! The arithmetic itself is arkworks'.

use vstd::prelude::*;
use ark_bn254::Fr;
use ark_ff::{BigInteger256, Field, PrimeField};
use vstd::bytes::{spec_u64_to_le_bytes, u64_to_le_bytes};
use vstd::arithmetic::power::{pow, lemma_pow0};
use crate::modmath::{
    canon, eqm, finv, invertible, limbs_value, modulus, lemma_canon_range, lemma_canon_small,
    lemma_eqm_mul, lemma_eqm_pow, lemma_eqm_small, lemma_finv_unique, lemma_modulus_bounds,
    lemma_zero_not_invertible,
    lemma_pow_square, lemma_pow_succ,
};

verus! {

/// An element of the scalar field: the integer `self@`, below the field order.
#[derive(Clone, Copy, Debug)]
pub struct Scalar {
    pub(crate) l0: u64,
    pub(crate) l1: u64,
    pub(crate) l2: u64,
    pub(crate) l3: u64,
}

impl View for Scalar {
    type V = int;

    open spec fn view(&self) -> int {
        limbs_value(self.limb(0), self.limb(1), self.limb(2), self.limb(3))
    }
}

/// The values of a sequence of scalars.
pub open spec fn values(v: Seq<Scalar>) -> Seq<int> {
    Seq::new(v.len(), |i: int| v[i]@)
}

/// Every element is canonical.
pub open spec fn all_wf(v: Seq<Scalar>) -> bool {
    forall|i: int| 0 <= i < v.len() ==> (#[trigger] v[i]).wf()
}

/// `Fr`'s sum: the canonical representative of `a + b`.
#[verifier::external_body]
fn fr_add(a: &Scalar, b: &Scalar) -> (r: Scalar)
    requires
        a.wf(),
        b.wf(),
    ensures
        r.wf(),
        r@ == (a@ + b@) % modulus(),
{
    let x = Fr::from_repr(BigInteger256([a.l0, a.l1, a.l2, a.l3])).unwrap();
    let y = Fr::from_repr(BigInteger256([b.l0, b.l1, b.l2, b.l3])).unwrap();
    let [l0, l1, l2, l3] = (x + y).into_repr().0;
    Scalar { l0, l1, l2, l3 }
}

/// `Fr`'s difference: the canonical representative of `a - b`.
#[verifier::external_body]
fn fr_sub(a: &Scalar, b: &Scalar) -> (r: Scalar)
    requires
        a.wf(),
        b.wf(),
    ensures
        r.wf(),
        r@ == (a@ - b@) % modulus(),
{
    let x = Fr::from_repr(BigInteger256([a.l0, a.l1, a.l2, a.l3])).unwrap();
    let y = Fr::from_repr(BigInteger256([b.l0, b.l1, b.l2, b.l3])).unwrap();
    let [l0, l1, l2, l3] = (x - y).into_repr().0;
    Scalar { l0, l1, l2, l3 }
}

/// `Fr`'s product: the canonical representative of `a * b`.
#[verifier::external_body]
fn fr_mul(a: &Scalar, b: &Scalar) -> (r: Scalar)
    requires
        a.wf(),
        b.wf(),
    ensures
        r.wf(),
        r@ == (a@ * b@) % modulus(),
{
    let x = Fr::from_repr(BigInteger256([a.l0, a.l1, a.l2, a.l3])).unwrap();
    let y = Fr::from_repr(BigInteger256([b.l0, b.l1, b.l2, b.l3])).unwrap();
    let [l0, l1, l2, l3] = (x * y).into_repr().0;
    Scalar { l0, l1, l2, l3 }
}

/// `Field::inverse` on a nonzero element: the canonical `r` with
/// `a * r` congruent to one.
#[verifier::external_body]
fn fr_inverse(a: &Scalar) -> (r: Scalar)
    requires
        a.wf(),
        a@ != 0,
    ensures
        r.wf(),
        (a@ * r@) % modulus() == 1,
{
    let x = Fr::from_repr(BigInteger256([a.l0, a.l1, a.l2, a.l3])).unwrap();
    let [l0, l1, l2, l3] = x.inverse().unwrap().into_repr().0;
    Scalar { l0, l1, l2, l3 }
}

/// Four limbs below two to the 64 determine their value.
pub proof fn lemma_limbs_injective(a0: u64, a1: u64, a2: u64, a3: u64, b0: u64, b1: u64, b2: u64, b3: u64)
    requires
        limbs_value(a0, a1, a2, a3) == limbs_value(b0, b1, b2, b3),
    ensures
        a0 == b0,
        a1 == b1,
        a2 == b2,
        a3 == b3,
{
}

/// Scalars of the same value are the same.
pub proof fn lemma_scalar_same_value(a: Scalar, b: Scalar)
    requires
        a@ == b@,
    ensures
        a == b,
{
    lemma_limbs_injective(a.l0, a.l1, a.l2, a.l3, b.l0, b.l1, b.l2, b.l3);
}

impl Scalar {
    /// The limb of weight `2^(64 i)`, for `i` from 0 to 3.
    pub closed spec fn limb(&self, i: int) -> u64 {
        if i == 0 {
            self.l0
        } else if i == 1 {
            self.l1
        } else if i == 2 {
            self.l2
        } else {
            self.l3
        }
    }

    /// The value is below the field order.
    pub open spec fn wf(&self) -> bool {
        self@ < modulus()
    }

    pub fn zero() -> (r: Scalar)
        ensures
            r.wf(),
            r@ == 0,
    {
        Scalar::from_u64(0)
    }

    pub fn one() -> (r: Scalar)
        ensures
            r.wf(),
            r@ == 1,
    {
        Scalar::from_u64(1)
    }

    pub fn from_u64(n: u64) -> (r: Scalar)
        ensures
            r.wf(),
            r@ == n,
    {
        proof {
            lemma_modulus_bounds();
        }
        Scalar { l0: n, l1: 0, l2: 0, l3: 0 }
    }

    /// The scalar with the given little-endian limbs, if they are canonical.
    pub fn from_limbs(l0: u64, l1: u64, l2: u64, l3: u64) -> (r: Option<Scalar>)
        ensures
            r.is_some() == (limbs_value(l0, l1, l2, l3) < modulus()),
            r.is_some() ==> r.unwrap().wf() && r.unwrap()@ == limbs_value(l0, l1, l2, l3),
    {
        let below = l3 < 3486998266802970665u64 || (l3 == 3486998266802970665u64 && (l2
            < 13281191951274694749u64 || (l2 == 13281191951274694749u64 && (l1
            < 2896914383306846353u64 || (l1 == 2896914383306846353u64 && l0
            < 4891460686036598785u64)))));
        if below {
            Some(Scalar { l0, l1, l2, l3 })
        } else {
            None
        }
    }

    /// The little-endian limbs of the value.
    pub fn to_limbs(&self) -> (r: (u64, u64, u64, u64))
        ensures
            limbs_value(r.0, r.1, r.2, r.3) == self@,
    {
        (self.l0, self.l1, self.l2, self.l3)
    }

    pub fn add(&self, other: &Scalar) -> (r: Scalar)
        requires
            self.wf(),
            other.wf(),
        ensures
            r.wf(),
            r@ == (self@ + other@) % modulus(),
    {
        fr_add(self, other)
    }

    pub fn sub(&self, other: &Scalar) -> (r: Scalar)
        requires
            self.wf(),
            other.wf(),
        ensures
            r.wf(),
            r@ == (self@ - other@) % modulus(),
    {
        fr_sub(self, other)
    }

    pub fn mul(&self, other: &Scalar) -> (r: Scalar)
        requires
            self.wf(),
            other.wf(),
        ensures
            r.wf(),
            r@ == (self@ * other@) % modulus(),
    {
        fr_mul(self, other)
    }

    /// The multiplicative inverse, or `None` for zero.
    pub fn inverse(&self) -> (r: Option<Scalar>)
        requires
            self.wf(),
        ensures
            r.is_some() == (self@ != 0),
            r.is_some() == invertible(self@),
            r.is_some() ==> r.unwrap().wf() && (self@ * r.unwrap()@) % modulus() == 1
                && r.unwrap()@ == finv(self@),
    {
        if self.is_zero() {
            proof {
                lemma_zero_not_invertible(0);
            }
            None
        } else {
            let v = fr_inverse(self);
            proof {
                lemma_canon_small(1);
                lemma_finv_unique(self@, v@);
            }
            Some(v)
        }
    }

    /// The 32 bytes of the value, least significant first.
    pub open spec fn bytes(&self) -> Seq<u8> {
        spec_u64_to_le_bytes(self.limb(0)) + spec_u64_to_le_bytes(self.limb(1))
            + spec_u64_to_le_bytes(self.limb(2)) + spec_u64_to_le_bytes(self.limb(3))
    }

    /// The canonical encoding: 32 bytes, least significant first.
    pub fn to_bytes(&self) -> (r: Vec<u8>)
        ensures
            r@ == self.bytes(),
    {
        let mut out = u64_to_le_bytes(self.l0);
        let mut b1 = u64_to_le_bytes(self.l1);
        let mut b2 = u64_to_le_bytes(self.l2);
        let mut b3 = u64_to_le_bytes(self.l3);
        out.append(&mut b1);
        out.append(&mut b2);
        out.append(&mut b3);
        out
    }

    /// The power `self^e`, by squaring and multiplying.
    pub fn pow(&self, e: usize) -> (r: Scalar)
        requires
            self.wf(),
        ensures
            r.wf(),
            r@ == canon(pow(self@, e as nat)),
    {
        let mut result = Scalar::one();
        let mut base = *self;
        let mut rest = e;
        proof {
            lemma_canon_range(pow(self@, e as nat));
            assert(1 * pow(self@, e as nat) == pow(self@, e as nat));
        }
        while rest > 0
            invariant
                result.wf(),
                base.wf(),
                eqm(result@ * pow(base@, rest as nat), pow(self@, e as nat)),
            decreases rest,
        {
            let ghost old_result = result@;
            let ghost old_base = base@;
            let ghost old_rest = rest as nat;
            if rest % 2 == 1 {
                result = result.mul(&base);
                rest = rest - 1;
                proof {
                    lemma_pow_succ(old_base, rest as nat);
                    lemma_canon_range(old_result * old_base);
                    lemma_eqm_mul(
                        result@,
                        old_result * old_base,
                        pow(old_base, rest as nat),
                        pow(old_base, rest as nat),
                    );
                    assert((old_result * old_base) * pow(old_base, rest as nat) == old_result * (
                    old_base * pow(old_base, rest as nat))) by (nonlinear_arith);
                }
            }
            let ghost half = (rest / 2) as nat;
            proof {
                assert(rest as nat == 2 * half);
                lemma_pow_square(old_base, half);
                lemma_canon_range(old_base * old_base);
                lemma_eqm_pow(canon(old_base * old_base), old_base * old_base, half);
                lemma_eqm_mul(
                    result@,
                    result@,
                    pow(canon(old_base * old_base), half),
                    pow(old_base * old_base, half),
                );
            }
            base = base.mul(&base);
            rest = rest / 2;
        }
        proof {
            lemma_pow0(base@);
            assert(result@ * 1 == result@);
            lemma_eqm_small(result@, canon(pow(self@, e as nat)));
        }
        result
    }

    pub fn is_zero(&self) -> (r: bool)
        ensures
            r == (self@ == 0),
    {
        self.l0 == 0 && self.l1 == 0 && self.l2 == 0 && self.l3 == 0
    }

    /// Whether the value is below the other's.
    pub fn lt(&self, other: &Scalar) -> (r: bool)
        ensures
            r == (self@ < other@),
    {
        self.l3 < other.l3 || (self.l3 == other.l3 && (self.l2 < other.l2 || (self.l2 == other.l2
            && (self.l1 < other.l1 || (self.l1 == other.l1 && self.l0 < other.l0)))))
    }

    /// Equality of values.
    pub fn eq(&self, other: &Scalar) -> (r: bool)
        ensures
            r == (self@ == other@),
    {
        proof {
            if self@ == other@ {
                lemma_limbs_injective(
                    self.l0, self.l1, self.l2, self.l3,
                    other.l0, other.l1, other.l2, other.l3,
                );
            }
        }
        self.l0 == other.l0 && self.l1 == other.l1 && self.l2 == other.l2 && self.l3 == other.l3
    }
}

} // verus!
