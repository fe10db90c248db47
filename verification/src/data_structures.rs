//! The prover's key, the witness, the statement and the proof.

use vstd::prelude::*;
use crate::domain::{Domain, interpolation, is_padded_size, max_domain_size, padded_size_of};
use crate::error::Error;
use crate::field::{Scalar, all_wf, values};
use crate::group::G1Point;
use crate::modmath::canon;
use crate::poly::truncated;
use crate::utils::{g1_srs_wf, g1_tau};

verus! {

/// The prover's part of the reference string: the powers of the secret in G1.
pub struct ProvingKey {
    pub srs_g1: Vec<G1Point>,
}

impl ProvingKey {
    pub open spec fn wf(&self) -> bool {
        g1_srs_wf(self.srs_g1@)
    }

    /// The secret scalar of the reference string.
    pub open spec fn tau(&self) -> int {
        g1_tau(self.srs_g1@)
    }
}

/// The entries padded to `d` with copies of the first.
pub open spec fn padding(vals: Seq<Scalar>, d: nat) -> Seq<Scalar> {
    Seq::new(
        d,
        |j: int|
            if j < vals.len() {
                vals[j]
            } else {
                vals[0]
            },
    )
}

/// The private vector, with the polynomial that carries it. The entries are
/// padded with copies of the first up to the size of the witness domain, the
/// least power of two that holds them; the polynomial takes the padded
/// entries on that domain. A copy of an entry is in the table where the
/// entry is, so the padding claims nothing new.
pub struct Witness {
    pub size: usize,
    pub values: Vec<Scalar>,
    pub domain_size: usize,
    pub padded: Vec<Scalar>,
    pub f: Vec<Scalar>,
    pub domain: Domain,
}

impl Witness {
    /// The coefficients of the witness polynomial.
    pub open spec fn coeffs(&self) -> Seq<int> {
        values(self.f@)
    }

    pub open spec fn wf(&self) -> bool {
        &&& self.size == self.values.len()
        &&& self.size >= 1
        &&& is_padded_size(self.domain_size as int, self.size as int)
        &&& self.domain.wf()
        &&& self.domain.size() == self.domain_size
        &&& self.padded@ == padding(self.values@, self.domain_size as nat)
        &&& all_wf(self.values@)
        &&& all_wf(self.padded@)
        &&& all_wf(self.f@)
        &&& self.f.len() == self.domain_size
        &&& forall|k: int|
            0 <= k < self.domain_size ==> (#[trigger] self.f[k])@ == canon(
                interpolation(values(self.padded@), self.domain.omega(), self.domain.size_inv())[k],
            )
    }

    /// The witness of the given values: at least one, at most `2^28`.
    pub fn new(values: &Vec<Scalar>) -> (r: Result<Witness, Error>)
        requires
            all_wf(values@),
        ensures
            r.is_ok() == (1 <= values.len() <= max_domain_size()),
            r matches Ok(w) ==> w.wf() && w.values@ == values@,
            r matches Err(e) ==> e == Error::SizingError,
    {
        let size = values.len();
        if size < 1 || size > 0x1000_0000 {
            return Err(Error::SizingError);
        }
        let domain_size = padded_size_of(size);
        let domain = match Domain::new(domain_size) {
            Ok(d) => d,
            Err(_) => {
                return Err(Error::SizingError);
            },
        };
        let mut padded: Vec<Scalar> = Vec::new();
        let mut j: usize = 0;
        while j < domain_size
            invariant
                j <= domain_size,
                1 <= size <= domain_size,
                size == values.len(),
                all_wf(values@),
                padded.len() == j,
                all_wf(padded@),
                forall|i: int|
                    0 <= i < j ==> #[trigger] padded[i] == padding(values@, domain_size as nat)[i],
            decreases domain_size - j,
        {
            if j < size {
                padded.push(values[j]);
            } else {
                padded.push(values[0]);
            }
            j += 1;
        }
        proof {
            assert(padded@ =~= padding(values@, domain_size as nat));
        }
        let f = domain.interpolate(&padded);
        let copy = truncated(values, size);
        proof {
            assert(copy@ =~= values@);
        }
        Ok(Witness { size, values: copy, domain_size, padded, f, domain })
    }
}

/// The public claim: the commitment to the witness polynomial.
#[derive(Clone, Copy, Debug)]
pub struct Statement {
    pub f: G1Point,
}

/// A lookup proof: six commitments, three evaluations and two opening proofs.
#[derive(Clone, Copy, Debug)]
pub struct Proof {
    /// The commitment to the multiplicity polynomial.
    pub m: G1Point,
    /// The commitment to the table-side polynomial `A`.
    pub a: G1Point,
    /// The aggregate of the cached quotients.
    pub q_a: G1Point,
    /// The commitment to `(B - B(0)) / X`, for the witness-side polynomial `B`.
    pub b_0: G1Point,
    /// The commitment to the witness-side quotient.
    pub q_b: G1Point,
    /// The commitment that bounds the degree of `B`.
    pub p: G1Point,
    /// The value of `(B - B(0)) / X` at the evaluation point.
    pub b0_gamma: Scalar,
    /// The value of the witness polynomial at the evaluation point.
    pub f_gamma: Scalar,
    /// The value of `A` at zero.
    pub a_0: Scalar,
    /// The batched opening proof at the evaluation point.
    pub pi_gamma: G1Point,
    /// The opening proof of `A` at zero.
    pub a0_proof: G1Point,
}

impl Proof {
    /// The proof as it goes over the wire: the encodings of the six
    /// commitments and the two opening proofs, then those of the three
    /// evaluations, 608 bytes in all.
    pub open spec fn encoding(&self) -> Seq<u8> {
        self.m@ + self.a@ + self.q_a@ + self.b_0@ + self.q_b@ + self.p@ + self.pi_gamma@
            + self.a0_proof@ + self.b0_gamma.bytes() + self.f_gamma.bytes() + self.a_0.bytes()
    }

    /// The wire encoding of the proof.
    pub fn to_bytes(&self) -> (r: Vec<u8>)
        ensures
            r@ == self.encoding(),
    {
        let mut out = self.m.to_bytes();
        let mut part = self.a.to_bytes();
        out.append(&mut part);
        part = self.q_a.to_bytes();
        out.append(&mut part);
        part = self.b_0.to_bytes();
        out.append(&mut part);
        part = self.q_b.to_bytes();
        out.append(&mut part);
        part = self.p.to_bytes();
        out.append(&mut part);
        part = self.pi_gamma.to_bytes();
        out.append(&mut part);
        part = self.a0_proof.to_bytes();
        out.append(&mut part);
        part = self.b0_gamma.to_bytes();
        out.append(&mut part);
        part = self.f_gamma.to_bytes();
        out.append(&mut part);
        part = self.a_0.to_bytes();
        out.append(&mut part);
        out
    }

    pub open spec fn wf(&self) -> bool {
        &&& self.m.wf()
        &&& self.a.wf()
        &&& self.q_a.wf()
        &&& self.b_0.wf()
        &&& self.q_b.wf()
        &&& self.p.wf()
        &&& self.b0_gamma.wf()
        &&& self.f_gamma.wf()
        &&& self.a_0.wf()
        &&& self.pi_gamma.wf()
        &&& self.a0_proof.wf()
    }
}

} // verus!
