//! The Fiat-Shamir transcript: protocol messages are absorbed under labels,
//! and the challenges are squeezed out of everything absorbed so far.

use vstd::prelude::*;
use vstd::bytes::{spec_u64_to_le_bytes, u64_to_le_bytes};
use vstd::slice::slice_to_vec;
use vstd::string::StringSliceAdditionalSpecFns;
use crate::field::Scalar;
use crate::group::{G1Point, G2Point};
use crate::rng::{FsState, SimpleHashFiatShamirRng};

verus! {

/// The domain separator: the ASCII bytes of `CQ-1.0`, naming the protocol and
/// its version.
pub open spec fn protocol_name() -> Seq<u8> {
    seq![0x43u8, 0x51u8, 0x2du8, 0x31u8, 0x2eu8, 0x30u8]
}

/// A labelled message as it is hashed: the label and the data, each behind
/// its length as eight little-endian bytes.
pub open spec fn frame(label: Seq<u8>, data: Seq<u8>) -> Seq<u8> {
    spec_u64_to_le_bytes(label.len() as u64) + label + spec_u64_to_le_bytes(data.len() as u64)
        + data
}

/// The transcript of one run of the protocol.
#[derive(Clone, Copy, Debug)]
pub struct Transcript {
    rng: SimpleHashFiatShamirRng,
}

impl View for Transcript {
    type V = FsState;

    closed spec fn view(&self) -> FsState {
        self.rng@
    }
}

/// Appends `tail` to `out`.
fn append_bytes(out: &mut Vec<u8>, tail: &Vec<u8>)
    ensures
        final(out)@ == old(out)@ + tail@,
{
    let mut i: usize = 0;
    while i < tail.len()
        invariant
            i <= tail.len(),
            out@ == old(out)@ + tail@.take(i as int),
        decreases tail.len() - i,
    {
        out.push(tail[i]);
        proof {
            assert((old(out)@ + tail@.take(i as int)).push(tail@[i as int]) =~= old(out)@
                + tail@.take(i + 1));
        }
        i += 1;
    }
    proof {
        assert(tail@.take(tail.len() as int) =~= tail@);
    }
}

impl Transcript {
    /// A transcript that has absorbed nothing but the protocol's name.
    pub fn new() -> (r: Transcript)
        ensures
            r@ == FsState::initial(protocol_name()),
    {
        let name: Vec<u8> = vec![0x43u8, 0x51u8, 0x2du8, 0x31u8, 0x2eu8, 0x30u8];
        proof {
            assert(name@ =~= protocol_name());
        }
        Transcript { rng: SimpleHashFiatShamirRng::initialize(&name) }
    }

    /// Absorbs `data` under `label`.
    pub fn absorb(&mut self, label: &str, data: &Vec<u8>)
        ensures
            final(self)@ == old(self)@.absorb(frame(label.spec_bytes(), data@)),
    {
        let name = slice_to_vec(label.as_bytes());
        let mut message = u64_to_le_bytes(name.len() as u64);
        append_bytes(&mut message, &name);
        let size = u64_to_le_bytes(data.len() as u64);
        append_bytes(&mut message, &size);
        append_bytes(&mut message, data);
        self.rng.absorb(&message);
    }

    /// Absorbs the encoding of a point of G1.
    pub fn absorb_g1(&mut self, label: &str, point: &G1Point)
        ensures
            final(self)@ == old(self)@.absorb(frame(label.spec_bytes(), point@)),
    {
        let data = point.to_bytes();
        self.absorb(label, &data);
    }

    /// Absorbs the encoding of a point of G2.
    pub fn absorb_g2(&mut self, label: &str, point: &G2Point)
        ensures
            final(self)@ == old(self)@.absorb(frame(label.spec_bytes(), point@)),
    {
        let data = point.to_bytes();
        self.absorb(label, &data);
    }

    /// Absorbs the canonical encoding of a scalar.
    pub fn absorb_scalar(&mut self, label: &str, value: &Scalar)
        ensures
            final(self)@ == old(self)@.absorb(frame(label.spec_bytes(), value.bytes())),
    {
        let data = value.to_bytes();
        self.absorb(label, &data);
    }

    /// Absorbs a size as eight little-endian bytes.
    pub fn absorb_size(&mut self, label: &str, size: usize)
        ensures
            final(self)@ == old(self)@.absorb(
                frame(label.spec_bytes(), spec_u64_to_le_bytes(size as u64)),
            ),
    {
        let data = u64_to_le_bytes(size as u64);
        self.absorb(label, &data);
    }

    /// The next challenge: a field element derived from everything absorbed
    /// and from the number of challenges squeezed since.
    pub fn squeeze_challenge(&mut self) -> (r: Scalar)
        ensures
            r.wf(),
            r@ == old(self)@.next_value(),
            final(self)@ == old(self)@.advance(),
    {
        self.rng.next_scalar()
    }
}

} // verus!
