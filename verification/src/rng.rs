//! A hash-seeded generator of field elements: every input is hashed into the
//! seed with Keccak-256, and the elements are drawn from the ChaCha stream of
//! the current seed.

use vstd::prelude::*;
use ark_bn254::Fr;
use ark_ff::PrimeField;
use ark_std::UniformRand;
use rand_chacha::rand_core::SeedableRng;
use rand_chacha::ChaChaRng;
use sha3::{Digest, Keccak256};
use crate::field::Scalar;

verus! {

/// The Keccak-256 digest of `data`: 32 bytes.
pub uninterp spec fn keccak256(data: Seq<u8>) -> Seq<u8>;

/// The field element that `UniformRand::rand` draws from the ChaCha stream
/// with the given seed, starting at the given word offset, and the offset at
/// which the stream then stands.
pub uninterp spec fn chacha_scalar(seed: Seq<u8>, position: int) -> (int, int);

/// `Keccak256::digest`.
#[verifier::external_body]
fn keccak256_digest(data: &Vec<u8>) -> (r: [u8; 32])
    ensures
        r@ == keccak256(data@),
{
    Keccak256::digest(data).into()
}

/// `ChaChaRng::from_seed` and `set_word_pos`, then `UniformRand::rand` for
/// the scalar field and `get_word_pos`: a canonical field element and the new
/// offset, both determined by the seed and the old offset.
#[verifier::external_body]
fn chacha_draw(seed: &[u8; 32], position: u128) -> (r: (Scalar, u128))
    ensures
        r.0.wf(),
        (r.0@, r.1 as int) == chacha_scalar(seed@, position as int),
{
    let mut rng = ChaChaRng::from_seed(*seed);
    rng.set_word_pos(position);
    let [l0, l1, l2, l3] = Fr::rand(&mut rng).into_repr().0;
    (Scalar { l0, l1, l2, l3 }, rng.get_word_pos())
}

/// The state of the generator as a value: the seed and the offset into the
/// seed's stream.
pub struct FsState {
    pub seed: Seq<u8>,
    pub position: int,
}

impl FsState {
    /// The state for an initial input.
    pub open spec fn initial(input: Seq<u8>) -> FsState {
        FsState { seed: keccak256(input), position: 0 }
    }

    /// The state after `input` was absorbed: the new seed is the digest of
    /// the input followed by the old seed, and the stream starts over.
    pub open spec fn absorb(self, input: Seq<u8>) -> FsState {
        FsState { seed: keccak256(input + self.seed), position: 0 }
    }

    /// The next element of the stream.
    pub open spec fn next_value(self) -> int {
        chacha_scalar(self.seed, self.position).0
    }

    /// The state after the next element was drawn.
    pub open spec fn advance(self) -> FsState {
        FsState { seed: self.seed, position: chacha_scalar(self.seed, self.position).1 }
    }
}

/// The generator.
#[derive(Clone, Copy, Debug)]
pub struct SimpleHashFiatShamirRng {
    seed: [u8; 32],
    position: u128,
}

impl View for SimpleHashFiatShamirRng {
    type V = FsState;

    closed spec fn view(&self) -> FsState {
        FsState { seed: self.seed@, position: self.position as int }
    }
}

impl SimpleHashFiatShamirRng {
    /// A generator seeded with the digest of `input`.
    pub fn initialize(input: &Vec<u8>) -> (r: SimpleHashFiatShamirRng)
        ensures
            r@ == FsState::initial(input@),
    {
        SimpleHashFiatShamirRng { seed: keccak256_digest(input), position: 0 }
    }

    /// Hashes `input` into the seed.
    pub fn absorb(&mut self, input: &Vec<u8>)
        ensures
            final(self)@ == old(self)@.absorb(input@),
    {
        let mut data: Vec<u8> = Vec::new();
        let mut i: usize = 0;
        while i < input.len()
            invariant
                i <= input.len(),
                data@ == input@.take(i as int),
            decreases input.len() - i,
        {
            data.push(input[i]);
            proof {
                assert(input@.take(i as int).push(input@[i as int]) =~= input@.take(i + 1));
            }
            i += 1;
        }
        proof {
            assert(input@.take(input.len() as int) =~= input@);
        }
        let mut k: usize = 0;
        while k < 32
            invariant
                k <= 32,
                data@ == input@ + self.seed@.take(k as int),
            decreases 32 - k,
        {
            data.push(self.seed[k]);
            proof {
                assert((input@ + self.seed@.take(k as int)).push(self.seed@[k as int]) =~= input@
                    + self.seed@.take(k + 1));
            }
            k += 1;
        }
        proof {
            assert(self.seed@.take(32) =~= self.seed@);
        }
        self.seed = keccak256_digest(&data);
        self.position = 0;
    }

    /// Draws the next field element.
    pub fn next_scalar(&mut self) -> (r: Scalar)
        ensures
            r.wf(),
            r@ == old(self)@.next_value(),
            final(self)@ == old(self)@.advance(),
    {
        let (value, position) = chacha_draw(&self.seed, self.position);
        self.position = position;
        value
    }
}

} // verus!
