//! The order in which prover and verifier feed the transcript, and the
//! challenges that come out of it. Both sides run the same rounds, so they
//! derive the same challenges from the same messages.

use vstd::prelude::*;
use vstd::bytes::spec_u64_to_le_bytes;
use vstd::string::StringSliceAdditionalSpecFns;
use crate::data_structures::{Proof, Statement};
use crate::field::Scalar;
use crate::group::G1Point;
use crate::indexer::CommonPreprocessedInput;
use crate::rng::FsState;
use crate::transcript::{Transcript, frame, protocol_name};

verus! {

/// The four challenges of one run.
pub struct Challenges {
    /// Shifts table and witness values before they are inverted.
    pub beta: int,
    /// The point at which the witness-side polynomials are opened.
    pub gamma: int,
    /// Combines the openings at `gamma` into one.
    pub eta: int,
    /// Combines the pairing equations into one.
    pub rho: int,
}

/// The transcript once the public inputs are absorbed: the sizes, the
/// preprocessed commitments and the statement.
pub open spec fn start_state(n: usize, m: usize, zv_2: Seq<u8>, t_2: Seq<u8>, f: Seq<u8>) -> FsState {
    FsState::initial(protocol_name()).absorb(
        frame("table-size".spec_bytes(), spec_u64_to_le_bytes(n as u64)),
    ).absorb(frame("witness-size".spec_bytes(), spec_u64_to_le_bytes(m as u64))).absorb(
        frame("zv".spec_bytes(), zv_2),
    ).absorb(frame("t".spec_bytes(), t_2)).absorb(frame("f".spec_bytes(), f))
}

/// The transcript from which `beta` is squeezed: the multiplicity commitment
/// is absorbed.
pub open spec fn beta_state(s: FsState, m: Seq<u8>) -> FsState {
    s.absorb(frame("m".spec_bytes(), m))
}

/// The transcript from which `gamma` is squeezed: the five commitments of the
/// second round are absorbed.
pub open spec fn gamma_state(
    s: FsState,
    a: Seq<u8>,
    q_a: Seq<u8>,
    b_0: Seq<u8>,
    q_b: Seq<u8>,
    p: Seq<u8>,
) -> FsState {
    s.absorb(frame("a".spec_bytes(), a)).absorb(frame("qa".spec_bytes(), q_a)).absorb(
        frame("b0".spec_bytes(), b_0),
    ).absorb(frame("qb".spec_bytes(), q_b)).absorb(frame("p".spec_bytes(), p))
}

/// The transcript from which `eta` is squeezed: the three evaluations are
/// absorbed.
pub open spec fn eta_state(s: FsState, b0_gamma: Seq<u8>, f_gamma: Seq<u8>, a_0: Seq<u8>) -> FsState {
    s.absorb(frame("b0-gamma".spec_bytes(), b0_gamma)).absorb(
        frame("f-gamma".spec_bytes(), f_gamma),
    ).absorb(frame("a-zero".spec_bytes(), a_0))
}

/// The transcript from which `rho` is squeezed: the two opening proofs are
/// absorbed.
pub open spec fn rho_state(s: FsState, pi_gamma: Seq<u8>, a0_proof: Seq<u8>) -> FsState {
    s.absorb(frame("pi-gamma".spec_bytes(), pi_gamma)).absorb(
        frame("pi-zero".spec_bytes(), a0_proof),
    )
}

/// The transcript after the first round.
pub open spec fn state_1(
    n: usize,
    m: usize,
    common: CommonPreprocessedInput,
    statement: Statement,
    proof: Proof,
) -> FsState {
    beta_state(start_state(n, m, common.zv_2@, common.t_2@, statement.f@), proof.m@)
}

/// The transcript after the second round.
pub open spec fn state_2(
    n: usize,
    m: usize,
    common: CommonPreprocessedInput,
    statement: Statement,
    proof: Proof,
) -> FsState {
    gamma_state(
        state_1(n, m, common, statement, proof).advance(),
        proof.a@,
        proof.q_a@,
        proof.b_0@,
        proof.q_b@,
        proof.p@,
    )
}

/// The transcript after the third round.
pub open spec fn state_3(
    n: usize,
    m: usize,
    common: CommonPreprocessedInput,
    statement: Statement,
    proof: Proof,
) -> FsState {
    eta_state(
        state_2(n, m, common, statement, proof).advance(),
        proof.b0_gamma.bytes(),
        proof.f_gamma.bytes(),
        proof.a_0.bytes(),
    )
}

/// The transcript after the fourth round.
pub open spec fn state_4(
    n: usize,
    m: usize,
    common: CommonPreprocessedInput,
    statement: Statement,
    proof: Proof,
) -> FsState {
    rho_state(state_3(n, m, common, statement, proof).advance(), proof.pi_gamma@, proof.a0_proof@)
}

/// The challenges that the transcript of the public inputs and of `proof`
/// yields. Each depends on every message absorbed before it.
pub open spec fn challenges(
    n: usize,
    m: usize,
    common: CommonPreprocessedInput,
    statement: Statement,
    proof: Proof,
) -> Challenges {
    Challenges {
        beta: state_1(n, m, common, statement, proof).next_value(),
        gamma: state_2(n, m, common, statement, proof).next_value(),
        eta: state_3(n, m, common, statement, proof).next_value(),
        rho: state_4(n, m, common, statement, proof).next_value(),
    }
}

/// A transcript that has absorbed the public inputs.
pub fn start(n: usize, m: usize, common: &CommonPreprocessedInput, statement: &Statement) -> (t:
    Transcript)
    ensures
        t@ == start_state(n, m, common.zv_2@, common.t_2@, statement.f@),
{
    let mut t = Transcript::new();
    t.absorb_size("table-size", n);
    t.absorb_size("witness-size", m);
    t.absorb_g2("zv", &common.zv_2);
    t.absorb_g2("t", &common.t_2);
    t.absorb_g1("f", &statement.f);
    t
}

/// The first round: absorbs the multiplicity commitment and squeezes `beta`.
pub fn round_beta(t: &mut Transcript, m: &G1Point) -> (beta: Scalar)
    ensures
        beta.wf(),
        beta@ == beta_state(old(t)@, m@).next_value(),
        final(t)@ == beta_state(old(t)@, m@).advance(),
{
    t.absorb_g1("m", m);
    t.squeeze_challenge()
}

/// The second round: absorbs the five commitments and squeezes `gamma`.
pub fn round_gamma(
    t: &mut Transcript,
    a: &G1Point,
    q_a: &G1Point,
    b_0: &G1Point,
    q_b: &G1Point,
    p: &G1Point,
) -> (gamma: Scalar)
    ensures
        gamma.wf(),
        gamma@ == gamma_state(old(t)@, a@, q_a@, b_0@, q_b@, p@).next_value(),
        final(t)@ == gamma_state(old(t)@, a@, q_a@, b_0@, q_b@, p@).advance(),
{
    t.absorb_g1("a", a);
    t.absorb_g1("qa", q_a);
    t.absorb_g1("b0", b_0);
    t.absorb_g1("qb", q_b);
    t.absorb_g1("p", p);
    t.squeeze_challenge()
}

/// The third round: absorbs the three evaluations and squeezes `eta`.
pub fn round_eta(t: &mut Transcript, b0_gamma: &Scalar, f_gamma: &Scalar, a_0: &Scalar) -> (eta:
    Scalar)
    ensures
        eta.wf(),
        eta@ == eta_state(old(t)@, b0_gamma.bytes(), f_gamma.bytes(), a_0.bytes()).next_value(),
        final(t)@ == eta_state(old(t)@, b0_gamma.bytes(), f_gamma.bytes(), a_0.bytes()).advance(),
{
    t.absorb_scalar("b0-gamma", b0_gamma);
    t.absorb_scalar("f-gamma", f_gamma);
    t.absorb_scalar("a-zero", a_0);
    t.squeeze_challenge()
}

/// The fourth round: absorbs the two opening proofs and squeezes `rho`.
pub fn round_rho(t: &mut Transcript, pi_gamma: &G1Point, a0_proof: &G1Point) -> (rho: Scalar)
    ensures
        rho.wf(),
        rho@ == rho_state(old(t)@, pi_gamma@, a0_proof@).next_value(),
        final(t)@ == rho_state(old(t)@, pi_gamma@, a0_proof@).advance(),
{
    t.absorb_g1("pi-gamma", pi_gamma);
    t.absorb_g1("pi-zero", a0_proof);
    t.squeeze_challenge()
}

/// All four challenges for a given proof, as the verifier derives them.
pub fn derive_challenges(
    n: usize,
    m: usize,
    common: &CommonPreprocessedInput,
    statement: &Statement,
    proof: &Proof,
) -> (r: (Scalar, Scalar, Scalar, Scalar))
    ensures
        r.0.wf() && r.1.wf() && r.2.wf() && r.3.wf(),
        r.0@ == challenges(n, m, *common, *statement, *proof).beta,
        r.1@ == challenges(n, m, *common, *statement, *proof).gamma,
        r.2@ == challenges(n, m, *common, *statement, *proof).eta,
        r.3@ == challenges(n, m, *common, *statement, *proof).rho,
{
    let mut t = start(n, m, common, statement);
    let beta = round_beta(&mut t, &proof.m);
    let gamma = round_gamma(&mut t, &proof.a, &proof.q_a, &proof.b_0, &proof.q_b, &proof.p);
    let eta = round_eta(&mut t, &proof.b0_gamma, &proof.f_gamma, &proof.a_0);
    let rho = round_rho(&mut t, &proof.pi_gamma, &proof.a0_proof);
    (beta, gamma, eta, rho)
}

} // verus!
