use cq::data_structures::{Proof, ProvingKey, Statement, Witness};
use cq::domain::{is_power_of_two, padded_size_of, Domain};
use cq::error::Error;
use cq::field::Scalar;
use cq::group::{G1Point, G2Point};
use cq::indexer::{CommonPreprocessedInput, Index};
use cq::kzg::Kzg;
use cq::measure::{measure_cprange, measure_cq, prepare, prove_and_verify};
use cq::poly::poly_eval;
use cq::protocol::derive_challenges;
use cq::prover::{find_rows, inverses, Prover};
use cq::table::{sort_rows, Table};
use cq::utils::{random_index, random_scalar, setup_from_trapdoor, test_rng};
use cq::verify::{Verifier, VerifierKey};

fn s(n: u64) -> Scalar {
    Scalar::from_u64(n)
}

fn scalars(c: &[u64]) -> Vec<Scalar> {
    c.iter().map(|&x| s(x)).collect()
}

struct Setup {
    pk: ProvingKey,
    vk: VerifierKey,
    table: Table,
    index: Index,
    common: CommonPreprocessedInput,
    witness: Witness,
    statement: Statement,
}

const TABLE: [u64; 8] = [10, 20, 30, 40, 50, 60, 70, 80];

fn setup_with(table: &[u64], witness: &[u64], tau: u64) -> Setup {
    let n = table.len();
    let (srs_g1, srs_g2) = setup_from_trapdoor(n - 1, n, &s(tau));
    let table = Table::new(&scalars(table)).unwrap();
    let index = Index::gen(&srs_g1, &srs_g2, &table).unwrap();
    let common = Index::compute_common(&srs_g2, &table).unwrap();
    let witness = Witness::new(&scalars(witness)).unwrap();
    let statement = Statement { f: Kzg::commit_g1(&srs_g1, &witness.f).unwrap() };
    let vk = VerifierKey::new(&srs_g2, table.size, witness.size).unwrap();
    Setup { pk: ProvingKey { srs_g1 }, vk, table, index, common, witness, statement }
}

fn prove(x: &Setup) -> Result<Proof, Error> {
    Prover::prove(&x.pk, &x.index, &x.table, &x.witness, &x.statement)
}

fn verify(x: &Setup, proof: &Proof) -> Result<(), Error> {
    Verifier::verify(&x.vk, &x.common, &x.statement, proof)
}

fn proof_bytes(p: &Proof) -> Vec<u8> {
    p.to_bytes()
}

#[test]
fn proof_encoding_is_the_sequence_of_its_parts() {
    let x = setup_with(&TABLE, &[30, 10], 5);
    let p = prove(&x).unwrap();
    let mut expected = Vec::new();
    for g in [&p.m, &p.a, &p.q_a, &p.b_0, &p.q_b, &p.p, &p.pi_gamma, &p.a0_proof] {
        expected.extend(g.to_bytes());
    }
    for v in [&p.b0_gamma, &p.f_gamma, &p.a_0] {
        expected.extend(v.to_bytes());
    }
    assert_eq!(p.to_bytes(), expected);
    assert_eq!(expected.len(), 608);
}

#[test]
fn power_of_two_test() {
    for n in [1usize, 2, 4, 8, 1 << 16, 1 << 28] {
        assert!(is_power_of_two(n));
    }
    for n in [0usize, 3, 5, 6, 7, 12, (1 << 16) + 1, usize::MAX] {
        assert!(!is_power_of_two(n));
    }
}

#[test]
fn domain_sizes() {
    assert!(Domain::new(1).is_ok());
    assert!(Domain::new(8).is_ok());
    for n in [0usize, 3, 6, 12, (1 << 28) + 1, 1 << 29, 1 << 63, (1 << 63) + 1, usize::MAX] {
        assert_eq!(Domain::new(n).err(), Some(Error::TableSizeError));
    }
}

#[test]
fn domain_generator_has_the_order_of_the_domain() {
    let d = Domain::new(8).unwrap();
    assert_eq!(d.len(), 8);
    let w = d.element(1);
    assert!(d.element(0).eq(&s(1)));
    assert!(w.pow(8).eq(&s(1)));
    assert!(!w.pow(4).eq(&s(1)));
    assert!(w.pow(4).add(&s(1)).is_zero());
    assert!(d.element(5).eq(&w.pow(5)));
    assert!(d.inverse_element(3).mul(&d.element(3)).eq(&s(1)));
    assert!(d.inverse_element(0).eq(&s(1)));
    assert!(d.size_inverse().mul(&s(8)).eq(&s(1)));
}

#[test]
fn interpolation_takes_the_values_on_the_domain() {
    let d = Domain::new(8).unwrap();
    let vals = scalars(&[3, 1, 4, 1, 5, 9, 2, 6]);
    let p = d.interpolate(&vals);
    assert_eq!(p.len(), 8);
    for i in 0..8 {
        assert!(poly_eval(&p, &d.element(i)).eq(&vals[i]));
    }
}

#[test]
fn interpolation_of_a_constant_is_the_constant() {
    let d = Domain::new(4).unwrap();
    let p = d.interpolate(&scalars(&[7, 7, 7, 7]));
    assert!(p[0].eq(&s(7)));
    assert!(p[1].is_zero() && p[2].is_zero() && p[3].is_zero());
}

#[test]
fn lagrange_polynomials_are_one_at_their_point_and_zero_elsewhere() {
    let d = Domain::new(4).unwrap();
    for i in 0..4 {
        let l = d.lagrange_poly(i);
        for j in 0..4 {
            let v = poly_eval(&l, &d.element(j));
            assert!(v.eq(&s(if i == j { 1 } else { 0 })));
        }
    }
}

#[test]
fn table_sizes() {
    assert!(Table::new(&scalars(&[1, 2])).is_ok());
    assert!(Table::new(&scalars(&TABLE)).is_ok());
    assert_eq!(Table::new(&scalars(&[])).err(), Some(Error::TableSizeError));
    assert_eq!(Table::new(&scalars(&[1])).err(), Some(Error::TableSizeError));
    assert_eq!(Table::new(&scalars(&[1, 2, 3])).err(), Some(Error::TableSizeError));
    assert_eq!(Table::new(&scalars(&[1, 2, 3, 4, 5, 6])).err(), Some(Error::TableSizeError));
}

#[test]
fn table_polynomial_takes_the_table_values() {
    let t = Table::new(&scalars(&TABLE)).unwrap();
    assert_eq!(t.size, 8);
    for i in 0..8 {
        assert!(poly_eval(&t.poly, &t.domain.element(i)).eq(&s(TABLE[i])));
    }
}

#[test]
fn table_find_row_returns_the_first_match() {
    let t = Table::new(&scalars(&[5, 6, 5, 7])).unwrap();
    assert_eq!(t.find_row(&s(5)), Some(0));
    assert_eq!(t.find_row(&s(7)), Some(3));
    assert_eq!(t.find_row(&s(8)), None);
}

#[test]
fn witness_sizes() {
    assert!(Witness::new(&scalars(&[1])).is_ok());
    assert!(Witness::new(&scalars(&[1, 2, 3, 4])).is_ok());
    assert!(Witness::new(&scalars(&[1, 2, 3])).is_ok());
    assert_eq!(Witness::new(&scalars(&[])).err(), Some(Error::SizingError));
}

#[test]
fn witness_is_padded_with_its_first_entry() {
    let w = Witness::new(&scalars(&[7, 8, 9])).unwrap();
    assert_eq!((w.size, w.domain_size), (3, 4));
    assert_eq!(w.values.len(), 3);
    let padded: Vec<_> = w.padded.iter().map(|x| x.to_limbs().0).collect();
    assert_eq!(padded, vec![7, 8, 9, 7]);
    assert_eq!(w.f.len(), 4);
    for i in 0..4 {
        assert!(poly_eval(&w.f, &w.domain.element(i)).eq(&w.padded[i]));
    }
    for (m, d) in [(1usize, 1usize), (2, 2), (5, 8), (8, 8), (9, 16)] {
        let w = Witness::new(&scalars(&vec![3; m])).unwrap();
        assert_eq!((w.size, w.domain_size), (m, d));
    }
}

#[test]
fn padded_sizes() {
    for (m, d) in [(1usize, 1usize), (2, 2), (3, 4), (4, 4), (5, 8), (1 << 28, 1 << 28)] {
        assert_eq!(padded_size_of(m), d);
    }
    assert_eq!(padded_size_of((1 << 27) + 1), 1 << 28);
}

#[test]
fn honest_proof_is_accepted_for_every_number_of_lookups() {
    let all = [10u64, 80, 80, 30, 50, 20, 70];
    for m in 1..8 {
        let x = setup_with(&TABLE, &all[..m], 4242);
        assert_eq!(x.witness.size, m);
        assert_eq!(x.vk.witness_size, m);
        assert_eq!(x.vk.domain_size, x.witness.domain_size);
        let proof = prove(&x).unwrap();
        assert_eq!(verify(&x, &proof), Ok(()));
        let mut wrong = proof;
        wrong.a_0 = wrong.a_0.add(&s(1));
        assert_eq!(verify(&x, &wrong), Err(Error::VerificationError));
    }
}

#[test]
fn padding_does_not_hide_a_value_outside_the_table() {
    for witness in [&[11u64, 10, 20][..], &[10, 20, 11], &[10, 11, 20, 30, 40]] {
        let x = setup_with(&TABLE, witness, 5);
        assert_eq!(prove(&x).err(), Some(Error::ProverError));
    }
}

#[test]
fn proofs_for_witnesses_of_different_sizes_do_not_verify_for_each_other() {
    // three lookups and the same three with the padding written out share a
    // statement, but not a transcript
    let three = setup_with(&TABLE, &[30, 10, 20], 5);
    let four = setup_with(&TABLE, &[30, 10, 20, 30], 5);
    assert_eq!(three.statement.f.to_bytes(), four.statement.f.to_bytes());
    let proof = prove(&three).unwrap();
    assert_eq!(verify(&three, &proof), Ok(()));
    assert_eq!(verify(&four, &proof), Err(Error::VerificationError));
}

#[test]
fn find_rows_and_inverses() {
    let t = Table::new(&scalars(&[5, 6, 5, 7])).unwrap();
    let w = Witness::new(&scalars(&[7, 5])).unwrap();
    assert_eq!(find_rows(&t, &w), Some(vec![3, 0]));
    let w = Witness::new(&scalars(&[7, 9])).unwrap();
    assert_eq!(find_rows(&t, &w), None);
    let u = inverses(&scalars(&[1, 3]), &s(1)).unwrap();
    assert!(u[0].mul(&s(2)).eq(&s(1)) && u[1].mul(&s(4)).eq(&s(1)));
    assert!(inverses(&scalars(&[1, 3]), &Scalar::zero().sub(&s(3))).is_none());
}

#[test]
fn index_holds_the_quotient_and_lagrange_commitments() {
    let x = setup_with(&TABLE, &[30, 10], 5);
    assert_eq!(x.index.q.len(), 8);
    assert_eq!(x.index.lagrange.len(), 8);
    assert_eq!(x.index.lagrange_opening.len(), 8);
    let g = G1Point::generator();
    let h = G2Point::generator();
    let tau = s(5);
    let t_tau = poly_eval(&x.table.poly, &tau);
    assert_eq!(x.common.t_2.to_bytes(), h.mul(&t_tau).to_bytes());
    assert_eq!(x.index.common.t_2.to_bytes(), x.common.t_2.to_bytes());
    assert_eq!(x.common.zv_2.to_bytes(), h.mul(&tau.pow(8).sub(&s(1))).to_bytes());
    for i in 0..8 {
        // Q_i(tau) (tau - w^i) = T(tau) - t_i
        let w = x.table.domain.element(i);
        let lhs = x.index.q[i].mul(&tau.sub(&w));
        assert!(lhs.same(&g.mul(&t_tau.sub(&s(TABLE[i])))));
        // every row's quotient opens the table commitment at its point
        let t_1 = Kzg::commit_g1(&x.pk.srs_g1, &x.table.poly).unwrap();
        assert!(Kzg::verify_open(&x.vk, &t_1, &w, &s(TABLE[i]), &x.index.q[i]));
        let l = poly_eval(&x.table.domain.lagrange_poly(i), &tau);
        assert!(x.index.lagrange[i].same(&g.mul(&l)));
        // (L_i(tau) - 1/N) / tau
        let lo = l.sub(&x.table.domain.size_inverse()).mul(&tau.inverse().unwrap());
        assert!(x.index.lagrange_opening[i].same(&g.mul(&lo)));
    }
}

#[test]
fn index_needs_reference_strings_as_long_as_the_table() {
    let table = Table::new(&scalars(&TABLE)).unwrap();
    let (g1, g2) = setup_from_trapdoor(7, 8, &s(5));
    assert!(Index::gen(&g1, &g2, &table).is_ok());
    let (short_g1, _) = setup_from_trapdoor(6, 8, &s(5));
    assert_eq!(Index::gen(&short_g1, &g2, &table).err(), Some(Error::DegreeError));
    let (_, short_g2) = setup_from_trapdoor(7, 7, &s(5));
    assert_eq!(Index::gen(&g1, &short_g2, &table).err(), Some(Error::DegreeError));
    assert_eq!(Index::compute_common(&short_g2, &table).err(), Some(Error::DegreeError));
}

#[test]
fn honest_proof_is_accepted() {
    let x = setup_with(&TABLE, &[30, 10], 5);
    let proof = prove(&x).unwrap();
    assert_eq!(verify(&x, &proof), Ok(()));
}

#[test]
fn honest_proof_is_accepted_for_every_witness_size() {
    for witness in [&[80u64][..], &[20, 20], &[70, 10, 10, 40]] {
        let x = setup_with(&TABLE, witness, 12345);
        let proof = prove(&x).unwrap();
        assert_eq!(verify(&x, &proof), Ok(()));
    }
}

#[test]
fn honest_proof_is_accepted_for_a_table_with_repeated_values() {
    let x = setup_with(&[4, 4, 9, 4], &[9, 4], 77);
    let proof = prove(&x).unwrap();
    assert_eq!(verify(&x, &proof), Ok(()));
}

#[test]
fn honest_proof_is_accepted_for_the_smallest_table() {
    let x = setup_with(&[3, 8], &[8], 9);
    let proof = prove(&x).unwrap();
    assert_eq!(verify(&x, &proof), Ok(()));
}

#[test]
fn proving_is_deterministic() {
    let x = setup_with(&TABLE, &[30, 10], 5);
    let y = setup_with(&TABLE, &[30, 10], 5);
    let one = prove(&x).unwrap();
    let two = prove(&x).unwrap();
    let three = prove(&y).unwrap();
    assert_eq!(proof_bytes(&one), proof_bytes(&two));
    assert_eq!(proof_bytes(&one), proof_bytes(&three));
    assert_eq!(proof_bytes(&one).len(), 8 * 64 + 3 * 32);
    assert_eq!(verify(&x, &one), verify(&y, &three));
}

#[test]
fn proof_size_does_not_depend_on_the_sizes() {
    let small = prove(&setup_with(&[3, 8], &[8], 9)).unwrap();
    let large = prove(&setup_with(&TABLE, &[70, 10, 10, 40], 9)).unwrap();
    assert_eq!(proof_bytes(&small).len(), proof_bytes(&large).len());
}

#[test]
fn witness_value_outside_the_table_is_a_prover_error() {
    let x = setup_with(&TABLE, &[30, 11], 5);
    assert_eq!(prove(&x).err(), Some(Error::ProverError));
}

#[test]
fn proof_for_another_witness_is_rejected() {
    // the negative control: a proof made for a witness in the table does not
    // verify against the statement of a witness that is not in it
    let good = setup_with(&TABLE, &[30, 10], 5);
    let bad = setup_with(&TABLE, &[30, 11], 5);
    let proof = prove(&good).unwrap();
    assert_eq!(verify(&bad, &proof), Err(Error::VerificationError));
}

#[test]
fn forced_proof_for_a_witness_outside_the_table_is_rejected() {
    // the prover is run on a table that holds the bad value, and the proof is
    // checked against the real table
    let forged_table = [10, 11, 30, 40, 50, 60, 70, 80];
    let forced = setup_with(&forged_table, &[30, 11], 5);
    let real = setup_with(&TABLE, &[30, 11], 5);
    let proof = prove(&forced).unwrap();
    assert_eq!(verify(&forced, &proof), Ok(()));
    assert_eq!(verify(&real, &proof), Err(Error::VerificationError));
}

#[test]
fn statement_that_is_not_the_commitment_is_a_mismatch() {
    let mut x = setup_with(&TABLE, &[30, 10], 5);
    x.statement = Statement { f: x.statement.f.mul(&s(2)) };
    assert_eq!(prove(&x).err(), Some(Error::StatementMismatchError));
}

#[test]
fn witness_as_large_as_the_table_is_a_sizing_error() {
    let mut x = setup_with(&TABLE, &[30, 10], 5);
    x.witness = Witness::new(&scalars(&TABLE)).unwrap();
    assert_eq!(prove(&x).err(), Some(Error::SizingError));
}

#[test]
fn proving_key_shorter_than_the_table_is_a_degree_error() {
    let mut x = setup_with(&TABLE, &[30, 10], 5);
    x.pk.srs_g1.truncate(7);
    assert_eq!(prove(&x).err(), Some(Error::DegreeError));
}

#[test]
fn every_changed_proof_element_is_rejected() {
    let x = setup_with(&TABLE, &[30, 10], 5);
    let proof = prove(&x).unwrap();
    let g = G1Point::generator();
    let bump = |p: &G1Point| G1Point::msm(&vec![*p, g], &vec![s(1), s(1)]);
    let mut forged: Vec<Proof> = Vec::new();
    for i in 0..11 {
        let mut f = proof;
        match i {
            0 => f.m = bump(&f.m),
            1 => f.a = bump(&f.a),
            2 => f.q_a = bump(&f.q_a),
            3 => f.b_0 = bump(&f.b_0),
            4 => f.q_b = bump(&f.q_b),
            5 => f.p = bump(&f.p),
            6 => f.pi_gamma = bump(&f.pi_gamma),
            7 => f.a0_proof = bump(&f.a0_proof),
            8 => f.b0_gamma = f.b0_gamma.add(&s(1)),
            9 => f.f_gamma = f.f_gamma.add(&s(1)),
            _ => f.a_0 = f.a_0.add(&s(1)),
        }
        forged.push(f);
    }
    for f in &forged {
        assert_eq!(verify(&x, f), Err(Error::VerificationError));
    }
    assert_eq!(verify(&x, &proof), Ok(()));
}

#[test]
fn proof_is_bound_to_the_statement_and_the_sizes() {
    let x = setup_with(&TABLE, &[30, 10], 5);
    let proof = prove(&x).unwrap();
    let mut other = setup_with(&TABLE, &[30, 10], 5);
    other.statement = Statement { f: x.statement.f.mul(&s(2)) };
    assert_eq!(verify(&other, &proof), Err(Error::VerificationError));
    let mut resized = setup_with(&TABLE, &[30, 10], 5);
    resized.vk.witness_size = 4;
    assert_eq!(verify(&resized, &proof), Err(Error::VerificationError));
}

#[test]
fn proof_under_another_secret_or_table_is_rejected() {
    let x = setup_with(&TABLE, &[30, 10], 5);
    let proof = prove(&x).unwrap();
    let other_secret = setup_with(&TABLE, &[30, 10], 6);
    assert_eq!(verify(&other_secret, &proof), Err(Error::VerificationError));
    let other_table = setup_with(&[10, 20, 30, 40, 50, 60, 70, 81], &[30, 10], 5);
    assert_eq!(verify(&other_table, &proof), Err(Error::VerificationError));
}

#[test]
fn verifier_derives_the_challenges_from_the_proof() {
    let x = setup_with(&TABLE, &[30, 10], 5);
    let proof = prove(&x).unwrap();
    let c1 = derive_challenges(8, 2, &x.common, &x.statement, &proof);
    let c2 = derive_challenges(8, 2, &x.common, &x.statement, &proof);
    assert!(c1.0.eq(&c2.0) && c1.1.eq(&c2.1) && c1.2.eq(&c2.2) && c1.3.eq(&c2.3));
    let mut changed = proof;
    changed.a_0 = changed.a_0.add(&s(1));
    let c3 = derive_challenges(8, 2, &x.common, &x.statement, &changed);
    // the value is absorbed in the third round: the first two challenges stay
    assert!(c1.0.eq(&c3.0) && c1.1.eq(&c3.1));
    assert!(!c1.2.eq(&c3.2) && !c1.3.eq(&c3.3));
    let c4 = derive_challenges(8, 4, &x.common, &x.statement, &proof);
    assert!(!c1.0.eq(&c4.0));
}

#[test]
fn prepared_scenario_proves_and_verifies() {
    let mut rng = test_rng();
    let p = prepare(8, &vec![3, 3, 0, 6], &mut rng).unwrap();
    assert_eq!(p.table.size, 8);
    assert_eq!(p.witness.size, 4);
    assert!(p.witness.values[0].eq(&p.table.values[3]));
    assert!(p.witness.values[3].eq(&p.table.values[6]));
    assert_eq!(p.pk.srs_g1.len(), 8);
    assert_eq!(prove_and_verify(&p), Ok(true));
}

#[test]
fn prepare_rejects_bad_sizes() {
    let mut rng = test_rng();
    assert_eq!(prepare(6, &vec![0, 1], &mut rng).err(), Some(Error::TableSizeError));
    assert_eq!(prepare(0, &vec![], &mut rng).err(), Some(Error::TableSizeError));
    assert_eq!(prepare(1, &vec![0], &mut rng).err(), Some(Error::TableSizeError));
    assert!(prepare(8, &vec![0, 1, 2], &mut rng).is_ok());
    assert_eq!(prepare(6, &vec![], &mut rng).err(), Some(Error::TableSizeError));
    assert_eq!(prepare(8, &vec![], &mut rng).err(), Some(Error::SizingError));
    assert_eq!(prepare(8, &vec![0, 8], &mut rng).err(), Some(Error::SizingError));
    assert_eq!(prepare(4, &vec![0, 1, 2, 3], &mut rng).err(), Some(Error::SizingError));
}

#[test]
fn measure_cq_reports_under_its_message() {
    let m = measure_cq(String::from("lookup"), 8, 2).unwrap();
    assert_eq!(m.label, "lookup");
    assert!(m.accepted);
}

#[test]
fn measure_cprange_labels_the_scenario() {
    let m = measure_cprange(16, 4).unwrap();
    assert_eq!(m.label, "CPRange(16,4)");
    assert!(m.accepted);
}

#[test]
fn measure_cprange_rejects_bad_sizes() {
    assert_eq!(measure_cprange(12, 4).err(), Some(Error::TableSizeError));
    assert_eq!(measure_cprange(0, 0).err(), Some(Error::TableSizeError));
    assert_eq!(measure_cprange(12, 0).err(), Some(Error::TableSizeError));
    assert_eq!(measure_cprange(1 << 29, 4).err(), Some(Error::TableSizeError));
    assert_eq!(measure_cprange(16, 16).err(), Some(Error::SizingError));
    assert_eq!(measure_cprange(16, 17).err(), Some(Error::SizingError));
    assert_eq!(measure_cprange(16, usize::MAX).err(), Some(Error::SizingError));
    assert_eq!(measure_cprange(16, 0).err(), Some(Error::SizingError));
}

#[test]
fn measure_cprange_takes_any_number_of_lookups_below_the_table_size() {
    for n in [1usize, 3, 5, 7] {
        let m = measure_cprange(8, n).unwrap();
        assert_eq!(m.label, format!("CPRange(8,{})", n));
        assert!(m.accepted);
    }
}

#[test]
fn prepared_scenario_with_three_lookups_proves_and_verifies() {
    let mut rng = test_rng();
    let p = prepare(8, &vec![5, 0, 5], &mut rng).unwrap();
    assert_eq!((p.witness.size, p.witness.domain_size), (3, 4));
    assert_eq!((p.vk.witness_size, p.vk.domain_size), (3, 4));
    assert!(p.witness.values[2].eq(&p.table.values[5]));
    assert_eq!(prove_and_verify(&p), Ok(true));
}

#[test]
fn random_index_stays_below_the_bound() {
    let mut rng = test_rng();
    assert_eq!(random_index(&mut rng, 0), None);
    assert_eq!(random_index(&mut rng, 1), Some(0));
    let mut seen = [false; 5];
    for _ in 0..200 {
        let i = random_index(&mut rng, 5).unwrap();
        assert!(i < 5);
        seen[i] = true;
    }
    assert!(seen.iter().all(|&s| s));
}

#[test]
fn the_benchmark_generator_repeats_its_stream() {
    let mut a = test_rng();
    let mut b = test_rng();
    let x = random_scalar(&mut a);
    let y = random_scalar(&mut a);
    assert!(!x.eq(&y));
    assert!(x.eq(&random_scalar(&mut b)));
    assert!(y.eq(&random_scalar(&mut b)));
}

#[test]
fn random_scalars_are_canonical() {
    let mut rng = test_rng();
    for _ in 0..50 {
        let (l0, l1, l2, l3) = random_scalar(&mut rng).to_limbs();
        assert!(Scalar::from_limbs(l0, l1, l2, l3).is_some());
    }
}

#[test]
fn colliding_challenge_has_no_inverses() {
    // the prover reports a challenge that is the negative of a witness entry
    let beta = Scalar::zero().sub(&s(30));
    assert!(inverses(&scalars(&[30, 10]), &beta).is_none());
    assert!(inverses(&scalars(&[31, 10]), &beta).is_some());
}

#[test]
fn honest_proof_is_accepted_for_a_larger_table() {
    let table: Vec<u64> = (0..32).map(|i| 1000 + 7 * i).collect();
    let witness: Vec<u64> = [3u64, 31, 0, 3, 17, 8, 8, 30].iter().map(|&i| 1000 + 7 * i).collect();
    let x = setup_with(&table, &witness, 987654321);
    let proof = prove(&x).unwrap();
    assert_eq!(verify(&x, &proof), Ok(()));
    let mut wrong = proof;
    wrong.f_gamma = wrong.f_gamma.add(&s(1));
    assert_eq!(verify(&x, &wrong), Err(Error::VerificationError));
}

#[test]
fn rows_are_sorted_by_value_and_then_by_number() {
    let vals = scalars(&[5, 2, 9, 2, 5, 1, 9, 2]);
    assert_eq!(sort_rows(&vals), vec![5, 1, 3, 7, 0, 4, 2, 6]);
    assert_eq!(sort_rows(&scalars(&[])), Vec::<usize>::new());
    assert_eq!(sort_rows(&scalars(&[4, 3, 2, 1])), vec![3, 2, 1, 0]);
    let t = Table::new(&vals).unwrap();
    assert_eq!(t.order, vec![5, 1, 3, 7, 0, 4, 2, 6]);
}

#[test]
fn find_row_agrees_with_a_scan_of_the_table() {
    let raw = [5u64, 2, 9, 2, 5, 1, 9, 2, 0, 7, 7, 3, 12, 0, 5, 11];
    let t = Table::new(&scalars(&raw)).unwrap();
    for v in 0..14u64 {
        assert_eq!(t.find_row(&s(v)), raw.iter().position(|&x| x == v));
    }
    let big = Scalar::zero().sub(&s(1));
    assert_eq!(t.find_row(&big), None);
}

#[test]
fn find_row_orders_values_by_all_their_limbs() {
    let high = Scalar::from_limbs(0, 0, 0, 1).unwrap();
    let mid = Scalar::from_limbs(0, 1, 0, 0).unwrap();
    let low = Scalar::from_limbs(u64::MAX, 0, 0, 0).unwrap();
    let t = Table::new(&vec![high, low, mid, s(3)]).unwrap();
    assert_eq!(t.order, vec![3, 1, 2, 0]);
    assert_eq!(t.find_row(&mid), Some(2));
    assert_eq!(t.find_row(&high), Some(0));
    assert_eq!(t.find_row(&low), Some(1));
    assert!(low.lt(&mid) && mid.lt(&high) && !high.lt(&low) && !mid.lt(&mid));
    assert!(s(3).lt(&s(4)) && !s(4).lt(&s(3)));
}
