use cq::error::Error;
use cq::field::Scalar;
use cq::group::{G1Point, G2Point};
use cq::kzg::Kzg;
use cq::poly::{divide_by_linear, effective_length, linear_combination, poly_eval};
use cq::utils::{setup_from_trapdoor, test_rng, unsafe_setup_from_rng};
use cq::verify::VerifierKey;

fn s(n: u64) -> Scalar {
    Scalar::from_u64(n)
}

fn poly(c: &[u64]) -> Vec<Scalar> {
    c.iter().map(|&x| s(x)).collect()
}

fn limbs(v: &[Scalar]) -> Vec<(u64, u64, u64, u64)> {
    v.iter().map(|x| x.to_limbs()).collect()
}

fn keys(max_power: usize, tau: u64) -> (Vec<G1Point>, VerifierKey) {
    let (g1, g2) = setup_from_trapdoor(max_power, 4, &s(tau));
    (g1, VerifierKey::new(&g2, 4, 2).unwrap())
}

#[test]
fn poly_eval_by_horner() {
    // 1 + 2x + 3x^2 at 5 is 86
    assert!(poly_eval(&poly(&[1, 2, 3]), &s(5)).eq(&s(86)));
    assert!(poly_eval(&poly(&[]), &s(5)).is_zero());
    assert!(poly_eval(&poly(&[9]), &s(5)).eq(&s(9)));
    assert!(poly_eval(&poly(&[1, 2, 3]), &s(0)).eq(&s(1)));
}

#[test]
fn division_by_a_linear_factor() {
    // x^3 - 1 = (x - 1)(x^2 + x + 1); with x^3 + 5 the remainder at 1 is 6
    let (q, r) = divide_by_linear(&poly(&[5, 0, 0, 1]), &s(1));
    assert_eq!(limbs(&q), limbs(&poly(&[1, 1, 1])));
    assert!(r.eq(&s(6)));
    // 1 + 2x + 3x^2 = (x - 2)(3x + 8) + 17
    let (q, r) = divide_by_linear(&poly(&[1, 2, 3]), &s(2));
    assert_eq!(limbs(&q), limbs(&poly(&[8, 3])));
    assert!(r.eq(&s(17)));
    let (q, r) = divide_by_linear(&poly(&[]), &s(2));
    assert!(q.is_empty() && r.is_zero());
    let (q, r) = divide_by_linear(&poly(&[4]), &s(2));
    assert!(q.is_empty() && r.eq(&s(4)));
}

#[test]
fn effective_length_ignores_trailing_zeros() {
    assert_eq!(effective_length(&poly(&[1, 2, 0, 0])), 2);
    assert_eq!(effective_length(&poly(&[0, 0, 0])), 0);
    assert_eq!(effective_length(&poly(&[])), 0);
    assert_eq!(effective_length(&poly(&[0, 0, 3])), 3);
}

#[test]
fn linear_combination_with_powers() {
    // [1,2] + 10 [3] + 100 [0,0,5]
    let r = linear_combination(&vec![poly(&[1, 2]), poly(&[3]), poly(&[0, 0, 5])], &s(10));
    assert_eq!(limbs(&r), limbs(&poly(&[31, 2, 500])));
    assert!(linear_combination(&vec![], &s(10)).is_empty());
}

#[test]
fn shifted_commitment_is_the_commitment_to_the_shifted_polynomial() {
    let (g1, _) = keys(5, 3);
    // (1 + 2x) x^3 at 3 is 7 * 27
    let c = Kzg::commit_shifted_g1(&g1, &poly(&[1, 2]), 3).unwrap();
    assert!(c.same(&G1Point::generator().mul(&s(189))));
    assert!(c.same(&Kzg::commit_g1(&g1, &poly(&[0, 0, 0, 1, 2])).unwrap()));
    let c = Kzg::commit_shifted_g1(&g1, &poly(&[1, 2]), 0).unwrap();
    assert!(c.same(&Kzg::commit_g1(&g1, &poly(&[1, 2])).unwrap()));
}

#[test]
fn shifted_commitment_at_the_degree_bound() {
    // powers tau^0 .. tau^5
    let (g1, _) = keys(5, 3);
    assert!(Kzg::commit_shifted_g1(&g1, &poly(&[1, 2]), 4).is_ok());
    assert_eq!(Kzg::commit_shifted_g1(&g1, &poly(&[1, 2]), 5).unwrap_err(), Error::DegreeError);
    assert_eq!(
        Kzg::commit_shifted_g1(&g1, &poly(&[1, 2]), usize::MAX).unwrap_err(),
        Error::DegreeError
    );
    // trailing zeros do not count, and the zero polynomial shifts anywhere
    assert!(Kzg::commit_shifted_g1(&g1, &poly(&[1, 2, 0, 0]), 4).is_ok());
    let zero = Kzg::commit_shifted_g1(&g1, &poly(&[0, 0]), 100).unwrap();
    assert!(zero.same(&G1Point::generator().mul(&Scalar::zero())));
}

#[test]
fn setup_holds_the_powers_of_the_secret() {
    let (g1, g2) = setup_from_trapdoor(3, 2, &s(5));
    assert_eq!(g1.len(), 4);
    assert_eq!(g2.len(), 3);
    let g = G1Point::generator();
    let h = G2Point::generator();
    assert!(g1[0].same(&g));
    assert!(g1[1].same(&g.mul(&s(5))));
    assert!(g1[3].same(&g.mul(&s(125))));
    assert_eq!(g2[0].to_bytes(), h.to_bytes());
    assert_eq!(g2[2].to_bytes(), h.mul(&s(25)).to_bytes());
}

#[test]
fn setup_from_rng_has_the_requested_sizes() {
    let mut rng = test_rng();
    let (g1, g2) = unsafe_setup_from_rng(5, 6, &mut rng);
    assert_eq!(g1.len(), 6);
    assert_eq!(g2.len(), 7);
    assert!(g1[0].same(&G1Point::generator()));
    assert!(!g1[1].same(&G1Point::generator()));
}

#[test]
fn commitment_is_the_polynomial_at_the_secret() {
    let (g1, _) = keys(3, 5);
    let c = Kzg::commit_g1(&g1, &poly(&[1, 2, 3])).unwrap();
    assert!(c.same(&G1Point::generator().mul(&s(86))));
}

#[test]
fn commitment_in_g2_is_the_polynomial_at_the_secret() {
    let (_, g2) = setup_from_trapdoor(1, 3, &s(5));
    let c = Kzg::commit_g2(&g2, &poly(&[1, 2, 3])).unwrap();
    assert_eq!(c.to_bytes(), G2Point::generator().mul(&s(86)).to_bytes());
    assert_eq!(Kzg::commit_g2(&g2, &poly(&[1, 2, 3, 4, 5])).unwrap_err(), Error::DegreeError);
}

#[test]
fn degree_at_the_bound_commits_and_one_past_fails() {
    // powers tau^0 .. tau^3: degree 3 is the bound
    let (g1, _) = keys(3, 5);
    assert!(Kzg::commit_g1(&g1, &poly(&[1, 1, 1, 1])).is_ok());
    assert_eq!(Kzg::commit_g1(&g1, &poly(&[1, 1, 1, 1, 1])).unwrap_err(), Error::DegreeError);
    assert_eq!(Kzg::open_g1(&g1, &poly(&[1, 1, 1, 1, 1]), &s(2)).unwrap_err(), Error::DegreeError);
}

#[test]
fn leading_zero_coefficients_do_not_count_towards_the_degree() {
    let (g1, _) = keys(3, 5);
    let c = Kzg::commit_g1(&g1, &poly(&[1, 2, 3, 0, 0, 0])).unwrap();
    assert!(c.same(&Kzg::commit_g1(&g1, &poly(&[1, 2, 3])).unwrap()));
    assert!(Kzg::open_g1(&g1, &poly(&[1, 2, 3, 0, 0, 0]), &s(2)).is_ok());
}

#[test]
fn commitment_to_the_zero_polynomial_is_the_identity() {
    let (g1, _) = keys(3, 5);
    let c = Kzg::commit_g1(&g1, &poly(&[])).unwrap();
    assert!(c.same(&G1Point::generator().mul(&Scalar::zero())));
}

#[test]
fn opening_round_trip() {
    let (g1, vk) = keys(3, 5);
    let p = poly(&[7, 0, 3, 11]);
    let c = Kzg::commit_g1(&g1, &p).unwrap();
    let (v, pi) = Kzg::open_g1(&g1, &p, &s(9)).unwrap();
    assert!(v.eq(&poly_eval(&p, &s(9))));
    assert!(Kzg::verify_open(&vk, &c, &s(9), &v, &pi));
}

#[test]
fn opening_round_trip_with_random_polynomial_and_point() {
    let mut rng = test_rng();
    let (g1, g2) = unsafe_setup_from_rng(7, 4, &mut rng);
    let vk = VerifierKey::new(&g2, 4, 2).unwrap();
    let p: Vec<Scalar> = (0..8).map(|_| cq::utils::random_scalar(&mut rng)).collect();
    let z = cq::utils::random_scalar(&mut rng);
    let c = Kzg::commit_g1(&g1, &p).unwrap();
    let (v, pi) = Kzg::open_g1(&g1, &p, &z).unwrap();
    assert!(Kzg::verify_open(&vk, &c, &z, &v, &pi));
    assert!(!Kzg::verify_open(&vk, &c, &z, &v.add(&s(1)), &pi));
}

#[test]
fn opening_with_a_changed_evaluation_is_rejected() {
    let (g1, vk) = keys(3, 5);
    let p = poly(&[7, 0, 3, 11]);
    let c = Kzg::commit_g1(&g1, &p).unwrap();
    let (v, pi) = Kzg::open_g1(&g1, &p, &s(9)).unwrap();
    for delta in [1u64, 2, 1000] {
        assert!(!Kzg::verify_open(&vk, &c, &s(9), &v.add(&s(delta)), &pi));
        assert!(!Kzg::verify_open(&vk, &c, &s(9), &v.sub(&s(delta)), &pi));
    }
}

#[test]
fn opening_with_a_wrong_point_commitment_or_proof_is_rejected() {
    let (g1, vk) = keys(3, 5);
    let p = poly(&[7, 0, 3, 11]);
    let c = Kzg::commit_g1(&g1, &p).unwrap();
    let (v, pi) = Kzg::open_g1(&g1, &p, &s(9)).unwrap();
    assert!(!Kzg::verify_open(&vk, &c, &s(10), &v, &pi));
    assert!(!Kzg::verify_open(&vk, &c.mul(&s(2)), &s(9), &v, &pi));
    assert!(!Kzg::verify_open(&vk, &c, &s(9), &v, &pi.mul(&s(2))));
}

#[test]
fn opening_at_the_secret_itself_verifies() {
    let (g1, vk) = keys(3, 5);
    let p = poly(&[7, 0, 3, 11]);
    let c = Kzg::commit_g1(&g1, &p).unwrap();
    let (v, pi) = Kzg::open_g1(&g1, &p, &s(5)).unwrap();
    assert!(Kzg::verify_open(&vk, &c, &s(5), &v, &pi));
}

#[test]
fn opening_of_a_constant() {
    let (g1, vk) = keys(3, 5);
    let p = poly(&[42]);
    let c = Kzg::commit_g1(&g1, &p).unwrap();
    let (v, pi) = Kzg::open_g1(&g1, &p, &s(9)).unwrap();
    assert!(v.eq(&s(42)));
    assert!(Kzg::verify_open(&vk, &c, &s(9), &v, &pi));
    assert!(!Kzg::verify_open(&vk, &c, &s(9), &s(43), &pi));
}

#[test]
fn opening_under_another_secret_is_rejected() {
    let (g1, _) = keys(3, 5);
    let (_, other) = keys(3, 6);
    let p = poly(&[7, 0, 3, 11]);
    let c = Kzg::commit_g1(&g1, &p).unwrap();
    let (v, pi) = Kzg::open_g1(&g1, &p, &s(9)).unwrap();
    assert!(!Kzg::verify_open(&other, &c, &s(9), &v, &pi));
}

#[test]
fn batched_opening_round_trip() {
    let (g1, vk) = keys(3, 5);
    let polys = vec![poly(&[1, 2, 3]), poly(&[4]), poly(&[0, 0, 0, 9])];
    let cs: Vec<G1Point> = polys.iter().map(|p| Kzg::commit_g1(&g1, p).unwrap()).collect();
    let (evals, pi) = Kzg::batch_open_g1(&g1, &polys, &s(2), &s(77)).unwrap();
    assert_eq!(limbs(&evals), limbs(&poly(&[17, 4, 72])));
    assert!(Kzg::batch_verify_open(&vk, &cs, &s(2), &evals, &s(77), &pi));
}

#[test]
fn batched_opening_rejects_a_changed_value_or_challenge() {
    let (g1, vk) = keys(3, 5);
    let polys = vec![poly(&[1, 2, 3]), poly(&[4]), poly(&[0, 0, 0, 9])];
    let cs: Vec<G1Point> = polys.iter().map(|p| Kzg::commit_g1(&g1, p).unwrap()).collect();
    let (evals, pi) = Kzg::batch_open_g1(&g1, &polys, &s(2), &s(77)).unwrap();
    let mut wrong = evals.clone();
    wrong[1] = s(5);
    assert!(!Kzg::batch_verify_open(&vk, &cs, &s(2), &wrong, &s(77), &pi));
    assert!(!Kzg::batch_verify_open(&vk, &cs, &s(2), &evals, &s(78), &pi));
    assert!(!Kzg::batch_verify_open(&vk, &cs, &s(3), &evals, &s(77), &pi));
    assert!(!Kzg::batch_verify_open(&vk, &cs[..2].to_vec(), &s(2), &evals, &s(77), &pi));
}

#[test]
fn batched_opening_fails_past_the_degree_bound() {
    let (g1, _) = keys(3, 5);
    let polys = vec![poly(&[1, 2, 3]), poly(&[0, 0, 0, 0, 1])];
    assert_eq!(Kzg::batch_open_g1(&g1, &polys, &s(2), &s(77)).unwrap_err(), Error::DegreeError);
}

#[test]
fn verifier_key_sizes() {
    let (_, g2) = setup_from_trapdoor(1, 8, &s(5));
    assert!(VerifierKey::new(&g2, 8, 2).is_ok());
    assert!(VerifierKey::new(&g2, 8, 1).is_ok());
    assert_eq!(VerifierKey::new(&g2, 8, 0).unwrap_err(), Error::SizingError);
    assert_eq!(VerifierKey::new(&g2, 8, 8).unwrap_err(), Error::SizingError);
    assert_eq!(VerifierKey::new(&g2, 16, 2).unwrap_err(), Error::SizingError);
    let vk = VerifierKey::new(&g2, 8, 4).unwrap();
    assert_eq!((vk.table_size, vk.witness_size, vk.domain_size), (8, 4, 4));
    assert_eq!(vk.shift_g2.to_bytes(), G2Point::generator().mul(&s(5).pow(5)).to_bytes());
    // three entries live on a domain of four, seven on a domain of eight
    let vk = VerifierKey::new(&g2, 8, 3).unwrap();
    assert_eq!((vk.witness_size, vk.domain_size), (3, 4));
    assert_eq!(vk.shift_g2.to_bytes(), G2Point::generator().mul(&s(5).pow(5)).to_bytes());
    let vk = VerifierKey::new(&g2, 8, 7).unwrap();
    assert_eq!((vk.witness_size, vk.domain_size), (7, 8));
    assert_eq!(vk.shift_g2.to_bytes(), G2Point::generator().mul(&s(5)).to_bytes());
    // a table of six rows cannot hold the domain of five entries
    assert_eq!(VerifierKey::new(&g2, 6, 5).unwrap_err(), Error::SizingError);
    assert!(VerifierKey::new(&g2, 6, 4).is_ok());
}

#[test]
fn reference_string_of_one_point_commits_to_constants() {
    let (g1, g2) = setup_from_trapdoor(0, 0, &s(5));
    assert_eq!((g1.len(), g2.len()), (1, 1));
    let c = Kzg::commit_g1(&g1, &poly(&[9])).unwrap();
    assert!(c.same(&G1Point::generator().mul(&s(9))));
    assert_eq!(Kzg::commit_g1(&g1, &poly(&[9, 1])).unwrap_err(), Error::DegreeError);
    let c = Kzg::commit_g2(&g2, &poly(&[9])).unwrap();
    assert_eq!(c.to_bytes(), G2Point::generator().mul(&s(9)).to_bytes());
    let mut rng = test_rng();
    let (g1, _) = unsafe_setup_from_rng(0, 0, &mut rng);
    assert!(Kzg::commit_g1(&g1, &poly(&[9])).is_ok());
    assert!(Kzg::open_g1(&g1, &poly(&[9]), &s(3)).is_ok());
}
