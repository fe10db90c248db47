use cq::field::Scalar;
use cq::group::{pairing_check, G1Point, G2Point};

const MODULUS: (u64, u64, u64, u64) = (
    4891460686036598785,
    2896914383306846353,
    13281191951274694749,
    3486998266802970665,
);

fn s(n: u64) -> Scalar {
    Scalar::from_u64(n)
}

fn minus(n: u64) -> Scalar {
    Scalar::zero().sub(&s(n))
}

#[test]
fn scalar_small_arithmetic() {
    assert_eq!(s(7).add(&s(5)).to_limbs(), (12, 0, 0, 0));
    assert_eq!(s(7).sub(&s(5)).to_limbs(), (2, 0, 0, 0));
    assert_eq!(s(7).mul(&s(5)).to_limbs(), (35, 0, 0, 0));
    assert!(s(7).mul(&s(5)).eq(&s(35)));
    assert!(!s(7).eq(&s(5)));
}

#[test]
fn scalar_subtraction_wraps_around_the_modulus() {
    let r = s(0).sub(&s(1));
    assert_eq!(r.to_limbs(), (MODULUS.0 - 1, MODULUS.1, MODULUS.2, MODULUS.3));
    assert!(r.add(&s(1)).is_zero());
}

#[test]
fn scalar_carry_between_limbs() {
    let a = Scalar::from_limbs(u64::MAX, 0, 0, 0).unwrap();
    assert_eq!(a.add(&s(1)).to_limbs(), (0, 1, 0, 0));
    assert_eq!(a.mul(&s(2)).to_limbs(), (u64::MAX - 1, 1, 0, 0));
}

#[test]
fn scalar_from_limbs_accepts_exactly_the_canonical_values() {
    assert!(Scalar::from_limbs(MODULUS.0, MODULUS.1, MODULUS.2, MODULUS.3).is_none());
    assert!(Scalar::from_limbs(MODULUS.0 - 1, MODULUS.1, MODULUS.2, MODULUS.3).is_some());
    assert!(Scalar::from_limbs(0, 0, 0, MODULUS.3 + 1).is_none());
    assert!(Scalar::from_limbs(u64::MAX, u64::MAX, u64::MAX, MODULUS.3 - 1).is_some());
    assert!(Scalar::from_limbs(0, 0, 0, 0).unwrap().is_zero());
}

#[test]
fn scalar_inverse_of_zero_is_none() {
    assert!(Scalar::zero().inverse().is_none());
}

#[test]
fn scalar_inverse_multiplies_to_one() {
    for n in [1u64, 2, 3, 65537, u64::MAX] {
        let inv = s(n).inverse().unwrap();
        assert!(s(n).mul(&inv).eq(&Scalar::one()));
    }
    assert!(s(1).inverse().unwrap().eq(&s(1)));
}

#[test]
fn scalar_pow_matches_repeated_multiplication() {
    assert!(s(3).pow(0).eq(&s(1)));
    assert!(s(3).pow(1).eq(&s(3)));
    assert!(s(3).pow(5).eq(&s(243)));
    assert!(s(2).pow(63).eq(&s(1 << 63)));
    assert_eq!(s(2).pow(64).to_limbs(), (0, 1, 0, 0));
    assert!(s(0).pow(0).eq(&s(1)));
    assert!(s(0).pow(3).is_zero());
}

#[test]
fn scalar_bytes_are_little_endian() {
    let a = Scalar::from_limbs(0x0102030405060708, 9, 0, 1).unwrap();
    let bytes = a.to_bytes();
    assert_eq!(bytes.len(), 32);
    assert_eq!(&bytes[0..8], &[8, 7, 6, 5, 4, 3, 2, 1]);
    assert_eq!(bytes[8], 9);
    assert_eq!(bytes[24], 1);
    assert_eq!(bytes[31], 0);
}

#[test]
fn g1_scalar_multiplication_is_additive() {
    let g = G1Point::generator();
    let a = g.mul(&s(5));
    let b = g.mul(&s(7));
    let sum = G1Point::msm(&vec![a, b], &vec![s(1), s(1)]);
    assert!(sum.same(&g.mul(&s(12))));
    assert!(!sum.same(&g.mul(&s(13))));
    assert!(!a.same(&g));
}

#[test]
fn g1_msm_is_the_weighted_sum() {
    let g = G1Point::generator();
    let bases = vec![g.mul(&s(2)), g.mul(&s(3)), g.mul(&s(5))];
    let r = G1Point::msm(&bases, &vec![s(10), s(100), s(1000)]);
    assert!(r.same(&g.mul(&s(20 + 300 + 5000))));
}

#[test]
fn g1_msm_leaves_out_bases_beyond_the_scalars() {
    let g = G1Point::generator();
    let bases = vec![g, g.mul(&s(3)), g.mul(&s(5))];
    let r = G1Point::msm(&bases, &vec![s(4), s(2)]);
    assert!(r.same(&g.mul(&s(10))));
}

#[test]
fn g1_empty_msm_is_the_identity() {
    let g = G1Point::generator();
    let zero = G1Point::msm(&vec![], &vec![]);
    assert!(zero.same(&g.mul(&Scalar::zero())));
    let back = G1Point::msm(&vec![zero, g], &vec![s(9), s(1)]);
    assert!(back.same(&g));
}

#[test]
fn g1_multiplication_by_the_group_order_wraps() {
    let g = G1Point::generator();
    let p = g.mul(&minus(1));
    let sum = G1Point::msm(&vec![p, g], &vec![s(1), s(1)]);
    assert!(sum.same(&G1Point::msm(&vec![], &vec![])));
}

#[test]
fn g1_encoding_is_64_bytes_and_deterministic() {
    let g = G1Point::generator();
    let a = g.mul(&s(11)).to_bytes();
    let b = G1Point::msm(&vec![g, g.mul(&s(5))], &vec![s(1), s(2)]).to_bytes();
    assert_eq!(a.len(), 64);
    assert_eq!(a, b);
    assert_ne!(a, g.to_bytes());
}

#[test]
fn g2_encoding_is_128_bytes_and_deterministic() {
    let h = G2Point::generator();
    let a = h.mul(&s(6)).to_bytes();
    let b = G2Point::msm(&vec![h.mul(&s(2)), h.mul(&s(4))], &vec![s(1), s(1)]).to_bytes();
    assert_eq!(a.len(), 128);
    assert_eq!(a, b);
    assert_ne!(a, h.to_bytes());
}

#[test]
fn pairing_is_bilinear() {
    let g = G1Point::generator();
    let h = G2Point::generator();
    // e(6 G, 7 H) * e(-42 G, H) = 1
    assert!(pairing_check(&vec![g.mul(&s(6)), g.mul(&minus(42))], &vec![h.mul(&s(7)), h]));
    // e(6 G, 7 H) * e(-41 G, H) != 1
    assert!(!pairing_check(&vec![g.mul(&s(6)), g.mul(&minus(41))], &vec![h.mul(&s(7)), h]));
    // e(2 G, 3 H) * e(3 G, 2 H) * e(G, -12 H) = 1
    assert!(pairing_check(
        &vec![g.mul(&s(2)), g.mul(&s(3)), g],
        &vec![h.mul(&s(3)), h.mul(&s(2)), h.mul(&minus(12))]
    ));
}

#[test]
fn pairing_of_nothing_is_one() {
    assert!(pairing_check(&vec![], &vec![]));
    assert!(!pairing_check(&vec![G1Point::generator()], &vec![G2Point::generator()]));
}
