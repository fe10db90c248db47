use cq::field::Scalar;
use cq::group::G1Point;
use cq::rng::SimpleHashFiatShamirRng;
use cq::transcript::Transcript;

fn challenge_after(messages: &[(&str, Vec<u8>)]) -> (u64, u64, u64, u64) {
    let mut t = Transcript::new();
    for (label, data) in messages {
        t.absorb(label, data);
    }
    t.squeeze_challenge().to_limbs()
}

#[test]
fn transcript_is_deterministic() {
    let messages = [("a", vec![1u8, 2, 3]), ("b", vec![4u8, 5])];
    assert_eq!(challenge_after(&messages), challenge_after(&messages));
    assert_eq!(challenge_after(&[]), challenge_after(&[]));
}

#[test]
fn one_corrupted_byte_changes_the_challenge() {
    let honest = challenge_after(&[("a", vec![1, 2, 3]), ("b", vec![4, 5])]);
    assert_ne!(honest, challenge_after(&[("a", vec![1, 2, 2]), ("b", vec![4, 5])]));
    assert_ne!(honest, challenge_after(&[("a", vec![1, 2, 3]), ("b", vec![5, 5])]));
}

#[test]
fn an_early_message_changes_every_later_challenge() {
    let mut t1 = Transcript::new();
    let mut t2 = Transcript::new();
    t1.absorb("first", &vec![0]);
    t2.absorb("first", &vec![1]);
    for round in ["x", "y", "z"] {
        t1.absorb(round, &vec![7, 7]);
        t2.absorb(round, &vec![7, 7]);
        assert_ne!(t1.squeeze_challenge().to_limbs(), t2.squeeze_challenge().to_limbs());
    }
}

#[test]
fn order_and_omission_change_the_challenge() {
    let honest = challenge_after(&[("a", vec![1]), ("b", vec![2])]);
    assert_ne!(honest, challenge_after(&[("b", vec![2]), ("a", vec![1])]));
    assert_ne!(honest, challenge_after(&[("a", vec![1])]));
    assert_ne!(honest, challenge_after(&[("b", vec![2])]));
    assert_ne!(honest, challenge_after(&[]));
}

#[test]
fn the_label_is_part_of_the_message() {
    let honest = challenge_after(&[("a", vec![1])]);
    assert_ne!(honest, challenge_after(&[("b", vec![1])]));
    // lengths are framed: moving a byte between label and data changes the message
    assert_ne!(challenge_after(&[("ab", vec![])]), challenge_after(&[("a", vec![b'b'])]));
    assert_ne!(
        challenge_after(&[("a", vec![1, 2]), ("b", vec![])]),
        challenge_after(&[("a", vec![1]), ("b", vec![2])])
    );
}

#[test]
fn a_challenge_is_not_issued_twice() {
    let mut t = Transcript::new();
    t.absorb("a", &vec![1]);
    let c1 = t.squeeze_challenge().to_limbs();
    let c2 = t.squeeze_challenge().to_limbs();
    let c3 = t.squeeze_challenge().to_limbs();
    assert_ne!(c1, c2);
    assert_ne!(c2, c3);
    assert_ne!(c1, c3);
}

#[test]
fn squeezing_resumes_where_a_copy_stopped() {
    let mut t = Transcript::new();
    t.absorb("a", &vec![1]);
    let _ = t.squeeze_challenge();
    let mut copy = t;
    assert_eq!(t.squeeze_challenge().to_limbs(), copy.squeeze_challenge().to_limbs());
}

#[test]
fn absorbing_resets_the_stream() {
    let mut t1 = Transcript::new();
    t1.absorb("a", &vec![1]);
    let _ = t1.squeeze_challenge();
    let _ = t1.squeeze_challenge();
    t1.absorb("b", &vec![2]);
    let mut t2 = Transcript::new();
    t2.absorb("a", &vec![1]);
    t2.absorb("b", &vec![2]);
    assert_eq!(t1.squeeze_challenge().to_limbs(), t2.squeeze_challenge().to_limbs());
}

#[test]
fn typed_absorbs_use_the_canonical_encodings() {
    let p = G1Point::generator().mul(&Scalar::from_u64(3));
    let x = Scalar::from_u64(99);
    let mut typed = Transcript::new();
    typed.absorb_g1("p", &p);
    typed.absorb_scalar("x", &x);
    typed.absorb_size("n", 1 << 16);
    let mut raw = Transcript::new();
    raw.absorb("p", &p.to_bytes());
    raw.absorb("x", &x.to_bytes());
    raw.absorb("n", &vec![0, 0, 1, 0, 0, 0, 0, 0]);
    assert_eq!(typed.squeeze_challenge().to_limbs(), raw.squeeze_challenge().to_limbs());
}

#[test]
fn the_generator_depends_on_its_initial_input() {
    let mut a = SimpleHashFiatShamirRng::initialize(&b"CQ-1.0".to_vec());
    let mut b = SimpleHashFiatShamirRng::initialize(&b"CQ-1.1".to_vec());
    let mut c = SimpleHashFiatShamirRng::initialize(&b"CQ-1.0".to_vec());
    let x = a.next_scalar().to_limbs();
    assert_ne!(x, b.next_scalar().to_limbs());
    assert_eq!(x, c.next_scalar().to_limbs());
}

#[test]
fn a_new_transcript_is_seeded_with_the_protocol_name() {
    let mut t = Transcript::new();
    let mut g = SimpleHashFiatShamirRng::initialize(&b"CQ-1.0".to_vec());
    assert_eq!(t.squeeze_challenge().to_limbs(), g.next_scalar().to_limbs());
}

#[test]
fn the_first_challenge_of_the_empty_transcript_is_fixed() {
    // Keccak-256 of the protocol name seeds ChaCha20; the first field element
    // drawn from that stream must not change between builds.
    let mut t1 = Transcript::new();
    let mut t2 = Transcript::new();
    let c = t1.squeeze_challenge();
    assert!(c.eq(&t2.squeeze_challenge()));
    assert!(!c.is_zero());
}

#[test]
fn raw_absorb_hashes_input_then_seed() {
    let mut a = SimpleHashFiatShamirRng::initialize(&vec![1]);
    let mut b = SimpleHashFiatShamirRng::initialize(&vec![1]);
    a.absorb(&vec![2, 3]);
    b.absorb(&vec![2]);
    b.absorb(&vec![3]);
    assert_ne!(a.next_scalar().to_limbs(), b.next_scalar().to_limbs());
}
