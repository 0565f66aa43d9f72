use decaf377::encoding::{Element, Encoding, EncodingError};
use decaf377::fq::Fq;
use decaf377::fr::Fr;
use decaf377::group::AffineElement;

fn fq(n: u64) -> Fq {
    Fq::from_le_limbs([n, 0, 0, 0])
}

fn fr(n: u64) -> Fr {
    Fr::from_le_limbs([n, 0, 0, 0])
}

fn round_trips(p: &Element) -> bool {
    let bytes = p.vartime_compress();
    assert_eq!(bytes.0[31] >> 6, 0);
    assert_eq!(bytes.0[0] & 1, 0);
    match bytes.vartime_decompress() {
        Ok(q) => q.vartime_eq(p) && q.vartime_compress() == bytes,
        Err(_) => false,
    }
}

#[test]
fn identity_encodes_to_zero() {
    let id = Element::identity();
    assert!(id.vartime_compress_to_field() == Fq::zero());
    assert_eq!(id.vartime_compress().0, [0u8; 32]);
    let decoded = Encoding([0u8; 32]).vartime_decompress().unwrap();
    assert!(decoded.vartime_eq(&id));
}

#[test]
fn generator_bytes_are_fixed() {
    let mut eight = [0u8; 32];
    eight[0] = 8;
    assert_eq!(Element::generator().vartime_compress().0, eight);
    assert!(Element::generator().vartime_compress_to_field() == fq(8));
    let decoded = Encoding(eight).vartime_decompress().unwrap();
    assert!(decoded.vartime_eq(&Element::generator()));
}

#[test]
fn well_formedness_is_checked() {
    assert!(Element::generator().is_well_formed());
    let mut bad = Element::identity();
    bad.x = Fq([u64::MAX; 4]);
    assert!(!bad.is_well_formed());
    assert!(!Fq([u64::MAX; 4]).is_canonical());
    assert!(Fq::one().is_canonical());
}

#[test]
fn generator_round_trips() {
    let g = Element::generator();
    assert!(round_trips(&g));
    assert!(!g.vartime_eq(&Element::identity()));
}

#[test]
fn multiples_of_the_generator_round_trip() {
    let g = Element::generator();
    assert!(round_trips(&g.add(&g)));
    assert!(round_trips(&g.mul(&fr(5))));
    assert!(round_trips(&g.mul(&fr(123456789))));
    assert!(round_trips(&g.neg()));
}

#[test]
fn top_bits_are_rejected() {
    let mut bytes = Element::generator().vartime_compress();
    bytes.0[31] |= 0x80;
    assert_eq!(bytes.vartime_decompress().err(), Some(EncodingError::NonCanonicalBytes));
    let mut bytes = Encoding([0u8; 32]);
    bytes.0[31] = 0x40;
    assert_eq!(bytes.vartime_decompress().err(), Some(EncodingError::NonCanonicalBytes));
}

#[test]
fn numbers_of_the_modulus_or_more_are_rejected() {
    let mut q = Fq::zero().sub(&Fq::one()).to_bytes_le();
    q[0] += 1;
    assert_eq!(Encoding(q).vartime_decompress().err(), Some(EncodingError::NonCanonicalBytes));
}

#[test]
fn negative_encodings_are_rejected() {
    let mut bytes = Element::generator().vartime_compress();
    bytes.0[0] ^= 1;
    assert_eq!(bytes.vartime_decompress().err(), Some(EncodingError::NegativeEncoding));
    let mut one = [0u8; 32];
    one[0] = 1;
    assert_eq!(Encoding(one).vartime_decompress().err(), Some(EncodingError::NegativeEncoding));
}

#[test]
fn field_elements_outside_the_image_are_rejected() {
    assert_eq!(Encoding::vartime_decompress_field(&fq(2)).err(), Some(EncodingError::NotInImage));
    assert_eq!(Encoding::vartime_decompress_field(&fq(18)).err(), Some(EncodingError::NotInImage));
    assert!(Encoding::vartime_decompress_field(&fq(8)).is_ok());
}

#[test]
fn decoded_points_re_encode_to_the_same_field_element() {
    for s in [8u64, 10, 12, 14, 16, 24] {
        let p = Encoding::vartime_decompress_field(&fq(s)).unwrap();
        assert!(p.vartime_compress_to_field() == fq(s));
    }
}

#[test]
fn elligator_outputs_round_trip() {
    for r in [1u64, 2, 3, 1000, 0xdead_beef] {
        let p = Element::elligator_map(&fq(r));
        assert!(round_trips(&p));
    }
    let sum = Element::elligator_map(&fq(7)).add(&Element::elligator_map(&fq(11)));
    assert!(round_trips(&sum));
}

#[test]
fn group_laws_on_examples() {
    let g = Element::generator();
    let h = Element::elligator_map(&fq(42));
    assert!(g.add(&h).vartime_eq(&h.add(&g)));
    assert!(g.sub(&g).vartime_eq(&Element::identity()));
    assert!(g.add(&Element::identity()).vartime_eq(&g));
    let k = fr(1234);
    let k2 = fr(5678);
    assert!(g.mul(&k).add(&g.mul(&k2)).vartime_eq(&g.mul(&k.add(&k2))));
    assert!(g.mul(&k.mul(&k2)).vartime_eq(&g.mul(&k2).mul(&k)));
    assert!(g.mul(&fr(2)).vartime_eq(&g.add(&g)));
    assert!(g.mul(&Fr::zero()).vartime_eq(&Element::identity()));
}

#[test]
fn doubling_matches_adding_to_itself() {
    let g = Element::generator();
    assert!(g.double().vartime_eq(&g.add(&g)));
    assert!(round_trips(&g.double()));
    let h = Element::elligator_map(&fq(99));
    assert!(h.double().vartime_eq(&h.mul(&fr(2))));
}

#[test]
fn generator_has_the_group_order() {
    let g = Element::generator();
    let minus_one = Fr::zero().sub(&Fr::one());
    assert!(g.mul(&minus_one).add(&g).vartime_eq(&Element::identity()));
}

#[test]
fn normalize_batch_gives_affine_representatives() {
    let g = Element::generator();
    let points = vec![
        g,
        g.double(),
        Element::identity(),
        Element::elligator_map(&fq(5)),
        g.mul(&fr(77)),
    ];
    let affine: Vec<AffineElement> = Element::normalize_batch(&points);
    assert_eq!(affine.len(), points.len());
    for (p, a) in points.iter().zip(affine.iter()) {
        let e = a.to_element();
        assert!(e.vartime_eq(p));
        assert!(e.z == Fq::one());
        assert!(a.x.mul(&p.z) == p.x);
        assert!(a.y.mul(&p.z) == p.y);
    }
    assert!(affine[0].x == g.x && affine[0].y == g.y);
    assert!(affine[2].x == Fq::zero() && affine[2].y == Fq::one());
    assert!(Element::normalize_batch(&Vec::new()).is_empty());
}
