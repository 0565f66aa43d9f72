use decaf377::fq::Fq;
use decaf377::invsqrt::{zeta, SqrtRatioZeta};

fn fq(n: u64) -> Fq {
    Fq::from_le_limbs([n, 0, 0, 0])
}

#[test]
fn fq_minus_one_and_half() {
    assert_eq!(
        fq(1).neg().to_le_limbs(),
        [
            725501752471715840,
            6461107452199829505,
            6968279316240510977,
            1345280370688173398,
        ]
    );
    let half = fq(2).inverse().unwrap();
    assert_eq!(
        half.to_le_limbs(),
        [
            9586122913090633729,
            12453925762954690560,
            3484139658120255488,
            672640185344086699,
        ]
    );
}

#[test]
fn zeta_has_its_montgomery_limbs() {
    assert_eq!(
        zeta().0,
        [
            5947794125541564500,
            11292571455564096885,
            11814268415718120036,
            155746270000486182,
        ]
    );
}

#[test]
fn sqrt_ratio_of_zero_numerator() {
    let (was_square, r) = Fq::sqrt_ratio_zeta(&Fq::zero(), &fq(5));
    assert!(was_square);
    assert!(r == Fq::zero());
    let (was_square, r) = Fq::sqrt_ratio_zeta(&Fq::zero(), &Fq::zero());
    assert!(was_square);
    assert!(r == Fq::zero());
}

#[test]
fn sqrt_ratio_of_zero_denominator() {
    let (was_square, r) = Fq::sqrt_ratio_zeta(&fq(3), &Fq::zero());
    assert!(!was_square);
    assert!(r == Fq::zero());
}

#[test]
fn sqrt_ratio_of_a_square() {
    let (was_square, r) = Fq::sqrt_ratio_zeta(&fq(4), &fq(1));
    assert!(was_square);
    assert!(r == fq(2) || r == fq(2).neg());

    let (was_square, r) = Fq::sqrt_ratio_zeta(&fq(1), &fq(4));
    assert!(was_square);
    assert!(r.square().mul(&fq(4)) == fq(1));

    let (was_square, r) = Fq::sqrt_ratio_zeta(&fq(5), &fq(3));
    assert!(was_square);
    assert!(r.square().mul(&fq(3)) == fq(5));
}

#[test]
fn sqrt_ratio_of_a_non_square() {
    let (was_square, r) = Fq::sqrt_ratio_zeta(&fq(7), &fq(11));
    assert!(!was_square);
    assert!(r.square().mul(&fq(11)) == zeta().mul(&fq(7)));

    let z = zeta();
    let (was_square, r) = Fq::sqrt_ratio_zeta(&z, &fq(1));
    assert!(!was_square);
    assert!(r == z || r == z.neg());
}

#[test]
fn sqrt_ratio_through_the_trait() {
    let (was_square, r) = <Fq as SqrtRatioZeta>::sqrt_ratio_zeta(&fq(9), &fq(1));
    assert!(was_square);
    assert!(r == fq(3) || r == fq(3).neg());
}
