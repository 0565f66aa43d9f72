use decaf377::fp::Fp;
use decaf377::fr::Fr;

const FP_X: [u64; 6] = [
    0x0123456789abcdef,
    0xfedcba9876543210,
    0x1111,
    0x2222,
    0x3333,
    0x4444,
];
const FP_Y: [u64; 6] = [7, 8, 9, 10, 11, 12];
const FP_P_MINUS_ONE: [u64; 6] = [
    9586122913090633728,
    1660523435060625408,
    2230234197602682880,
    1883307231910630287,
    14284016967150029115,
    121098312706494698,
];
const FP_MODULUS: [u64; 6] = [
    9586122913090633729,
    1660523435060625408,
    2230234197602682880,
    1883307231910630287,
    14284016967150029115,
    121098312706494698,
];

fn fp_small(n: u64) -> Fp {
    Fp::from_le_limbs([n, 0, 0, 0, 0, 0])
}

fn fr_small(n: u64) -> Fr {
    Fr::from_le_limbs([n, 0, 0, 0])
}

#[test]
fn fp_one_round_trips_through_montgomery_form() {
    assert_eq!(Fp::one().to_le_limbs(), [1, 0, 0, 0, 0, 0]);
    assert_eq!(
        Fp::one().0,
        [
            202099033278250856,
            5854854902718660529,
            11492539364873682930,
            8885205928937022213,
            5545221690922665192,
            39800542322357402,
        ]
    );
    assert_eq!(Fp::zero().to_le_limbs(), [0; 6]);
}

#[test]
fn fp_small_arithmetic() {
    assert_eq!(fp_small(5).add(&fp_small(7)).to_le_limbs(), [12, 0, 0, 0, 0, 0]);
    assert_eq!(fp_small(3).mul(&fp_small(4)).to_le_limbs(), [12, 0, 0, 0, 0, 0]);
    assert_eq!(fp_small(9).square().to_le_limbs(), [81, 0, 0, 0, 0, 0]);
    assert_eq!(fp_small(9).sub(&fp_small(4)).to_le_limbs(), [5, 0, 0, 0, 0, 0]);
}

#[test]
fn fp_wraps_around_the_modulus() {
    assert_eq!(fp_small(0).sub(&fp_small(1)).to_le_limbs(), FP_P_MINUS_ONE);
    assert_eq!(fp_small(1).neg().to_le_limbs(), FP_P_MINUS_ONE);
    assert_eq!(fp_small(0).neg().to_le_limbs(), [0; 6]);
    let minus_one = Fp::from_le_limbs(FP_P_MINUS_ONE);
    assert_eq!(minus_one.add(&fp_small(1)).to_le_limbs(), [0; 6]);
    assert_eq!(minus_one.mul(&minus_one).to_le_limbs(), [1, 0, 0, 0, 0, 0]);
    assert_eq!(Fp::from_le_limbs(FP_MODULUS).to_le_limbs(), [0; 6]);
}

#[test]
fn fp_large_products() {
    let x = Fp::from_le_limbs(FP_X);
    let y = Fp::from_le_limbs(FP_Y);
    assert_eq!(
        x.mul(&y).to_le_limbs(),
        [
            3612661408519550487,
            11178544015317153794,
            15836571977204727226,
            4388016849124402470,
            17985422082979875110,
            96952559053760864,
        ]
    );
    assert_eq!(
        x.square().to_le_limbs(),
        [
            18098276102409848543,
            12481681055645751536,
            14880960512544367772,
            2210181948453682056,
            1245317769136878166,
            40942760906021240,
        ]
    );
    assert_eq!(
        y.sub(&x).to_le_limbs(),
        [
            9504137383874146841,
            1742508964277112312,
            2230234197602678519,
            1883307231910621559,
            14284016967150016019,
            121098312706477234,
        ]
    );
}

#[test]
fn fp_inverse() {
    assert!(Fp::zero().inverse().is_none());
    let x = Fp::from_le_limbs(FP_X);
    let inv = x.inverse().unwrap();
    assert_eq!(
        inv.to_le_limbs(),
        [
            8797126705430625143,
            9878010414060411894,
            2609556040317602378,
            1539941369485974226,
            4968394691998432033,
            49225092952843846,
        ]
    );
    assert!(x.mul(&inv) == Fp::one());
    assert!(Fp::one().inverse().unwrap() == Fp::one());
}

#[test]
fn fp_bytes() {
    let mut one = [0u8; 48];
    one[0] = 1;
    assert!(Fp::from_bytes(&one) == Fp::one());
    assert_eq!(Fp::one().to_bytes_le(), one);
    let x = Fp::from_le_limbs(FP_X);
    let bytes = x.to_bytes_le();
    assert_eq!(bytes[0], 0xef);
    assert_eq!(bytes[8], 0x10);
    assert!(Fp::from_bytes(&bytes) == x);
    assert_eq!(
        Fp::from_bytes(&[0xff; 48]).to_le_limbs(),
        [
            202099033278250855,
            5854854902718660529,
            11492539364873682930,
            8885205928937022213,
            5545221690922665192,
            39800542322357402,
        ]
    );
}

#[test]
fn fp_equality_and_montgomery_limbs() {
    let one = Fp::from_montgomery_limbs(Fp::one().0);
    assert!(one == Fp::one());
    assert!(fp_small(2) != fp_small(3));
    assert!(fp_small(2).is_zero() == false);
    assert!(fp_small(0).is_zero());
}

#[test]
fn fp_zeroize_clears_the_limbs() {
    let mut x = Fp::from_le_limbs(FP_X);
    x.zeroize();
    assert_eq!(x.0, [0; 6]);
    assert!(x == Fp::zero());
}

#[test]
fn fr_one_matches_montgomery_constant() {
    assert_eq!(
        Fr::one().0,
        [
            16632263305389933622,
            10726299895124897348,
            16608693673010411502,
            285459069419210737,
        ]
    );
    assert_eq!(Fr::one().to_le_limbs(), [1, 0, 0, 0]);
}

#[test]
fn fr_arithmetic() {
    let a = Fr::from_le_limbs([0xdeadbeefcafebabe, 0x0123456789abcdef, 0x1, 0x0400000000000000]);
    assert_eq!(
        a.mul(&fr_small(3)).to_le_limbs(),
        [
            2977828893022256188,
            6792141645372085202,
            14962604415589296130,
            192050943111048532,
        ]
    );
    assert_eq!(
        fr_small(1).neg().to_le_limbs(),
        [
            13356249993388743166,
            5950279507993463550,
            10965441865914903552,
            336320092672043349,
        ]
    );
    assert_eq!(fr_small(2).add(&fr_small(2)).to_le_limbs(), [4, 0, 0, 0]);
    assert_eq!(fr_small(7).sub(&fr_small(2)).to_le_limbs(), [5, 0, 0, 0]);
    assert_eq!(fr_small(7).square().to_le_limbs(), [49, 0, 0, 0]);
}

#[test]
fn fr_reduces_inputs_above_the_modulus() {
    assert_eq!(
        Fr::from_le_limbs([5, 0, 0, 0x0500000000000000]).to_le_limbs(),
        [
            5090494080320808454,
            12496464565716088065,
            7481302207794648063,
            23967877517596330,
        ]
    );
    let bytes: [u8; 32] = core::array::from_fn(|i| (i + 1) as u8);
    assert_eq!(
        Fr::from_raw_bytes(&bytes).to_le_limbs(),
        [
            12674658103967606279,
            2348970177915242512,
            9730205560510319119,
            296681287833887255,
        ]
    );
}

#[test]
fn fr_inverse() {
    assert!(Fr::zero().inverse().is_none());
    let inv3 = fr_small(3).inverse().unwrap();
    assert_eq!(
        inv3.to_le_limbs(),
        [
            4452083331129581056,
            1983426502664487850,
            3655147288638301184,
            112106697557347783,
        ]
    );
    assert!(inv3.mul(&fr_small(3)) == Fr::one());
}

#[test]
fn fr_bytes_round_trip() {
    let x = Fr::from_le_limbs([0xdeadbeefcafebabe, 0x0123456789abcdef, 0x1, 0x0400000000000000]);
    let bytes = x.to_bytes_le();
    assert_eq!(bytes[0], 0xbe);
    assert_eq!(bytes[31], 0x04);
    assert!(Fr::from_raw_bytes(&bytes) == x);
}

#[test]
fn fr_zeroize_and_equality() {
    let mut x = fr_small(42);
    assert!(x == Fr::from_montgomery_limbs(x.0));
    x.zeroize();
    assert_eq!(x.0, [0; 4]);
    assert!(x == Fr::zero());
    assert!(x.is_zero());
}
