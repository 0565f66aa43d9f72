//! Square roots of ratios in the base field of the curve, with the fixed
//! non-square zeta standing in when the ratio has no root.
use crate::fq::{fq_modulus, fq_r_inv, Fq};
use crate::limbs::{lemma_val4, lemma_pow64_values, limbs_val};
use crate::mont::{lemma_cancel, lemma_cong_mul};
use vstd::arithmetic::div_mod::{lemma_mod_twice, lemma_small_mod};
use vstd::prelude::*;

verus! {

/// The value of zeta.
pub open spec fn zeta_value() -> nat {
    17609527840223584744 + 4701987594316473147 * 0x1_0000_0000_0000_0000 + 4058025390511984089
        * 0x1_0000_0000_0000_0000_0000_0000_0000_0000 + 452705945804898116
        * 0x1_0000_0000_0000_0000_0000_0000_0000_0000_0000_0000_0000_0000
}

/// The square of `y`.
pub open spec fn sq(y: nat) -> nat {
    y * y
}

/// Whether `x` is a square modulo q.
pub open spec fn is_square(x: nat) -> bool {
    exists|y: nat| y < fq_modulus() && #[trigger] sq(y) % fq_modulus() == x
}

/// Whether some `y` has `y^2 * v = u` modulo q, that is whether `u / v` is a
/// square when `v` is nonzero.
pub open spec fn is_square_ratio(u: nat, v: nat) -> bool {
    exists|y: nat| y < fq_modulus() && (#[trigger] sq(y) * v) % fq_modulus() == u
}

/// What `sqrt_ratio_zeta(u, v)` may return as `(w, r)`: `(true, 0)` when `u`
/// is zero, `(false, 0)` when only `v` is, and otherwise `w` tells whether
/// `u / v` is a square, with `r^2 * v = u` when it is and `r^2 * v = zeta * u`
/// when it is not (as it always can be, zeta being a non-square).
pub open spec fn ratio_root(u: nat, v: nat, w: bool, r: nat) -> bool {
    let q = fq_modulus();
    &&& r < q
    &&& u == 0 ==> w && r == 0
    &&& u != 0 && v == 0 ==> !w && r == 0
    &&& u != 0 && v != 0 ==> (w <==> is_square_ratio(u, v))
    &&& u != 0 && v != 0 && w ==> (sq(r) * v) % q == u
    &&& u != 0 && v != 0 && !w && is_square_ratio((zeta_value() * u) % q, v) ==> (sq(r) * v) % q
        == (zeta_value() * u) % q
}

const ZETA_LIMBS: [u64; 4] = [
    5947794125541564500,
    11292571455564096885,
    11814268415718120036,
    155746270000486182,
];

/// The fixed non-square zeta.
pub fn zeta() -> (r: Fq)
    ensures
        r.wf(),
        r.value() == zeta_value(),
{
    proof {
        lemma_pow64_values();
        lemma_val4(ZETA_LIMBS@);
        let z = limbs_val(ZETA_LIMBS@);
        assert((z * fq_r_inv()) % fq_modulus() == zeta_value() && z < fq_modulus())
            by (nonlinear_arith)
            requires
                z == 5947794125541564500 + 11292571455564096885 * 0x1_0000_0000_0000_0000
                    + 11814268415718120036 * 0x1_0000_0000_0000_0000_0000_0000_0000_0000
                    + 155746270000486182
                    * 0x1_0000_0000_0000_0000_0000_0000_0000_0000_0000_0000_0000_0000,
        ;
    }
    Fq(ZETA_LIMBS)
}

/// Relies on ark-ff's `Field::sqrt` on `ark_ed_on_bls12_377::Fq`, the same
/// field: it returns a root only after checking that the root squares back to
/// its argument, and nothing when no root exists. Limbs are canonical.
#[verifier::external_body]
fn field_sqrt(x: [u64; 4]) -> (r: Option<[u64; 4]>)
    requires
        limbs_val(x@) < fq_modulus(),
    ensures
        r matches Some(y) ==> limbs_val(y@) < fq_modulus() && (limbs_val(y@) * limbs_val(y@))
            % fq_modulus() == limbs_val(x@),
        r is None ==> !is_square(limbs_val(x@)),
{
    let e = ark_ff::PrimeField::from_bigint(ark_ff::BigInt::new(x));
    let e: ark_ed_on_bls12_377::Fq = e.unwrap();
    match ark_ff::Field::sqrt(&e) {
        Some(s) => Some(ark_ff::PrimeField::into_bigint(s).0),
        None => None,
    }
}

/// Relies on ark-ff's `Field::inverse` on `ark_ed_on_bls12_377::Fq`: nothing
/// for zero, and otherwise the element whose product with the argument is one.
/// Limbs are canonical.
#[verifier::external_body]
fn field_inverse(x: [u64; 4]) -> (r: Option<[u64; 4]>)
    requires
        limbs_val(x@) < fq_modulus(),
    ensures
        r is None <==> limbs_val(x@) == 0,
        r matches Some(y) ==> limbs_val(y@) < fq_modulus() && (limbs_val(x@) * limbs_val(y@))
            % fq_modulus() == 1,
{
    let e = ark_ff::PrimeField::from_bigint(ark_ff::BigInt::new(x));
    let e: ark_ed_on_bls12_377::Fq = e.unwrap();
    match ark_ff::Field::inverse(&e) {
        Some(s) => Some(ark_ff::PrimeField::into_bigint(s).0),
        None => None,
    }
}

/// With `v * w = 1`, `y^2 * v = c * u` exactly when `y^2 = c * u * w`.
proof fn lemma_ratio_root(y: int, u: int, v: int, w: int, c: int, qv: int, m: int)
    requires
        m > 1,
        (v * w) % m == 1,
        0 <= u < m,
        qv == (c * ((u * w) % m)) % m,
    ensures
        ((y * y * v) % m == (c * u) % m) <==> ((y * y) % m == qv),
{
    // c (u w mod m) = c u w (mod m)
    vstd::arithmetic::div_mod::lemma_mul_mod_noop_right(c, u * w, m);
    assert(c * (u * w) == c * u * w) by (nonlinear_arith);
    if (y * y * v) % m == (c * u) % m {
        lemma_cong_mul(y * y * v, c * u, w, m);
        lemma_cancel(y * y, v, w, m);
    }
    if (y * y) % m == qv {
        lemma_cong_mul(y * y, c * u * w, v, m);
        assert(c * u * w * v == c * u * v * w) by (nonlinear_arith);
        lemma_cancel(c * u, v, w, m);
    }
}

impl Fq {
    /// The square root of `u / v`: `(true, r)` with `r^2 * v = u` when `u / v`
    /// is a square, `(false, r)` with `r^2 * v = zeta * u` when it is not,
    /// `(true, 0)` when `u` is zero and `(false, 0)` when only `v` is.
    pub fn sqrt_ratio_zeta(u: &Fq, v: &Fq) -> (r: (bool, Fq))
        requires
            u.wf(),
            v.wf(),
        ensures
            r.1.wf(),
            ratio_root(u.value(), v.value(), r.0, r.1.value()),
    {
        if u.is_zero() {
            return (true, Fq::zero());
        }
        if v.is_zero() {
            return (false, Fq::zero());
        }
        let ghost m: nat = fq_modulus();
        let v_limbs = v.to_le_limbs();
        let w_limbs = match field_inverse(v_limbs) {
            Some(w) => w,
            None => {
                return (false, Fq::zero());
            },
        };
        let w = Fq::from_le_limbs(w_limbs);
        let ratio = u.mul(&w);
        proof {
            crate::fq::lemma_fq_modulus_above_one();
            lemma_small_mod(limbs_val(w_limbs@), fq_modulus());
            lemma_mod_twice((u.value() * limbs_val(w_limbs@)) as int, m as int);
            assert(ratio.value() == (1 * ((u.value() * w.value()) % m)) % m);
            assert forall|y: nat| y < fq_modulus() implies ((#[trigger] sq(y) * v.value()) % m == (1
                * u.value()) % m) == (sq(y) % m == ratio.value()) by {
                lemma_ratio_root(
                    y as int,
                    u.value() as int,
                    v.value() as int,
                    w.value() as int,
                    1,
                    ratio.value() as int,
                    m as int,
                );
            }
            lemma_small_mod(u.value(), fq_modulus());
        }
        match field_sqrt(ratio.to_le_limbs()) {
            Some(s) => {
                let r = Fq::from_le_limbs(s);
                proof {
                    lemma_small_mod(limbs_val(s@), fq_modulus());
                    assert(sq(r.value()) % m == ratio.value());
                    assert(is_square_ratio(u.value(), v.value()));
                }
                return (true, r);
            },
            None => {
                proof {
                    if is_square_ratio(u.value(), v.value()) {
                        let y = choose|y: nat|
                            y < fq_modulus() && (sq(y) * v.value()) % fq_modulus() == u.value();
                        assert(sq(y) % m == ratio.value());
                    }
                }
            },
        }
        let z = zeta();
        let zr = z.mul(&ratio);
        proof {
            let zu = (zeta_value() * u.value()) % m;
            lemma_mod_twice((zeta_value() * u.value()) as int, m as int);
            assert forall|y: nat| y < fq_modulus() implies ((#[trigger] sq(y) * v.value()) % m == (
            zeta_value() * u.value()) % m) == (sq(y) % m == zr.value()) by {
                lemma_ratio_root(
                    y as int,
                    u.value() as int,
                    v.value() as int,
                    w.value() as int,
                    zeta_value() as int,
                    zr.value() as int,
                    m as int,
                );
            }
        }
        match field_sqrt(zr.to_le_limbs()) {
            Some(s) => {
                let r = Fq::from_le_limbs(s);
                proof {
                    lemma_small_mod(limbs_val(s@), fq_modulus());
                    assert(sq(r.value()) % m == zr.value());
                }
                (false, r)
            },
            None => {
                proof {
                    let zu = (zeta_value() * u.value()) % m;
                    if is_square_ratio(zu as nat, v.value()) {
                        let y = choose|y: nat|
                            y < fq_modulus() && (sq(y) * v.value()) % fq_modulus() == zu;
                        assert(sq(y) % m == zr.value());
                    }
                }
                (false, Fq::zero())
            },
        }
    }
}

/// The square root of a ratio, with zeta standing in for a non-square ratio.
pub trait SqrtRatioZeta: Sized {
    /// Whether a value is one that `sqrt_ratio_zeta` accepts.
    spec fn accepted(&self) -> bool;

    /// Whether `(w, r)` is a result that `sqrt_ratio_zeta(u, v)` may give.
    spec fn ratio_root_of(u: &Self, v: &Self, w: bool, r: &Self) -> bool;

    fn sqrt_ratio_zeta(u: &Self, v: &Self) -> (r: (bool, Self))
        requires
            u.accepted(),
            v.accepted(),
        ensures
            Self::ratio_root_of(u, v, r.0, &r.1),
    ;
}

impl SqrtRatioZeta for Fq {
    open spec fn accepted(&self) -> bool {
        self.wf()
    }

    open spec fn ratio_root_of(u: &Fq, v: &Fq, w: bool, r: &Fq) -> bool {
        r.wf() && ratio_root(u.value(), v.value(), w, r.value())
    }

    fn sqrt_ratio_zeta(u: &Fq, v: &Fq) -> (r: (bool, Fq)) {
        Fq::sqrt_ratio_zeta(u, v)
    }
}

} // verus!
