//! Decaf encoding and decoding of group elements, over the base field of the
//! twisted Edwards curve `a x^2 + y^2 = 1 + d x^2 y^2` with `a = -1` and
//! `d = 3021`.
use crate::fq::{fq_modulus, fq_r_inv, is_canonical_bytes, lemma_fq_modulus_above_one, Fq};
use crate::group::{coords, extended_ok, on_curve};
use crate::invsqrt::{is_square_ratio, ratio_root, zeta, zeta_value};
use crate::limbs::{bytes_val, lemma_pow64_values, lemma_val4, lemma_val_parity, limbs_val};
use vstd::prelude::*;

verus! {

/// `a + b` modulo q.
pub open spec fn add_q(a: nat, b: nat) -> nat {
    (a + b) % fq_modulus()
}

/// `a - b` modulo q.
pub open spec fn sub_q(a: nat, b: nat) -> nat {
    ((a - b) % (fq_modulus() as int)) as nat
}

/// `a * b` modulo q.
pub open spec fn mul_q(a: nat, b: nat) -> nat {
    (a * b) % fq_modulus()
}

/// `-a` modulo q.
pub open spec fn neg_q(a: nat) -> nat {
    ((0 - a) % (fq_modulus() as int)) as nat
}

/// The Decaf sign: an element is non-negative when its canonical
/// representative is even.
pub open spec fn is_nonnegative(x: nat) -> bool {
    x % 2 == 0
}

/// `x` or `-x`, whichever is non-negative.
pub open spec fn abs_q(x: nat) -> nat {
    if is_nonnegative(x) {
        x
    } else {
        neg_q(x)
    }
}

/// `a - d = -1 - 3021`.
pub open spec fn a_minus_d() -> nat {
    neg_q(3022)
}

/// `(X + T)(X - T)`, the first quantity of the encoding.
pub open spec fn encode_u1(x: nat, t: nat) -> nat {
    mul_q(add_q(x, t), sub_q(x, t))
}

/// `u1 (a - d) X^2`, whose inverse square root the encoding takes.
pub open spec fn encode_den(x: nat, t: nat) -> nat {
    mul_q(mul_q(encode_u1(x, t), a_minus_d()), mul_q(x, x))
}

/// The encoding of `(X, Y, Z, T)` given the root `v` of `1 / encode_den`:
/// `abs((a - d) v (abs(v u1) Z - T) X)`.
pub open spec fn encode_with(x: nat, z: nat, t: nat, v: nat) -> nat {
    let u2 = abs_q(mul_q(v, encode_u1(x, t)));
    let u3 = sub_q(mul_q(u2, z), t);
    abs_q(mul_q(mul_q(mul_q(a_minus_d(), v), u3), x))
}

/// `1 - s^2`.
pub open spec fn decode_u1(s: nat) -> nat {
    sub_q(1, mul_q(s, s))
}

/// `u1^2 - 4 d s^2`.
pub open spec fn decode_u2(s: nat) -> nat {
    sub_q(mul_q(decode_u1(s), decode_u1(s)), mul_q(12084, mul_q(s, s)))
}

/// `u2 u1^2`, whose inverse square root decoding takes.
pub open spec fn decode_den(s: nat) -> nat {
    mul_q(decode_u2(s), mul_q(decode_u1(s), decode_u1(s)))
}

/// `2 s u1`.
pub open spec fn decode_two_s_u1(s: nat) -> nat {
    mul_q(mul_q(2, s), decode_u1(s))
}

/// The root `v`, negated when `2 s u1 v` is negative.
pub open spec fn decode_v(s: nat, v: nat) -> nat {
    if is_nonnegative(mul_q(decode_two_s_u1(s), v)) {
        v
    } else {
        neg_q(v)
    }
}

/// `X = 2 s u1 v^2 u2`.
pub open spec fn decode_x(s: nat, v: nat) -> nat {
    let w = decode_v(s, v);
    mul_q(mul_q(decode_two_s_u1(s), mul_q(w, w)), decode_u2(s))
}

/// `Y = (1 + s^2) v u1`.
pub open spec fn decode_y(s: nat, v: nat) -> nat {
    mul_q(mul_q(add_q(1, mul_q(s, s)), decode_v(s, v)), decode_u1(s))
}

/// What decoding the field element `s` may give: an error saying that `s`
/// is negative, or that `u2 u1^2` has no inverse square root; otherwise the
/// element `(X, Y, 1, X Y)` built from `s` and such a root.
pub open spec fn decodes_to(s: nat, r: Result<Element, EncodingError>) -> bool {
    &&& (r == Err::<Element, EncodingError>(EncodingError::NegativeEncoding)) == !is_nonnegative(s)
    &&& (r == Err::<Element, EncodingError>(EncodingError::NotInImage)) == (is_nonnegative(s) && (
    decode_den(s) == 0 || !is_square_ratio(1, decode_den(s))))
    &&& r != Err::<Element, EncodingError>(EncodingError::NonCanonicalBytes)
    &&& r matches Ok(p) ==> p.wf() && p.z.value() == 1 && p.t.value() == mul_q(
        p.x.value(),
        p.y.value(),
    ) && exists|v: nat|
        #[trigger] ratio_root(1, decode_den(s), true, v) && p.x.value() == decode_x(s, v)
            && p.y.value() == decode_y(s, v)
}

/// `r = zeta r0^2`.
pub open spec fn ell_r(r0: nat) -> nat {
    mul_q(zeta_value(), mul_q(r0, r0))
}

/// `(d r - (d - a)) ((d - a) r - d)`.
pub open spec fn ell_den(r0: nat) -> nat {
    mul_q(sub_q(mul_q(3021, ell_r(r0)), 3022), sub_q(mul_q(3022, ell_r(r0)), 3021))
}

/// `(r + 1)(a - 2 d)`.
pub open spec fn ell_num(r0: nat) -> nat {
    mul_q(add_q(ell_r(r0), 1), neg_q(6043))
}

/// The root scaled by the twiddle: `isri` when the ratio is square, else `isri r0`.
pub open spec fn ell_isri(r0: nat, iss: bool, isri: nat) -> nat {
    if iss {
        isri
    } else {
        mul_q(isri, r0)
    }
}

/// `s = isri num`, before its sign is fixed.
pub open spec fn ell_s_raw(r0: nat, iss: bool, isri: nat) -> nat {
    mul_q(ell_isri(r0, iss, isri), ell_num(r0))
}

/// `t = -sgn isri s (r - 1) (a - 2 d)^2 - 1`, with `sgn` one when the ratio is
/// square and minus one when it is not.
pub open spec fn ell_t(r0: nat, iss: bool, isri: nat) -> nat {
    let minus_sgn: nat = if iss {
        neg_q(1)
    } else {
        1
    };
    sub_q(
        mul_q(
            mul_q(
                mul_q(mul_q(minus_sgn, ell_isri(r0, iss, isri)), ell_s_raw(r0, iss, isri)),
                sub_q(ell_r(r0), 1),
            ),
            36517849,
        ),
        1,
    )
}

/// `s`, negated unless its being non-negative matches `iss`.
pub open spec fn ell_s(r0: nat, iss: bool, isri: nat) -> nat {
    let s = ell_s_raw(r0, iss, isri);
    if is_nonnegative(s) == iss {
        s
    } else {
        neg_q(s)
    }
}

/// Why a byte string is not the encoding of an element.
#[derive(Clone, Copy, Debug, PartialEq, Eq)]
pub enum EncodingError {
    /// The bytes hold a number of q or more, or one of the top two bits is set.
    NonCanonicalBytes,
    /// The field element is negative in the Decaf sense.
    NegativeEncoding,
    /// The field element is the encoding of no element.
    NotInImage,
}

/// A group element, as a representative in extended coordinates `(X, Y, Z, T)`.
/// Representatives of one element are equal under `X1 Y2 = X2 Y1`.
#[derive(Clone, Copy)]
pub struct Element {
    pub x: Fq,
    pub y: Fq,
    pub z: Fq,
    pub t: Fq,
}

/// The canonical 32-byte encoding of an element.
#[derive(Clone, Copy, Debug, PartialEq, Eq)]
pub struct Encoding(pub [u8; 32]);

/// Whether `x` is non-negative in the Decaf sense.
pub fn fq_is_nonnegative(x: &Fq) -> (r: bool)
    requires
        x.wf(),
    ensures
        r == is_nonnegative(x.value()),
{
    let limbs = x.to_le_limbs();
    proof {
        lemma_val_parity(limbs@);
    }
    let low: u64 = limbs[0];
    let bit: u64 = low & 1u64;
    proof {
        assert(bit == low % 2) by (bit_vector)
            requires
                bit == low & 1u64,
        ;
    }
    bit == 0
}

/// `x` or `-x`, whichever is non-negative.
pub fn fq_abs(x: &Fq) -> (r: Fq)
    requires
        x.wf(),
    ensures
        r.wf(),
        r.value() == abs_q(x.value()),
        is_nonnegative(r.value()),
{
    proof {
        lemma_abs_nonnegative(x.value());
    }
    if fq_is_nonnegative(x) {
        *x
    } else {
        x.neg()
    }
}

/// The absolute value is non-negative.
pub proof fn lemma_abs_nonnegative(x: nat)
    requires
        x < fq_modulus(),
    ensures
        is_nonnegative(abs_q(x)),
        abs_q(x) < fq_modulus(),
{
    lemma_fq_modulus_above_one();
    let q = fq_modulus() as int;
    if x % 2 != 0 {
        assert(x > 0);
        vstd::arithmetic::div_mod::lemma_mod_multiples_vanish(1, 0 - x, q);
        vstd::arithmetic::div_mod::lemma_small_mod((q - x) as nat, q as nat);
        assert(neg_q(x) == q - x);
    }
}

fn fq_small(n: u64) -> (r: Fq)
    ensures
        r.wf(),
        r.value() == (n as nat) % fq_modulus(),
{
    let limbs: [u64; 4] = [n, 0, 0, 0];
    proof {
        lemma_val4(limbs@);
        lemma_pow64_values();
        assert(limbs@[0] == n && limbs@[1] == 0 && limbs@[2] == 0 && limbs@[3] == 0);
    }
    Fq::from_le_limbs(limbs)
}

impl Element {
    /// All four coordinates are well formed.
    pub open spec fn wf(self) -> bool {
        self.x.wf() && self.y.wf() && self.z.wf() && self.t.wf()
    }

    /// Whether all four coordinates are well formed.
    pub fn is_well_formed(&self) -> (r: bool)
        ensures
            r == self.wf(),
    {
        self.x.is_canonical() && self.y.is_canonical() && self.z.is_canonical()
            && self.t.is_canonical()
    }

    /// The identity, `(0, 1, 1, 0)`.
    pub fn identity() -> (r: Element)
        ensures
            r.wf(),
            r.x.value() == 0,
            r.y.value() == 1,
            r.z.value() == 1,
            r.t.value() == 0,
            extended_ok(coords(r)),
            on_curve(coords(r)),
    {
        let r = Element { x: Fq::zero(), y: Fq::one(), z: Fq::one(), t: Fq::zero() };
        proof {
            lemma_fq_modulus_above_one();
            vstd::arithmetic::div_mod::lemma_small_mod(0, fq_modulus());
            vstd::arithmetic::div_mod::lemma_small_mod(1, fq_modulus());
            assert(coords(r) =~= seq![0nat, 1, 1, 0]);
            assert(mul_q(0, 1) == 0 && mul_q(1, 0) == 0 && mul_q(1, 1) == 1 && mul_q(0, 0) == 0);
            assert(mul_q(3021, 0) == 0);
        }
        r
    }

    /// The generator of the group.
    pub fn generator() -> (r: Element)
        ensures
            r.wf(),
            r.x.0 == [
                5825153684096051627u64,
                16988948339439369204,
                186539475124256708,
                1230075515893193738,
            ],
            r.y.0 == [
                9786171649960077610u64,
                13527783345193426398,
                10983305067350511165,
                1251302644532346138,
            ],
            r.t.0 == [
                7466800842436274004u64,
                14314110021432015475,
                14108125795146788134,
                1305086759679105397,
            ],
            r.z.value() == 1,
            extended_ok(coords(r)),
            on_curve(coords(r)),
    {
        let gx: [u64; 4] = [
            5825153684096051627,
            16988948339439369204,
            186539475124256708,
            1230075515893193738,
        ];
        let gy: [u64; 4] = [
            9786171649960077610,
            13527783345193426398,
            10983305067350511165,
            1251302644532346138,
        ];
        let gt: [u64; 4] = [
            7466800842436274004,
            14314110021432015475,
            14108125795146788134,
            1305086759679105397,
        ];
        proof {
            lemma_pow64_values();
            lemma_val4(gx@);
            lemma_val4(gy@);
            lemma_val4(gt@);
        }
        let r = Element {
            x: Fq::from_montgomery_limbs(gx),
            y: Fq::from_montgomery_limbs(gy),
            z: Fq::one(),
            t: Fq::from_montgomery_limbs(gt),
        };
        proof {
            let (mx, my, mt) = (limbs_val(gx@), limbs_val(gy@), limbs_val(gt@));
            let (x, y, t) = (r.x.value(), r.y.value(), r.t.value());
            assert(x == 11259890405852490411
                + 14628420737438842880 * 0x1_0000_0000_0000_0000
                + 16097505424174452736 * 0x1_0000_0000_0000_0000_0000_0000_0000_0000
                + 790085297070831995 * 0x1_0000_0000_0000_0000_0000_0000_0000_0000_0000_0000_0000_0000 && y == 10825718893928637112
                + 5601162024205856139 * 0x1_0000_0000_0000_0000
                + 16843886460499903705 * 0x1_0000_0000_0000_0000_0000_0000_0000_0000
                + 965488884132051682 * 0x1_0000_0000_0000_0000_0000_0000_0000_0000_0000_0000_0000_0000 && t == 11514259460449675771
                + 18244568523555639001 * 0x1_0000_0000_0000_0000
                + 8331805376280304374 * 0x1_0000_0000_0000_0000_0000_0000_0000_0000
                + 1228198784624938691 * 0x1_0000_0000_0000_0000_0000_0000_0000_0000_0000_0000_0000_0000) by (nonlinear_arith)
                requires
                    x == (mx * fq_r_inv()) % fq_modulus(),
                    y == (my * fq_r_inv()) % fq_modulus(),
                    t == (mt * fq_r_inv()) % fq_modulus(),
                    mx == 5825153684096051627
                    + 16988948339439369204 * 0x1_0000_0000_0000_0000
                    + 186539475124256708 * 0x1_0000_0000_0000_0000_0000_0000_0000_0000
                    + 1230075515893193738 * 0x1_0000_0000_0000_0000_0000_0000_0000_0000_0000_0000_0000_0000,
                    my == 9786171649960077610
                    + 13527783345193426398 * 0x1_0000_0000_0000_0000
                    + 10983305067350511165 * 0x1_0000_0000_0000_0000_0000_0000_0000_0000
                    + 1251302644532346138 * 0x1_0000_0000_0000_0000_0000_0000_0000_0000_0000_0000_0000_0000,
                    mt == 7466800842436274004
                    + 14314110021432015475 * 0x1_0000_0000_0000_0000
                    + 14108125795146788134 * 0x1_0000_0000_0000_0000_0000_0000_0000_0000
                    + 1305086759679105397 * 0x1_0000_0000_0000_0000_0000_0000_0000_0000_0000_0000_0000_0000,
            ;
            assert(extended_ok(seq![x, y, 1, t]) && on_curve(seq![x, y, 1, t])) by (nonlinear_arith)
                requires
                    x == 11259890405852490411
                    + 14628420737438842880 * 0x1_0000_0000_0000_0000
                    + 16097505424174452736 * 0x1_0000_0000_0000_0000_0000_0000_0000_0000
                    + 790085297070831995 * 0x1_0000_0000_0000_0000_0000_0000_0000_0000_0000_0000_0000_0000,
                    y == 10825718893928637112
                    + 5601162024205856139 * 0x1_0000_0000_0000_0000
                    + 16843886460499903705 * 0x1_0000_0000_0000_0000_0000_0000_0000_0000
                    + 965488884132051682 * 0x1_0000_0000_0000_0000_0000_0000_0000_0000_0000_0000_0000_0000,
                    t == 11514259460449675771
                    + 18244568523555639001 * 0x1_0000_0000_0000_0000
                    + 8331805376280304374 * 0x1_0000_0000_0000_0000_0000_0000_0000_0000
                    + 1228198784624938691 * 0x1_0000_0000_0000_0000_0000_0000_0000_0000_0000_0000_0000_0000,
            ;
            assert(coords(r) =~= seq![x, y, 1, t]);
        }
        r
    }

    /// The Elligator map from a field element to the group. With `r0` as
    /// input, `(s, t)` on the Jacobi quartic are found from the inverse square
    /// root of `num den` (see `ell_s` and `ell_t`), and the point is
    /// `x = 2 s / (1 + a s^2)`, `y = (1 - a s^2) / t`, written in extended
    /// coordinates as `(2 s t, (1 - a s^2)(1 + a s^2), (1 + a s^2) t,
    /// 2 s (1 - a s^2))`.
    pub fn elligator_map(r_0: &Fq) -> (p: Element)
        requires
            r_0.wf(),
        ensures
            p.wf(),
            exists|iss: bool, isri: nat|
                #[trigger] ratio_root(1, mul_q(ell_num(r_0.value()), ell_den(r_0.value())), iss, isri)
                    && {
                    let s = ell_s(r_0.value(), iss, isri);
                    let t = ell_t(r_0.value(), iss, isri);
                    let as2 = mul_q(neg_q(1), mul_q(s, s));
                    &&& p.x.value() == mul_q(mul_q(2, s), t)
                    &&& p.y.value() == mul_q(sub_q(1, as2), add_q(1, as2))
                    &&& p.z.value() == mul_q(add_q(1, as2), t)
                    &&& p.t.value() == mul_q(mul_q(2, s), sub_q(1, as2))
                },
    {
        proof {
            lemma_fq_modulus_above_one();
            vstd::arithmetic::div_mod::lemma_small_mod(1, fq_modulus());
            vstd::arithmetic::div_mod::lemma_small_mod(2, fq_modulus());
            vstd::arithmetic::div_mod::lemma_small_mod(3021, fq_modulus());
            vstd::arithmetic::div_mod::lemma_small_mod(3022, fq_modulus());
            vstd::arithmetic::div_mod::lemma_small_mod(6043, fq_modulus());
            vstd::arithmetic::div_mod::lemma_small_mod(36517849, fq_modulus());
        }
        let one = Fq::one();
        let a = one.neg();
        let d = fq_small(3021);
        let d_minus_a = fq_small(3022);
        let a_minus_2d = fq_small(6043).neg();
        let r = zeta().mul(&r_0.square());
        let den = d.mul(&r).sub(&d_minus_a).mul(&d_minus_a.mul(&r).sub(&d));
        let num = r.add(&one).mul(&a_minus_2d);
        let (iss, isri) = Fq::sqrt_ratio_zeta(&one, &num.mul(&den));
        let ghost root = isri.value();
        let minus_sgn = if iss {
            one.neg()
        } else {
            one
        };
        let twiddled = if iss {
            isri
        } else {
            isri.mul(r_0)
        };
        let s_raw = twiddled.mul(&num);
        let t = minus_sgn.mul(&twiddled).mul(&s_raw).mul(&r.sub(&one)).mul(&fq_small(36517849)).sub(
            &one,
        );
        let s = if fq_is_nonnegative(&s_raw) == iss {
            s_raw
        } else {
            s_raw.neg()
        };
        let as2 = a.mul(&s.square());
        let two_s = fq_small(2).mul(&s);
        let f = one.add(&as2);
        let g = one.sub(&as2);
        proof {
            assert(ratio_root(1, mul_q(ell_num(r_0.value()), ell_den(r_0.value())), iss, root));
        }
        Element { x: two_s.mul(&t), y: g.mul(&f), z: f.mul(&t), t: two_s.mul(&g) }
    }

    /// Decaf equality of the represented elements: `X1 Y2 = X2 Y1`.
    pub fn vartime_eq(&self, other: &Element) -> (r: bool)
        requires
            self.wf(),
            other.wf(),
        ensures
            r == (mul_q(self.x.value(), other.y.value()) == mul_q(other.x.value(), self.y.value())),
    {
        let lhs = self.x.mul(&other.y);
        let rhs = other.x.mul(&self.y);
        proof {
            crate::fq::fq_eq_is_value_eq(lhs, rhs);
        }
        lhs == rhs
    }

    /// The field element that encodes this element:
    /// `abs((a - d) v (abs(v u1) Z - T) X)` with `u1 = (X + T)(X - T)` and
    /// `v` the inverse square root of `u1 (a - d) X^2`.
    pub fn vartime_compress_to_field(&self) -> (s: Fq)
        requires
            self.wf(),
        ensures
            s.wf(),
            is_nonnegative(s.value()),
            exists|w: bool, v: nat|
                #[trigger] ratio_root(1, encode_den(self.x.value(), self.t.value()), w, v)
                    && s.value() == encode_with(
                    self.x.value(),
                    self.z.value(),
                    self.t.value(),
                    v,
                ),
    {
        let a_minus_d = fq_small(3022).neg();
        let u_1 = self.x.add(&self.t).mul(&self.x.sub(&self.t));
        let den = u_1.mul(&a_minus_d).mul(&self.x.square());
        let (was_square, v) = Fq::sqrt_ratio_zeta(&Fq::one(), &den);
        let u_2 = fq_abs(&v.mul(&u_1));
        let u_3 = u_2.mul(&self.z).sub(&self.t);
        let s = fq_abs(&a_minus_d.mul(&v).mul(&u_3).mul(&self.x));
        proof {
            lemma_fq_modulus_above_one();
            vstd::arithmetic::div_mod::lemma_small_mod(3022, fq_modulus());
            vstd::arithmetic::div_mod::lemma_small_mod(1, fq_modulus());
            assert(ratio_root(1, encode_den(self.x.value(), self.t.value()), was_square, v.value()));
        }
        s
    }

    /// The canonical bytes of this element: the 32 little-endian bytes of
    /// its encoding field element.
    pub fn vartime_compress(&self) -> (r: Encoding)
        requires
            self.wf(),
        ensures
            exists|s: Fq|
                s.wf() && #[trigger] bytes_val(r.0@) == s.value() && is_nonnegative(s.value())
                    && exists|w: bool, v: nat|
                    #[trigger] ratio_root(1, encode_den(self.x.value(), self.t.value()), w, v)
                        && s.value() == encode_with(
                        self.x.value(),
                        self.z.value(),
                        self.t.value(),
                        v,
                    ),
    {
        let s = self.vartime_compress_to_field();
        Encoding(s.to_bytes_le())
    }
}

impl Encoding {
    /// The element that the field element `s` encodes: none when `s` is
    /// negative or when `u2 u1^2` has no inverse square root, with
    /// `u1 = 1 - s^2` and `u2 = u1^2 - 4 d s^2`.
    pub fn vartime_decompress_field(s: &Fq) -> (r: Result<Element, EncodingError>)
        requires
            s.wf(),
        ensures
            decodes_to(s.value(), r),
    {
        proof {
            lemma_fq_modulus_above_one();
            vstd::arithmetic::div_mod::lemma_small_mod(1, fq_modulus());
            vstd::arithmetic::div_mod::lemma_small_mod(2, fq_modulus());
            vstd::arithmetic::div_mod::lemma_small_mod(12084, fq_modulus());
        }
        if !fq_is_nonnegative(s) {
            return Err(EncodingError::NegativeEncoding);
        }
        let one = Fq::one();
        let ss = s.square();
        let u_1 = one.sub(&ss);
        let u_2 = u_1.square().sub(&fq_small(12084).mul(&ss));
        let den = u_2.mul(&u_1.square());
        let (was_square, v) = Fq::sqrt_ratio_zeta(&one, &den);
        let ghost root = v.value();
        if !was_square {
            return Err(EncodingError::NotInImage);
        }
        let two_s_u_1 = fq_small(2).mul(s).mul(&u_1);
        let check = two_s_u_1.mul(&v);
        let v = if fq_is_nonnegative(&check) {
            v
        } else {
            v.neg()
        };
        let x = two_s_u_1.mul(&v.square()).mul(&u_2);
        let y = one.add(&ss).mul(&v).mul(&u_1);
        let z = Fq::one();
        let t = x.mul(&y);
        proof {
            assert(ratio_root(1, decode_den(s.value()), true, root));
        }
        Ok(Element { x, y, z, t })
    }

    /// The element that these bytes encode; the bytes must hold a number
    /// below q with the top two bits clear, and that number must decode.
    pub fn vartime_decompress(&self) -> (r: Result<Element, EncodingError>)
        ensures
            r == Err::<Element, EncodingError>(EncodingError::NonCanonicalBytes) <==> (self.0[31]
                >= 64 || bytes_val(self.0@) >= fq_modulus()),
            !(self.0[31] >= 64 || bytes_val(self.0@) >= fq_modulus()) ==> decodes_to(
                bytes_val(self.0@),
                r,
            ),
    {
        if self.0[31] >= 64 || !is_canonical_bytes(&self.0) {
            return Err(EncodingError::NonCanonicalBytes);
        }
        let s = Fq::from_bytes(&self.0);
        proof {
            vstd::arithmetic::div_mod::lemma_small_mod(bytes_val(self.0@), fq_modulus());
        }
        Encoding::vartime_decompress_field(&s)
    }
}

} // verus!
