//! Group operations on elements, by the twisted Edwards arithmetic of
//! ark-ec on the extended coordinates of the representatives.
use crate::encoding::{add_q, mul_q, neg_q, sub_q, Element};
use crate::fq::{fq_modulus, lemma_fq_modulus_above_one, Fq};
use vstd::arithmetic::div_mod::{
    lemma_mul_mod_noop, lemma_mul_mod_noop_left, lemma_mul_mod_noop_right, lemma_sub_mod_noop,
};
use crate::fr::{fr_modulus, Fr};
use crate::limbs::limbs_val;
use vstd::prelude::*;

verus! {

/// The values of the coordinates `(X, Y, Z, T)` of a representative.
pub open spec fn coords(p: Element) -> Seq<nat> {
    seq![p.x.value(), p.y.value(), p.z.value(), p.t.value()]
}

/// The values held by four canonical coordinates, in the order `X, Y, Z, T`.
pub open spec fn coords_val(c: [[u64; 4]; 4]) -> Seq<nat> {
    seq![limbs_val(c[0]@), limbs_val(c[1]@), limbs_val(c[2]@), limbs_val(c[3]@)]
}

/// Each of the four coordinates is held below q.
pub open spec fn coords_canonical(c: [[u64; 4]; 4]) -> bool {
    forall|i: int| 0 <= i < 4 ==> #[trigger] limbs_val(c[i]@) < fq_modulus()
}

/// The unified addition of extended coordinates on `-x^2 + y^2 = 1 + d x^2 y^2`:
/// with `A = X1 X2`, `B = Y1 Y2`, `C = d T1 T2`, `D = Z1 Z2`,
/// `E = (X1 + Y1)(X2 + Y2) - A - B`, `F = D - C`, `G = D + C`, `H = B + A`,
/// the sum is `(E F, G H, F G, E H)`.
pub open spec fn unified_sum(p: Seq<nat>, q: Seq<nat>) -> Seq<nat> {
    let a = mul_q(p[0], q[0]);
    let b = mul_q(p[1], q[1]);
    let c = mul_q(mul_q(3021, p[3]), q[3]);
    let d = mul_q(p[2], q[2]);
    let e = sub_q(sub_q(mul_q(add_q(p[0], p[1]), add_q(q[0], q[1])), a), b);
    let f = sub_q(d, c);
    let g = add_q(d, c);
    let h = sub_q(b, neg_q(a));
    seq![mul_q(e, f), mul_q(g, h), mul_q(f, g), mul_q(e, h)]
}

/// Doubling in extended coordinates on `-x^2 + y^2 = 1 + d x^2 y^2`: with
/// `A = X^2`, `B = Y^2`, `C = 2 Z^2`, `D = -A`, `E = (X + Y)^2 - A - B`,
/// `G = D + B`, `F = G - C`, `H = D - B`, the double is `(E F, G H, F G, E H)`.
pub open spec fn doubled(p: Seq<nat>) -> Seq<nat> {
    let a = mul_q(p[0], p[0]);
    let b = mul_q(p[1], p[1]);
    let c = add_q(mul_q(p[2], p[2]), mul_q(p[2], p[2]));
    let d = neg_q(a);
    let e = sub_q(sub_q(mul_q(add_q(p[0], p[1]), add_q(p[0], p[1])), a), b);
    let g = add_q(d, b);
    let f = sub_q(g, c);
    let h = sub_q(d, b);
    seq![mul_q(e, f), mul_q(g, h), mul_q(f, g), mul_q(e, h)]
}

/// Double-and-add from the top bit of `k` down, starting from `(0, 1, 1, 0)`:
/// the multiple of `p` by `k` is the double of the multiple by `k / 2`, with
/// `p` added when `k` is odd.
pub open spec fn multiple(p: Seq<nat>, k: nat) -> Seq<nat>
    decreases k,
{
    if k == 0 {
        seq![0, 1, 1, 0]
    } else {
        let d = doubled(multiple(p, k / 2));
        if k % 2 == 1 {
            unified_sum(d, p)
        } else {
            d
        }
    }
}

/// `X Y = Z T`: the four values are extended coordinates of one affine point.
pub open spec fn extended_ok(c: Seq<nat>) -> bool {
    mul_q(c[0], c[1]) == mul_q(c[2], c[3])
}

/// `-X^2 + Y^2 = Z^2 + d T^2`: the curve equation in extended coordinates.
pub open spec fn on_curve(c: Seq<nat>) -> bool {
    sub_q(mul_q(c[1], c[1]), mul_q(c[0], c[0])) == add_q(mul_q(c[2], c[2]), mul_q(3021, mul_q(c[3], c[3])))
}

proof fn lemma_efgh(e: nat, f: nat, g: nat, h: nat)
    ensures
        mul_q(mul_q(e, f), mul_q(g, h)) == mul_q(mul_q(f, g), mul_q(e, h)),
{
    lemma_fq_modulus_above_one();
    let m = fq_modulus() as int;
    lemma_mul_mod_noop((e * f) as int, (g * h) as int, m);
    lemma_mul_mod_noop((f * g) as int, (e * h) as int, m);
    assert(e * f * (g * h) == f * g * (e * h)) by (nonlinear_arith);
}

/// A sum by the unified formula satisfies `X Y = Z T`, whatever its inputs.
pub proof fn lemma_sum_extended(p: Seq<nat>, q: Seq<nat>)
    ensures
        extended_ok(unified_sum(p, q)),
{
    let a = mul_q(p[0], q[0]);
    let b = mul_q(p[1], q[1]);
    let c = mul_q(mul_q(3021, p[3]), q[3]);
    let d = mul_q(p[2], q[2]);
    let e = sub_q(sub_q(mul_q(add_q(p[0], p[1]), add_q(q[0], q[1])), a), b);
    lemma_efgh(e, sub_q(d, c), add_q(d, c), sub_q(b, neg_q(a)));
}

/// A double satisfies `X Y = Z T`, whatever its input.
pub proof fn lemma_double_extended(p: Seq<nat>)
    ensures
        extended_ok(doubled(p)),
{
    let a = mul_q(p[0], p[0]);
    let b = mul_q(p[1], p[1]);
    let c = add_q(mul_q(p[2], p[2]), mul_q(p[2], p[2]));
    let d = neg_q(a);
    let e = sub_q(sub_q(mul_q(add_q(p[0], p[1]), add_q(p[0], p[1])), a), b);
    let g = add_q(d, b);
    lemma_efgh(e, sub_q(g, c), g, sub_q(d, b));
}

/// Every multiple satisfies `X Y = Z T`.
pub proof fn lemma_multiple_extended(p: Seq<nat>, k: nat)
    ensures
        extended_ok(multiple(p, k)),
{
    lemma_fq_modulus_above_one();
    if k == 0 {
        vstd::arithmetic::div_mod::lemma_small_mod(0, fq_modulus());
        assert(0 * 1 == 0 && 1 * 0 == 0);
        assert(mul_q(0, 1) == 0);
        assert(mul_q(1, 0) == 0);
    } else {
        let d = doubled(multiple(p, k / 2));
        lemma_double_extended(multiple(p, k / 2));
        if k % 2 == 1 {
            lemma_sum_extended(d, p);
        }
    }
}

proof fn lemma_neg_square(x: nat)
    ensures
        mul_q(neg_q(x), neg_q(x)) == mul_q(x, x),
{
    lemma_fq_modulus_above_one();
    let m = fq_modulus() as int;
    lemma_mul_mod_noop(0 - x, 0 - x, m);
    assert((0 - x) * (0 - x) == x * x) by (nonlinear_arith);
}

proof fn lemma_neg_product(x: nat, y: nat)
    ensures
        mul_q(neg_q(x), y) == neg_q(mul_q(x, y)),
        mul_q(y, neg_q(x)) == neg_q(mul_q(x, y)),
{
    lemma_fq_modulus_above_one();
    let m = fq_modulus() as int;
    lemma_mul_mod_noop_left(0 - x, y as int, m);
    lemma_mul_mod_noop_right(y as int, 0 - x, m);
    assert((0 - x) * y == 0 - x * y) by (nonlinear_arith);
    assert(y * (0 - x) == 0 - x * y) by (nonlinear_arith);
    lemma_sub_mod_noop(0, (x * y) as int, m);
    vstd::arithmetic::div_mod::lemma_small_mod(0, m as nat);
    vstd::arithmetic::div_mod::lemma_mod_twice((x * y) as int, m);
}

/// Negating `X` and `T` keeps `X Y = Z T` and the curve equation.
pub proof fn lemma_neg_keeps_curve(c: Seq<nat>)
    requires
        c.len() == 4,
        extended_ok(c),
        on_curve(c),
    ensures
        extended_ok(seq![neg_q(c[0]), c[1], c[2], neg_q(c[3])]),
        on_curve(seq![neg_q(c[0]), c[1], c[2], neg_q(c[3])]),
{
    lemma_neg_square(c[0]);
    lemma_neg_square(c[3]);
    lemma_neg_product(c[0], c[1]);
    lemma_neg_product(c[3], c[2]);
}

/// Whether `(X, Y, Z, T)` is the form of the identity that ark-ec
/// recognises: `X = 0`, `Y = Z` nonzero, `T = 0`.
pub open spec fn is_projective_zero(g: Seq<nat>) -> bool {
    g[0] == 0 && g[1] == g[2] && g[1] != 0 && g[3] == 0
}

/// What normalising `(X, Y, Z, T)` to affine `(x, y)` gives: `(0, 1)` for the
/// recognised identity, otherwise `x Z = X` and `y Z = Y` when `Z` is
/// nonzero, and `(0, 0)` when `Z` is zero.
pub open spec fn normalizes_to(g: Seq<nat>, x: nat, y: nat) -> bool {
    if is_projective_zero(g) {
        x == 0 && y == 1
    } else if g[2] != 0 {
        mul_q(x, g[2]) == g[0] && mul_q(y, g[2]) == g[1]
    } else {
        x == 0 && y == 0
    }
}

/// Relies on ark-ec's `CurveGroup::normalize_batch` for twisted Edwards
/// points, on `ark_ed_on_bls12_377::EdwardsProjective`: it inverts all the
/// `Z` at once with ark-ff's `batch_inversion`, which leaves zeros at zero,
/// and gives `(0, 1)` for the recognised identity and `(X / Z, Y / Z)`
/// otherwise, as `normalizes_to` states.
#[verifier::external_body]
fn projective_normalize_batch(v: &Vec<[[u64; 4]; 4]>) -> (r: Vec<[[u64; 4]; 2]>)
    requires
        forall|i: int| 0 <= i < v@.len() ==> coords_canonical(#[trigger] v@[i]),
    ensures
        r@.len() == v@.len(),
        forall|i: int|
            0 <= i < v@.len() ==> limbs_val(#[trigger] r@[i][0]@) < fq_modulus() && limbs_val(
                r@[i][1]@,
            ) < fq_modulus() && normalizes_to(
                coords_val(v@[i]),
                limbs_val(r@[i][0]@),
                limbs_val(r@[i][1]@),
            ),
{
    let points: Vec<ark_ed_on_bls12_377::EdwardsProjective> = v.iter().map(|c| {
        let a = c.map(|l| ark_ff::PrimeField::from_bigint(ark_ff::BigInt::new(l)).unwrap());
        ark_ed_on_bls12_377::EdwardsProjective::new_unchecked(a[0], a[1], a[3], a[2])
    }).collect();
    let affine = ark_ec::CurveGroup::normalize_batch(&points);
    affine.iter().map(|p| [p.x, p.y].map(|f| ark_ff::PrimeField::into_bigint(f).0)).collect()
}

/// Relies on ark-ec's `AddAssign<&Projective>` for twisted Edwards points,
/// on `ark_ed_on_bls12_377::EdwardsProjective`: the unified addition written
/// out in `unified_sum`, with `mul_by_a` negating as `a = -1`.
#[verifier::external_body]
fn projective_add(p: [[u64; 4]; 4], q: [[u64; 4]; 4]) -> (r: [[u64; 4]; 4])
    requires
        coords_canonical(p),
        coords_canonical(q),
    ensures
        coords_canonical(r),
        coords_val(r) == unified_sum(coords_val(p), coords_val(q)),
{
    let to = |c: [[u64; 4]; 4]| c.map(|l| ark_ff::PrimeField::from_bigint(ark_ff::BigInt::new(l)).unwrap());
    let (a, b): ([ark_ed_on_bls12_377::Fq; 4], [ark_ed_on_bls12_377::Fq; 4]) = (to(p), to(q));
    let mut s = ark_ed_on_bls12_377::EdwardsProjective::new_unchecked(a[0], a[1], a[3], a[2]);
    s += &ark_ed_on_bls12_377::EdwardsProjective::new_unchecked(b[0], b[1], b[3], b[2]);
    [s.x, s.y, s.z, s.t].map(|f| ark_ff::PrimeField::into_bigint(f).0)
}

/// Relies on ark-ec's `double_in_place` for twisted Edwards points, on
/// `ark_ed_on_bls12_377::EdwardsProjective`: the doubling written out in
/// `doubled`, with `mul_by_a` negating as `a = -1`.
#[verifier::external_body]
fn projective_double(p: [[u64; 4]; 4]) -> (r: [[u64; 4]; 4])
    requires
        coords_canonical(p),
    ensures
        coords_canonical(r),
        coords_val(r) == doubled(coords_val(p)),
{
    let a = p.map(|l| ark_ff::PrimeField::from_bigint(ark_ff::BigInt::new(l)).unwrap());
    let mut s = ark_ed_on_bls12_377::EdwardsProjective::new_unchecked(a[0], a[1], a[3], a[2]);
    ark_ec::Group::double_in_place(&mut s);
    [s.x, s.y, s.z, s.t].map(|f| ark_ff::PrimeField::into_bigint(f).0)
}

/// Relies on ark-ec's `MulAssign<Fr>` for twisted Edwards points, on
/// `ark_ed_on_bls12_377::EdwardsProjective`: `mul_projective` doubles from
/// the projective zero `(0, 1, 1, 0)` over the bits of the scalar, top bit
/// first with leading zeros skipped, adding the point at each set bit, as
/// `multiple` writes out. The scalar's limbs are canonical.
#[verifier::external_body]
fn projective_mul(p: [[u64; 4]; 4], k: [u64; 4]) -> (r: [[u64; 4]; 4])
    requires
        coords_canonical(p),
        limbs_val(k@) < fr_modulus(),
    ensures
        coords_canonical(r),
        coords_val(r) == multiple(coords_val(p), limbs_val(k@)),
{
    let a = p.map(|l| ark_ff::PrimeField::from_bigint(ark_ff::BigInt::new(l)).unwrap());
    let k: ark_ed_on_bls12_377::Fr = ark_ff::PrimeField::from_bigint(ark_ff::BigInt::new(k)).unwrap();
    let mut s = ark_ed_on_bls12_377::EdwardsProjective::new_unchecked(a[0], a[1], a[3], a[2]);
    s *= k;
    [s.x, s.y, s.z, s.t].map(|f| ark_ff::PrimeField::into_bigint(f).0)
}

/// An element as the affine coordinates `(x, y)` of a representative.
#[derive(Clone, Copy)]
pub struct AffineElement {
    pub x: Fq,
    pub y: Fq,
}

impl AffineElement {
    /// Both coordinates are well formed.
    pub open spec fn wf(self) -> bool {
        self.x.wf() && self.y.wf()
    }

    /// The extended coordinates `(x, y, 1, x y)`.
    pub fn to_element(&self) -> (r: Element)
        requires
            self.wf(),
        ensures
            r.wf(),
            coords(r) == seq![self.x.value(), self.y.value(), 1, mul_q(self.x.value(), self.y.value())],
    {
        let r = Element { x: self.x, y: self.y, z: Fq::one(), t: self.x.mul(&self.y) };
        proof {
            assert(coords(r) =~= seq![self.x.value(), self.y.value(), 1, mul_q(self.x.value(), self.y.value())]);
        }
        r
    }
}

impl Element {
    /// The affine coordinates of each element, with one inversion for all.
    pub fn normalize_batch(v: &Vec<Element>) -> (r: Vec<AffineElement>)
        requires
            forall|i: int| 0 <= i < v@.len() ==> (#[trigger] v@[i]).wf(),
        ensures
            r@.len() == v@.len(),
            forall|i: int|
                0 <= i < v@.len() ==> (#[trigger] r@[i]).wf() && normalizes_to(
                    coords(v@[i]),
                    r@[i].x.value(),
                    r@[i].y.value(),
                ),
    {
        let mut cs: Vec<[[u64; 4]; 4]> = Vec::new();
        let mut i: usize = 0;
        while i < v.len()
            invariant
                i <= v@.len(),
                cs@.len() == i,
                forall|j: int| 0 <= j < v@.len() ==> (#[trigger] v@[j]).wf(),
                forall|j: int|
                    0 <= j < i ==> coords_canonical(#[trigger] cs@[j]) && coords_val(cs@[j])
                        == coords(v@[j]),
            decreases v@.len() - i,
        {
            cs.push(v[i].to_coords());
            i = i + 1;
        }
        let a = projective_normalize_batch(&cs);
        let mut r: Vec<AffineElement> = Vec::new();
        let mut k: usize = 0;
        while k < a.len()
            invariant
                k <= a@.len(),
                a@.len() == v@.len(),
                cs@.len() == v@.len(),
                r@.len() == k,
                forall|j: int|
                    0 <= j < v@.len() ==> coords_val(#[trigger] cs@[j]) == coords(v@[j]),
                forall|j: int|
                    0 <= j < v@.len() ==> limbs_val(#[trigger] a@[j][0]@) < fq_modulus()
                        && limbs_val(a@[j][1]@) < fq_modulus() && normalizes_to(
                        coords_val(cs@[j]),
                        limbs_val(a@[j][0]@),
                        limbs_val(a@[j][1]@),
                    ),
                forall|j: int|
                    0 <= j < k ==> (#[trigger] r@[j]).wf() && r@[j].x.value() == limbs_val(
                        a@[j][0]@,
                    ) && r@[j].y.value() == limbs_val(a@[j][1]@),
            decreases a@.len() - k,
        {
            let pair = a[k];
            proof {
                assert(limbs_val(a@[k as int][0]@) < fq_modulus());
                vstd::arithmetic::div_mod::lemma_small_mod(limbs_val(pair[0]@), fq_modulus());
                vstd::arithmetic::div_mod::lemma_small_mod(limbs_val(pair[1]@), fq_modulus());
            }
            r.push(AffineElement { x: Fq::from_le_limbs(pair[0]), y: Fq::from_le_limbs(pair[1]) });
            k = k + 1;
        }
        proof {
            assert forall|j: int| 0 <= j < v@.len() implies (#[trigger] r@[j]).wf() && normalizes_to(
                coords(v@[j]),
                r@[j].x.value(),
                r@[j].y.value(),
            ) by {
                assert(coords_val(cs@[j]) == coords(v@[j]));
                assert(limbs_val(a@[j][0]@) < fq_modulus());
            }
        }
        r
    }

    fn to_coords(&self) -> (c: [[u64; 4]; 4])
        requires
            self.wf(),
        ensures
            coords_canonical(c),
            coords_val(c) == coords(*self),
    {
        let c = [self.x.to_le_limbs(), self.y.to_le_limbs(), self.z.to_le_limbs(), self.t.to_le_limbs()];
        proof {
            assert(coords_val(c) =~= coords(*self));
        }
        c
    }

    fn from_coords(c: [[u64; 4]; 4]) -> (r: Element)
        requires
            coords_canonical(c),
        ensures
            r.wf(),
            coords(r) == coords_val(c),
    {
        let r = Element {
            x: Fq::from_le_limbs(c[0]),
            y: Fq::from_le_limbs(c[1]),
            z: Fq::from_le_limbs(c[2]),
            t: Fq::from_le_limbs(c[3]),
        };
        proof {
            assert(limbs_val(c[0]@) < fq_modulus());
            assert(limbs_val(c[1]@) < fq_modulus());
            assert(limbs_val(c[2]@) < fq_modulus());
            assert(limbs_val(c[3]@) < fq_modulus());
            vstd::arithmetic::div_mod::lemma_small_mod(limbs_val(c[0]@), fq_modulus());
            vstd::arithmetic::div_mod::lemma_small_mod(limbs_val(c[1]@), fq_modulus());
            vstd::arithmetic::div_mod::lemma_small_mod(limbs_val(c[2]@), fq_modulus());
            vstd::arithmetic::div_mod::lemma_small_mod(limbs_val(c[3]@), fq_modulus());
            assert(coords(r) =~= coords_val(c));
        }
        r
    }

    /// The sum of two elements.
    pub fn add(&self, other: &Element) -> (r: Element)
        requires
            self.wf(),
            other.wf(),
        ensures
            r.wf(),
            coords(r) == unified_sum(coords(*self), coords(*other)),
            extended_ok(coords(r)),
    {
        proof {
            lemma_sum_extended(coords(*self), coords(*other));
        }
        let c = projective_add(self.to_coords(), other.to_coords());
        Element::from_coords(c)
    }

    /// Twice this element.
    pub fn double(&self) -> (r: Element)
        requires
            self.wf(),
        ensures
            r.wf(),
            coords(r) == doubled(coords(*self)),
            extended_ok(coords(r)),
    {
        proof {
            lemma_double_extended(coords(*self));
        }
        let c = projective_double(self.to_coords());
        Element::from_coords(c)
    }

    /// The negation: `(-X, Y, Z, -T)`.
    pub fn neg(&self) -> (r: Element)
        requires
            self.wf(),
        ensures
            r.wf(),
            coords(r) == seq![neg_q(self.x.value()), self.y.value(), self.z.value(), neg_q(self.t.value())],
            extended_ok(coords(*self)) && on_curve(coords(*self)) ==> extended_ok(coords(r))
                && on_curve(coords(r)),
    {
        let r = Element { x: self.x.neg(), y: self.y, z: self.z, t: self.t.neg() };
        proof {
            assert(coords(r) =~= seq![neg_q(self.x.value()), self.y.value(), self.z.value(), neg_q(self.t.value())]);
            if extended_ok(coords(*self)) && on_curve(coords(*self)) {
                lemma_neg_keeps_curve(coords(*self));
            }
        }
        r
    }

    /// The difference: the sum with the negation of `other`.
    pub fn sub(&self, other: &Element) -> (r: Element)
        requires
            self.wf(),
            other.wf(),
        ensures
            r.wf(),
            coords(r) == unified_sum(
                coords(*self),
                seq![neg_q(other.x.value()), other.y.value(), other.z.value(), neg_q(other.t.value())],
            ),
    {
        self.add(&other.neg())
    }

    /// The multiple of this element by a scalar.
    pub fn mul(&self, k: &Fr) -> (r: Element)
        requires
            self.wf(),
            k.wf(),
        ensures
            r.wf(),
            coords(r) == multiple(coords(*self), k.value()),
            extended_ok(coords(r)),
    {
        proof {
            lemma_multiple_extended(coords(*self), k.value());
        }
        let c = projective_mul(self.to_coords(), k.to_le_limbs());
        Element::from_coords(c)
    }
}

} // verus!
