//! The field of integers modulo the 251-bit prime l, the order of the group,
//! elements held in Montgomery form with radix 2^256.
use crate::limbs::{
    bytes_val, lemma_pow64_values, lemma_val4, lemma_val_injective,
    lemma_val_zero, limbs_from_le_bytes, limbs_to_le_bytes, limbs_val, pow64, zeroize_limbs,
};
use crate::mont::{
    add_mod, eq_mod, lemma_mont_into, lemma_mont_out, lemma_mont_product, lemma_read_add,
    lemma_mod_ring_laws, lemma_read_injective, lemma_read_sub, modulus_ok, mont_mul, mont_pow, sub_mod,
};
use vstd::arithmetic::div_mod::lemma_small_mod;
use vstd::arithmetic::power::pow;
use vstd::prelude::*;

verus! {

/// The modulus l.
pub open spec fn fr_modulus() -> nat {
    13356249993388743167 +
    5950279507993463550 * 0x1_0000_0000_0000_0000 +
    10965441865914903552 * 0x1_0000_0000_0000_0000_0000_0000_0000_0000 +
    336320092672043349 * 0x1_0000_0000_0000_0000_0000_0000_0000_0000_0000_0000_0000_0000
}

/// The inverse of the Montgomery radix 2^256 modulo l.
pub open spec fn fr_r_inv() -> nat {
    15863273907008258528 +
    2085140116109193496 * 0x1_0000_0000_0000_0000 +
    1572105140007298558 * 0x1_0000_0000_0000_0000_0000_0000_0000_0000 +
    219075488492318240 * 0x1_0000_0000_0000_0000_0000_0000_0000_0000_0000_0000_0000_0000
}

const MODULUS: [u64; 4] = [
    13356249993388743167,
    5950279507993463550,
    10965441865914903552,
    336320092672043349,
];

/// 2^512 mod l: the Montgomery form of 2^256.
const R2: [u64; 4] = [
    3987543627614508126,
    17742427666091596403,
    14557327917022607905,
    322810149704226881,
];

/// 2^256 mod l: the Montgomery form of one.
const MONT_ONE: [u64; 4] = [
    16632263305389933622,
    10726299895124897348,
    16608693673010411502,
    285459069419210737,
];

/// l - 2, the exponent that inverts a nonzero element.
const L_MINUS_TWO: [u64; 4] = [
    13356249993388743165,
    5950279507993463550,
    10965441865914903552,
    336320092672043349,
];

/// The limbs of one, outside Montgomery form.
const PLAIN_ONE: [u64; 4] = [1, 0, 0, 0];

proof fn lemma_fr_constants()
    ensures
        limbs_val(MODULUS@) == fr_modulus(),
        modulus_ok(MODULUS@),
        limbs_val(MONT_ONE@) < fr_modulus(),
        (limbs_val(MONT_ONE@) * fr_r_inv()) % fr_modulus() == 1,
        (pow64(4) * fr_r_inv()) % fr_modulus() == 1,
        limbs_val(R2@) == (pow64(4) * pow64(4)) % fr_modulus(),
        limbs_val(L_MINUS_TWO@) == fr_modulus() - 2,
        limbs_val(PLAIN_ONE@) == 1,
{
    lemma_pow64_values();
    lemma_val4(MODULUS@);
    lemma_val4(MONT_ONE@);
    lemma_val4(R2@);
    lemma_val4(L_MINUS_TWO@);
    lemma_val4(PLAIN_ONE@);
    let m = fr_modulus();
    let ri = fr_r_inv();
    let one = limbs_val(MONT_ONE@);
    let big = pow64(4);
    assert((one * ri) % m == 1) by (nonlinear_arith)
        requires
            m == fr_modulus(),
            ri == fr_r_inv(),
            one == 16632263305389933622
                + 10726299895124897348 * 0x1_0000_0000_0000_0000
                + 16608693673010411502 * 0x1_0000_0000_0000_0000_0000_0000_0000_0000
                + 285459069419210737 * 0x1_0000_0000_0000_0000_0000_0000_0000_0000_0000_0000_0000_0000,
    ;
    assert((big * ri) % m == 1) by (nonlinear_arith)
        requires
            m == fr_modulus(),
            ri == fr_r_inv(),
            big
                == 0x1_0000_0000_0000_0000_0000_0000_0000_0000_0000_0000_0000_0000_0000_0000_0000_0000,
    ;
    let r2 = limbs_val(R2@);
    assert(r2 == (big * big) % m) by (nonlinear_arith)
        requires
            m == fr_modulus(),
            big
                == 0x1_0000_0000_0000_0000_0000_0000_0000_0000_0000_0000_0000_0000_0000_0000_0000_0000,
            r2 == 3987543627614508126
                + 17742427666091596403 * 0x1_0000_0000_0000_0000
                + 14557327917022607905 * 0x1_0000_0000_0000_0000_0000_0000_0000_0000
                + 322810149704226881 * 0x1_0000_0000_0000_0000_0000_0000_0000_0000_0000_0000_0000_0000,
    ;
    assert(m > 1);
}

/// Limbs holding zero stand for zero.
proof fn lemma_fr_zero_limbs(s: Seq<u64>)
    requires
        limbs_val(s) == 0,
    ensures
        (limbs_val(s) * fr_r_inv()) % fr_modulus() == 0,
{
    assert(fr_modulus() > 1);
    assert(limbs_val(s) * fr_r_inv() == 0) by (nonlinear_arith)
        requires
            limbs_val(s) == 0,
    ;
}

/// A scalar, as the Montgomery limbs of its canonical
/// representative: limbs holding `x * 2^256 mod l` stand for `x`.
#[derive(Clone, Copy)]
pub struct Fr(pub [u64; 4]);

impl Fr {
    /// The limbs hold a number below l.
    pub open spec fn wf(self) -> bool {
        limbs_val(self.0@) < fr_modulus()
    }

    /// The field element, in `[0, l)`.
    pub open spec fn value(self) -> nat {
        (limbs_val(self.0@) * fr_r_inv()) % fr_modulus()
    }

    /// The element whose canonical little-endian limbs are `limbs`, reduced modulo l.
    pub fn from_le_limbs(limbs: [u64; 4]) -> (r: Fr)
        ensures
            r.wf(),
            r.value() == limbs_val(limbs@) % fr_modulus(),
    {
        proof {
            lemma_fr_constants();
        }
        let m = mont_mul(&R2, &limbs, &MODULUS);
        proof {
            lemma_mont_into(
                limbs_val(m@) as int,
                limbs_val(limbs@) as int,
                pow64(4) as int,
                fr_r_inv() as int,
                fr_modulus() as int,
            );
        }
        Fr(m)
    }

    /// The element whose canonical representative has these 32 little-endian
    /// bytes, reduced modulo l.
    pub fn from_raw_bytes(bytes: &[u8; 32]) -> (r: Fr)
        ensures
            r.wf(),
            r.value() == bytes_val(bytes@) % fr_modulus(),
    {
        let limbs: [u64; 4] = limbs_from_le_bytes(bytes);
        Fr::from_le_limbs(limbs)
    }

    /// The little-endian limbs of the canonical representative.
    pub fn to_le_limbs(&self) -> (r: [u64; 4])
        requires
            self.wf(),
        ensures
            limbs_val(r@) == self.value(),
    {
        proof {
            lemma_fr_constants();
        }
        let c = mont_mul(&self.0, &PLAIN_ONE, &MODULUS);
        proof {
            lemma_small_mod(limbs_val(self.0@), fr_modulus());
            lemma_mont_out(
                limbs_val(c@) as int,
                limbs_val(self.0@) as int,
                pow64(4) as int,
                fr_r_inv() as int,
                fr_modulus() as int,
            );
        }
        c
    }

    /// The 32 little-endian bytes of the canonical representative.
    pub fn to_bytes_le(&self) -> (r: [u8; 32])
        requires
            self.wf(),
        ensures
            bytes_val(r@) == self.value(),
    {
        let limbs = self.to_le_limbs();
        limbs_to_le_bytes(&limbs)
    }

    /// The element held by these Montgomery limbs.
    pub fn from_montgomery_limbs(limbs: [u64; 4]) -> (r: Fr)
        requires
            limbs_val(limbs@) < fr_modulus(),
        ensures
            r.wf(),
            r.0 == limbs,
    {
        Fr(limbs)
    }

    /// Zero.
    pub fn zero() -> (r: Fr)
        ensures
            r.wf(),
            r.value() == 0,
    {
        let r = Fr([0, 0, 0, 0]);
        proof {
            lemma_val_zero(r.0@);
            lemma_fr_zero_limbs(r.0@);
        }
        r
    }

    /// One.
    pub fn one() -> (r: Fr)
        ensures
            r.wf(),
            r.value() == 1,
    {
        proof {
            lemma_fr_constants();
        }
        Fr(MONT_ONE)
    }

    /// The square.
    pub fn square(&self) -> (r: Fr)
        requires
            self.wf(),
        ensures
            r.wf(),
            r.value() == (self.value() * self.value()) % fr_modulus(),
    {
        self.mul(self)
    }

    /// The multiplicative inverse, computed as `self^(l - 2)`; none for zero.
    pub fn inverse(&self) -> (r: Option<Fr>)
        requires
            self.wf(),
        ensures
            self.value() == 0 ==> r is None,
            self.value() != 0 ==> (r matches Some(y) && y.wf() && y.value() == pow(
                self.value() as int,
                (fr_modulus() - 2) as nat,
            ) % (fr_modulus() as int)),
    {
        if self.is_zero() {
            return None;
        }
        proof {
            lemma_fr_constants();
        }
        let y = mont_pow(&self.0, &L_MINUS_TWO, &MONT_ONE, &MODULUS, Ghost(fr_r_inv() as int));
        Some(Fr(y))
    }

    /// Whether the element is zero.
    pub fn is_zero(&self) -> (r: bool)
        requires
            self.wf(),
        ensures
            r == (self.value() == 0),
    {
        proof {
            lemma_fr_constants();
        }
        let z: [u64; 4] = [0, 0, 0, 0];
        proof {
            lemma_val_zero(z@);
        }
        let r = eq_mod(&self.0, &z, &MODULUS);
        proof {
            lemma_fr_zero_limbs(z@);
            if self.value() == 0 {
                lemma_read_injective(
                    limbs_val(self.0@) as int,
                    0,
                    pow64(4) as int,
                    fr_r_inv() as int,
                    fr_modulus() as int,
                );
            }
        }
        r
    }

    /// The sum.
    pub fn add(self, other: &Fr) -> (r: Fr)
        requires
            self.wf(),
            other.wf(),
        ensures
            r.wf(),
            r.value() == (self.value() + other.value()) % fr_modulus(),
    {
        proof {
            lemma_fr_constants();
        }
        let s = add_mod(&self.0, &other.0, &MODULUS);
        proof {
            lemma_read_add(
                limbs_val(self.0@) as int,
                limbs_val(other.0@) as int,
                fr_r_inv() as int,
                fr_modulus() as int,
            );
        }
        Fr(s)
    }

    /// The difference.
    pub fn sub(self, other: &Fr) -> (r: Fr)
        requires
            self.wf(),
            other.wf(),
        ensures
            r.wf(),
            r.value() == (self.value() - other.value()) % (fr_modulus() as int),
    {
        proof {
            lemma_fr_constants();
        }
        let d = sub_mod(&self.0, &other.0, &MODULUS);
        proof {
            lemma_read_sub(
                limbs_val(self.0@) as int,
                limbs_val(other.0@) as int,
                fr_r_inv() as int,
                fr_modulus() as int,
            );
        }
        Fr(d)
    }

    /// The product.
    pub fn mul(self, other: &Fr) -> (r: Fr)
        requires
            self.wf(),
            other.wf(),
        ensures
            r.wf(),
            r.value() == (self.value() * other.value()) % fr_modulus(),
    {
        proof {
            lemma_fr_constants();
        }
        let m = mont_mul(&self.0, &other.0, &MODULUS);
        proof {
            lemma_mont_product(
                limbs_val(m@) as int,
                limbs_val(self.0@) as int,
                limbs_val(other.0@) as int,
                pow64(4) as int,
                fr_r_inv() as int,
                fr_modulus() as int,
            );
        }
        Fr(m)
    }

    /// The additive inverse.
    pub fn neg(self) -> (r: Fr)
        requires
            self.wf(),
        ensures
            r.wf(),
            r.value() == (0 - self.value()) % (fr_modulus() as int),
    {
        let z = Fr::zero();
        z.sub(&self)
    }

    /// Overwrites the limbs with zeros.
    pub fn zeroize(&mut self)
        ensures
            final(self).wf(),
            final(self).value() == 0,
            forall|i: int| 0 <= i < 4 ==> final(self).0@[i] == 0,
    {
        zeroize_limbs(&mut self.0);
        proof {
            lemma_val_zero(self.0@);
            lemma_fr_zero_limbs(self.0@);
        }
    }
}

/// The elements form a commutative ring under `add` and `mul`, with `zero`
/// and `one` as identities, `neg` giving additive inverses, and `sub` adding
/// the negation: stated over the values that those functions promise.
pub proof fn fr_ring_laws(a: Fr, b: Fr, c: Fr)
    requires
        a.wf(),
        b.wf(),
        c.wf(),
    ensures
        (a.value() + b.value()) % fr_modulus() == (b.value() + a.value()) % fr_modulus(),
        (a.value() * b.value()) % fr_modulus() == (b.value() * a.value()) % fr_modulus(),
        ((a.value() + b.value()) % fr_modulus() + c.value()) % fr_modulus() == (a.value() + (b.value()
            + c.value()) % fr_modulus()) % fr_modulus(),
        ((a.value() * b.value()) % fr_modulus() * c.value()) % fr_modulus() == (a.value() * ((
        b.value() * c.value()) % fr_modulus())) % fr_modulus(),
        (a.value() * ((b.value() + c.value()) % fr_modulus())) % fr_modulus() == ((a.value()
            * b.value()) % fr_modulus() + (a.value() * c.value()) % fr_modulus()) % fr_modulus(),
        (a.value() + 0) % fr_modulus() == a.value(),
        (a.value() * 1) % fr_modulus() == a.value(),
        (a.value() + (0 - a.value()) % (fr_modulus() as int)) % (fr_modulus() as int) == 0,
        (a.value() - b.value()) % (fr_modulus() as int) == (a.value() + (0 - b.value()) % (
        fr_modulus() as int)) % (fr_modulus() as int),
{
    lemma_fr_constants();
    lemma_mod_ring_laws(
        a.value() as int,
        b.value() as int,
        c.value() as int,
        fr_modulus() as int,
    );
}

/// For well-formed elements, equal limbs and equal values go together, so
/// `==` on elements is equality of field elements.
pub proof fn fr_eq_is_value_eq(a: Fr, b: Fr)
    requires
        a.wf(),
        b.wf(),
    ensures
        (a.0@ == b.0@) <==> (a.value() == b.value()),
{
    lemma_fr_constants();
    if a.value() == b.value() {
        lemma_read_injective(
            limbs_val(a.0@) as int,
            limbs_val(b.0@) as int,
            pow64(4) as int,
            fr_r_inv() as int,
            fr_modulus() as int,
        );
        lemma_val_injective(a.0@, b.0@);
    }
}

/// Writing an element as bytes and reading them back gives the element.
pub proof fn fr_bytes_round_trip(a: Fr, bytes: Seq<u8>)
    requires
        a.wf(),
        bytes_val(bytes) == a.value(),
    ensures
        bytes_val(bytes) % fr_modulus() == a.value(),
{
    lemma_fr_constants();
    lemma_small_mod(a.value(), fr_modulus());
}

impl PartialEq for Fr {
    /// Equality of the held limbs, which for well-formed elements is equality
    /// of the field elements: every limb pair is compared, with no early exit.
    fn eq(&self, other: &Fr) -> (r: bool) {
        let mut diff: u64 = 0;
        let mut i: usize = 0;
        while i < 4
            invariant
                i <= 4,
                (diff == 0) == (forall|j: int| 0 <= j < i ==> self.0[j] == other.0[j]),
            decreases 4 - i,
        {
            let before = diff;
            let x: u64 = self.0[i];
            let y: u64 = other.0[i];
            diff = diff | (x ^ y);
            proof {
                assert((diff == 0) == (before == 0 && x == y)) by (bit_vector)
                    requires
                        diff == before | (x ^ y),
                ;
            }
            i = i + 1;
        }
        proof {
            if diff == 0 {
                assert(self.0@ =~= other.0@);
            }
        }
        diff == 0
    }
}

impl vstd::std_specs::cmp::PartialEqSpecImpl for Fr {
    open spec fn obeys_eq_spec() -> bool {
        true
    }

    open spec fn eq_spec(&self, other: &Fr) -> bool {
        self.0@ == other.0@
    }
}

impl Eq for Fr {

}

} // verus!
