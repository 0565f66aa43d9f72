//! The field of integers modulo the 377-bit prime p, elements held in
//! Montgomery form with radix 2^384.
use crate::limbs::{
    bytes_val, lemma_pow64_values, lemma_val6, lemma_val_injective,
    lemma_val_zero, limbs_from_le_bytes, limbs_to_le_bytes, limbs_val, pow64, zeroize_limbs,
};
use crate::mont::{
    add_mod, eq_mod, lemma_mont_into, lemma_mont_out, lemma_mont_product, lemma_read_add,
    lemma_mod_ring_laws, lemma_read_injective, lemma_read_sub, modulus_ok, mont_mul, mont_pow, sub_mod,
};
use vstd::arithmetic::div_mod::lemma_small_mod;
use vstd::arithmetic::power::pow;
use vstd::prelude::*;

verus! {

/// The modulus p.
pub open spec fn fp_modulus() -> nat {
    9586122913090633729 +
    1660523435060625408 * 0x1_0000_0000_0000_0000 +
    2230234197602682880 * 0x1_0000_0000_0000_0000_0000_0000_0000_0000 +
    1883307231910630287 * 0x1_0000_0000_0000_0000_0000_0000_0000_0000_0000_0000_0000_0000 +
    14284016967150029115 * 0x1_0000_0000_0000_0000_0000_0000_0000_0000_0000_0000_0000_0000_0000_0000_0000_0000 +
    121098312706494698 * 0x1_0000_0000_0000_0000_0000_0000_0000_0000_0000_0000_0000_0000_0000_0000_0000_0000_0000_0000_0000_0000
}

/// The inverse of the Montgomery radix 2^384 modulo p.
pub open spec fn fp_r_inv() -> nat {
    17226990486838995432 +
    7935549036434045429 * 0x1_0000_0000_0000_0000 +
    9596674413560343699 * 0x1_0000_0000_0000_0000_0000_0000_0000_0000 +
    17197826536618780247 * 0x1_0000_0000_0000_0000_0000_0000_0000_0000_0000_0000_0000_0000 +
    16972224680692061009 * 0x1_0000_0000_0000_0000_0000_0000_0000_0000_0000_0000_0000_0000_0000_0000_0000_0000 +
    90655817172977462 * 0x1_0000_0000_0000_0000_0000_0000_0000_0000_0000_0000_0000_0000_0000_0000_0000_0000_0000_0000_0000_0000
}

const MODULUS: [u64; 6] = [
    9586122913090633729,
    1660523435060625408,
    2230234197602682880,
    1883307231910630287,
    14284016967150029115,
    121098312706494698,
];

/// 2^768 mod p: the Montgomery form of 2^384.
const R2: [u64; 6] = [
    13224372171368877346,
    227991066186625457,
    2496666625421784173,
    13825906835078366124,
    9475172226622360569,
    30958721782860680,
];

/// 2^384 mod p: the Montgomery form of one.
const MONT_ONE: [u64; 6] = [
    202099033278250856,
    5854854902718660529,
    11492539364873682930,
    8885205928937022213,
    5545221690922665192,
    39800542322357402,
];

/// p - 2, the exponent that inverts a nonzero element.
const P_MINUS_TWO: [u64; 6] = [
    9586122913090633727,
    1660523435060625408,
    2230234197602682880,
    1883307231910630287,
    14284016967150029115,
    121098312706494698,
];

/// The limbs of one, outside Montgomery form.
const PLAIN_ONE: [u64; 6] = [1, 0, 0, 0, 0, 0];

proof fn lemma_fp_constants()
    ensures
        limbs_val(MODULUS@) == fp_modulus(),
        modulus_ok(MODULUS@),
        limbs_val(MONT_ONE@) < fp_modulus(),
        (limbs_val(MONT_ONE@) * fp_r_inv()) % fp_modulus() == 1,
        (pow64(6) * fp_r_inv()) % fp_modulus() == 1,
        limbs_val(R2@) == (pow64(6) * pow64(6)) % fp_modulus(),
        limbs_val(P_MINUS_TWO@) == fp_modulus() - 2,
        limbs_val(PLAIN_ONE@) == 1,
{
    lemma_pow64_values();
    lemma_val6(MODULUS@);
    lemma_val6(MONT_ONE@);
    lemma_val6(R2@);
    lemma_val6(P_MINUS_TWO@);
    lemma_val6(PLAIN_ONE@);
    let m = fp_modulus();
    let ri = fp_r_inv();
    let one = limbs_val(MONT_ONE@);
    let big = pow64(6);
    assert((one * ri) % m == 1) by (nonlinear_arith)
        requires
            m == fp_modulus(),
            ri == fp_r_inv(),
            one == 202099033278250856 + 5854854902718660529 * 0x1_0000_0000_0000_0000
                + 11492539364873682930 * 0x1_0000_0000_0000_0000_0000_0000_0000_0000
                + 8885205928937022213 * 0x1_0000_0000_0000_0000_0000_0000_0000_0000_0000_0000_0000_0000
                + 5545221690922665192
                * 0x1_0000_0000_0000_0000_0000_0000_0000_0000_0000_0000_0000_0000_0000_0000_0000_0000
                + 39800542322357402
                * 0x1_0000_0000_0000_0000_0000_0000_0000_0000_0000_0000_0000_0000_0000_0000_0000_0000_0000_0000_0000_0000,
    ;
    assert((big * ri) % m == 1) by (nonlinear_arith)
        requires
            m == fp_modulus(),
            ri == fp_r_inv(),
            big
                == 0x1_0000_0000_0000_0000_0000_0000_0000_0000_0000_0000_0000_0000_0000_0000_0000_0000_0000_0000_0000_0000_0000_0000_0000_0000,
    ;
    let r2 = limbs_val(R2@);
    assert(r2 == (big * big) % m) by (nonlinear_arith)
        requires
            m == fp_modulus(),
            big
                == 0x1_0000_0000_0000_0000_0000_0000_0000_0000_0000_0000_0000_0000_0000_0000_0000_0000_0000_0000_0000_0000_0000_0000_0000_0000,
            r2 == 13224372171368877346
                + 227991066186625457 * 0x1_0000_0000_0000_0000
                + 2496666625421784173 * 0x1_0000_0000_0000_0000_0000_0000_0000_0000
                + 13825906835078366124 * 0x1_0000_0000_0000_0000_0000_0000_0000_0000_0000_0000_0000_0000
                + 9475172226622360569 * 0x1_0000_0000_0000_0000_0000_0000_0000_0000_0000_0000_0000_0000_0000_0000_0000_0000
                + 30958721782860680 * 0x1_0000_0000_0000_0000_0000_0000_0000_0000_0000_0000_0000_0000_0000_0000_0000_0000_0000_0000_0000_0000,
    ;
    assert(m > 1);
}

/// Limbs holding zero stand for zero.
proof fn lemma_fp_zero_limbs(s: Seq<u64>)
    requires
        limbs_val(s) == 0,
    ensures
        (limbs_val(s) * fp_r_inv()) % fp_modulus() == 0,
{
    assert(fp_modulus() > 1);
    assert(limbs_val(s) * fp_r_inv() == 0) by (nonlinear_arith)
        requires
            limbs_val(s) == 0,
    ;
}

/// An element of the base field, as the Montgomery limbs of its canonical
/// representative: limbs holding `x * 2^384 mod p` stand for `x`.
#[derive(Clone, Copy)]
pub struct Fp(pub [u64; 6]);

impl Fp {
    /// The limbs hold a number below p.
    pub open spec fn wf(self) -> bool {
        limbs_val(self.0@) < fp_modulus()
    }

    /// The field element, in `[0, p)`.
    pub open spec fn value(self) -> nat {
        (limbs_val(self.0@) * fp_r_inv()) % fp_modulus()
    }

    /// The element whose canonical little-endian limbs are `limbs`, reduced modulo p.
    pub fn from_le_limbs(limbs: [u64; 6]) -> (r: Fp)
        ensures
            r.wf(),
            r.value() == limbs_val(limbs@) % fp_modulus(),
    {
        proof {
            lemma_fp_constants();
        }
        let m = mont_mul(&R2, &limbs, &MODULUS);
        proof {
            lemma_mont_into(
                limbs_val(m@) as int,
                limbs_val(limbs@) as int,
                pow64(6) as int,
                fp_r_inv() as int,
                fp_modulus() as int,
            );
        }
        Fp(m)
    }

    /// The element whose canonical representative has these 48 little-endian
    /// bytes, reduced modulo p.
    pub fn from_bytes(bytes: &[u8; 48]) -> (r: Fp)
        ensures
            r.wf(),
            r.value() == bytes_val(bytes@) % fp_modulus(),
    {
        let limbs: [u64; 6] = limbs_from_le_bytes(bytes);
        Fp::from_le_limbs(limbs)
    }

    /// The little-endian limbs of the canonical representative.
    pub fn to_le_limbs(&self) -> (r: [u64; 6])
        requires
            self.wf(),
        ensures
            limbs_val(r@) == self.value(),
    {
        proof {
            lemma_fp_constants();
        }
        let c = mont_mul(&self.0, &PLAIN_ONE, &MODULUS);
        proof {
            lemma_small_mod(limbs_val(self.0@), fp_modulus());
            lemma_mont_out(
                limbs_val(c@) as int,
                limbs_val(self.0@) as int,
                pow64(6) as int,
                fp_r_inv() as int,
                fp_modulus() as int,
            );
        }
        c
    }

    /// The 48 little-endian bytes of the canonical representative.
    pub fn to_bytes_le(&self) -> (r: [u8; 48])
        requires
            self.wf(),
        ensures
            bytes_val(r@) == self.value(),
    {
        let limbs = self.to_le_limbs();
        limbs_to_le_bytes(&limbs)
    }

    /// The element held by these Montgomery limbs.
    pub fn from_montgomery_limbs(limbs: [u64; 6]) -> (r: Fp)
        requires
            limbs_val(limbs@) < fp_modulus(),
        ensures
            r.wf(),
            r.0 == limbs,
    {
        Fp(limbs)
    }

    /// Zero.
    pub fn zero() -> (r: Fp)
        ensures
            r.wf(),
            r.value() == 0,
    {
        let r = Fp([0, 0, 0, 0, 0, 0]);
        proof {
            lemma_val_zero(r.0@);
            lemma_fp_zero_limbs(r.0@);
        }
        r
    }

    /// One.
    pub fn one() -> (r: Fp)
        ensures
            r.wf(),
            r.value() == 1,
    {
        proof {
            lemma_fp_constants();
        }
        Fp(MONT_ONE)
    }

    /// The square.
    pub fn square(&self) -> (r: Fp)
        requires
            self.wf(),
        ensures
            r.wf(),
            r.value() == (self.value() * self.value()) % fp_modulus(),
    {
        self.mul(self)
    }

    /// The multiplicative inverse, computed as `self^(p - 2)`; none for zero.
    pub fn inverse(&self) -> (r: Option<Fp>)
        requires
            self.wf(),
        ensures
            self.value() == 0 ==> r is None,
            self.value() != 0 ==> (r matches Some(y) && y.wf() && y.value() == pow(
                self.value() as int,
                (fp_modulus() - 2) as nat,
            ) % (fp_modulus() as int)),
    {
        if self.is_zero() {
            return None;
        }
        proof {
            lemma_fp_constants();
        }
        let y = mont_pow(&self.0, &P_MINUS_TWO, &MONT_ONE, &MODULUS, Ghost(fp_r_inv() as int));
        Some(Fp(y))
    }

    /// Whether the element is zero.
    pub fn is_zero(&self) -> (r: bool)
        requires
            self.wf(),
        ensures
            r == (self.value() == 0),
    {
        proof {
            lemma_fp_constants();
        }
        let z: [u64; 6] = [0, 0, 0, 0, 0, 0];
        proof {
            lemma_val_zero(z@);
        }
        let r = eq_mod(&self.0, &z, &MODULUS);
        proof {
            lemma_fp_zero_limbs(z@);
            if self.value() == 0 {
                lemma_read_injective(
                    limbs_val(self.0@) as int,
                    0,
                    pow64(6) as int,
                    fp_r_inv() as int,
                    fp_modulus() as int,
                );
            }
        }
        r
    }

    /// The sum.
    pub fn add(self, other: &Fp) -> (r: Fp)
        requires
            self.wf(),
            other.wf(),
        ensures
            r.wf(),
            r.value() == (self.value() + other.value()) % fp_modulus(),
    {
        proof {
            lemma_fp_constants();
        }
        let s = add_mod(&self.0, &other.0, &MODULUS);
        proof {
            lemma_read_add(
                limbs_val(self.0@) as int,
                limbs_val(other.0@) as int,
                fp_r_inv() as int,
                fp_modulus() as int,
            );
        }
        Fp(s)
    }

    /// The difference.
    pub fn sub(self, other: &Fp) -> (r: Fp)
        requires
            self.wf(),
            other.wf(),
        ensures
            r.wf(),
            r.value() == (self.value() - other.value()) % (fp_modulus() as int),
    {
        proof {
            lemma_fp_constants();
        }
        let d = sub_mod(&self.0, &other.0, &MODULUS);
        proof {
            lemma_read_sub(
                limbs_val(self.0@) as int,
                limbs_val(other.0@) as int,
                fp_r_inv() as int,
                fp_modulus() as int,
            );
        }
        Fp(d)
    }

    /// The product.
    pub fn mul(self, other: &Fp) -> (r: Fp)
        requires
            self.wf(),
            other.wf(),
        ensures
            r.wf(),
            r.value() == (self.value() * other.value()) % fp_modulus(),
    {
        proof {
            lemma_fp_constants();
        }
        let m = mont_mul(&self.0, &other.0, &MODULUS);
        proof {
            lemma_mont_product(
                limbs_val(m@) as int,
                limbs_val(self.0@) as int,
                limbs_val(other.0@) as int,
                pow64(6) as int,
                fp_r_inv() as int,
                fp_modulus() as int,
            );
        }
        Fp(m)
    }

    /// The additive inverse.
    pub fn neg(self) -> (r: Fp)
        requires
            self.wf(),
        ensures
            r.wf(),
            r.value() == (0 - self.value()) % (fp_modulus() as int),
    {
        let z = Fp::zero();
        z.sub(&self)
    }

    /// Overwrites the limbs with zeros.
    pub fn zeroize(&mut self)
        ensures
            final(self).wf(),
            final(self).value() == 0,
            forall|i: int| 0 <= i < 6 ==> final(self).0@[i] == 0,
    {
        zeroize_limbs(&mut self.0);
        proof {
            lemma_val_zero(self.0@);
            lemma_fp_zero_limbs(self.0@);
        }
    }
}

/// The elements form a commutative ring under `add` and `mul`, with `zero`
/// and `one` as identities, `neg` giving additive inverses, and `sub` adding
/// the negation: stated over the values that those functions promise.
pub proof fn fp_ring_laws(a: Fp, b: Fp, c: Fp)
    requires
        a.wf(),
        b.wf(),
        c.wf(),
    ensures
        (a.value() + b.value()) % fp_modulus() == (b.value() + a.value()) % fp_modulus(),
        (a.value() * b.value()) % fp_modulus() == (b.value() * a.value()) % fp_modulus(),
        ((a.value() + b.value()) % fp_modulus() + c.value()) % fp_modulus() == (a.value() + (b.value()
            + c.value()) % fp_modulus()) % fp_modulus(),
        ((a.value() * b.value()) % fp_modulus() * c.value()) % fp_modulus() == (a.value() * ((
        b.value() * c.value()) % fp_modulus())) % fp_modulus(),
        (a.value() * ((b.value() + c.value()) % fp_modulus())) % fp_modulus() == ((a.value()
            * b.value()) % fp_modulus() + (a.value() * c.value()) % fp_modulus()) % fp_modulus(),
        (a.value() + 0) % fp_modulus() == a.value(),
        (a.value() * 1) % fp_modulus() == a.value(),
        (a.value() + (0 - a.value()) % (fp_modulus() as int)) % (fp_modulus() as int) == 0,
        (a.value() - b.value()) % (fp_modulus() as int) == (a.value() + (0 - b.value()) % (
        fp_modulus() as int)) % (fp_modulus() as int),
{
    lemma_fp_constants();
    lemma_mod_ring_laws(
        a.value() as int,
        b.value() as int,
        c.value() as int,
        fp_modulus() as int,
    );
}

/// For well-formed elements, equal limbs and equal values go together, so
/// `==` on elements is equality of field elements.
pub proof fn fp_eq_is_value_eq(a: Fp, b: Fp)
    requires
        a.wf(),
        b.wf(),
    ensures
        (a.0@ == b.0@) <==> (a.value() == b.value()),
{
    lemma_fp_constants();
    if a.value() == b.value() {
        lemma_read_injective(
            limbs_val(a.0@) as int,
            limbs_val(b.0@) as int,
            pow64(6) as int,
            fp_r_inv() as int,
            fp_modulus() as int,
        );
        lemma_val_injective(a.0@, b.0@);
    }
}

/// Writing an element as bytes and reading them back gives the element.
pub proof fn fp_bytes_round_trip(a: Fp, bytes: Seq<u8>)
    requires
        a.wf(),
        bytes_val(bytes) == a.value(),
    ensures
        bytes_val(bytes) % fp_modulus() == a.value(),
{
    lemma_fp_constants();
    lemma_small_mod(a.value(), fp_modulus());
}

impl PartialEq for Fp {
    /// Equality of the held limbs, which for well-formed elements is equality
    /// of the field elements: every limb pair is compared, with no early exit.
    fn eq(&self, other: &Fp) -> (r: bool) {
        let mut diff: u64 = 0;
        let mut i: usize = 0;
        while i < 6
            invariant
                i <= 6,
                (diff == 0) == (forall|j: int| 0 <= j < i ==> self.0[j] == other.0[j]),
            decreases 6 - i,
        {
            let before = diff;
            let x: u64 = self.0[i];
            let y: u64 = other.0[i];
            diff = diff | (x ^ y);
            proof {
                assert((diff == 0) == (before == 0 && x == y)) by (bit_vector)
                    requires
                        diff == before | (x ^ y),
                ;
            }
            i = i + 1;
        }
        proof {
            if diff == 0 {
                assert(self.0@ =~= other.0@);
            }
        }
        diff == 0
    }
}

impl vstd::std_specs::cmp::PartialEqSpecImpl for Fp {
    open spec fn obeys_eq_spec() -> bool {
        true
    }

    open spec fn eq_spec(&self, other: &Fp) -> bool {
        self.0@ == other.0@
    }
}

impl Eq for Fp {

}

} // verus!
