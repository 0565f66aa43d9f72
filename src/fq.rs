//! The field of integers modulo the 253-bit prime q, the scalar field of
//! BLS12-377 and the base field of the Edwards curve under the group,
//! elements held in Montgomery form with radix 2^256.
use crate::limbs::{
    bytes_val, lemma_pow64_values, lemma_val4, lemma_val_injective,
    lemma_val_zero, limbs_from_le_bytes, limbs_to_le_bytes, limbs_val, pow64, sub_limbs, zeroize_limbs,
};
use crate::mont::{
    add_mod, eq_mod, lemma_mont_into, lemma_mont_out, lemma_mont_product, lemma_read_add,
    lemma_mod_ring_laws, lemma_read_injective, lemma_read_sub, modulus_ok, mont_mul, mont_pow, sub_mod,
};
use vstd::arithmetic::div_mod::lemma_small_mod;
use vstd::arithmetic::power::pow;
use vstd::prelude::*;

verus! {

/// The modulus q.
pub open spec fn fq_modulus() -> nat {
    725501752471715841 +
    6461107452199829505 * 0x1_0000_0000_0000_0000 +
    6968279316240510977 * 0x1_0000_0000_0000_0000_0000_0000_0000_0000 +
    1345280370688173398 * 0x1_0000_0000_0000_0000_0000_0000_0000_0000_0000_0000_0000_0000
}

/// The inverse of the Montgomery radix 2^256 modulo q.
pub open spec fn fq_r_inv() -> nat {
    4693556865881009154 +
    13627521479405922421 * 0x1_0000_0000_0000_0000 +
    9477077619711315503 * 0x1_0000_0000_0000_0000_0000_0000_0000_0000 +
    554788901958500396 * 0x1_0000_0000_0000_0000_0000_0000_0000_0000_0000_0000_0000_0000
}

const MODULUS: [u64; 4] = [
    725501752471715841,
    6461107452199829505,
    6968279316240510977,
    1345280370688173398,
];

/// 2^512 mod q: the Montgomery form of 2^256.
const R2: [u64; 4] = [
    2726216793283724667,
    14712177743343147295,
    12091039717619697043,
    81024008013859129,
];

/// 2^256 mod q: the Montgomery form of one.
const MONT_ONE: [u64; 4] = [
    9015221291577245683,
    8239323489949974514,
    1646089257421115374,
    958099254763297437,
];

/// q - 2, the exponent that inverts a nonzero element.
const Q_MINUS_TWO: [u64; 4] = [
    725501752471715839,
    6461107452199829505,
    6968279316240510977,
    1345280370688173398,
];

/// The limbs of one, outside Montgomery form.
const PLAIN_ONE: [u64; 4] = [1, 0, 0, 0];

proof fn lemma_fq_constants()
    ensures
        limbs_val(MODULUS@) == fq_modulus(),
        modulus_ok(MODULUS@),
        limbs_val(MONT_ONE@) < fq_modulus(),
        (limbs_val(MONT_ONE@) * fq_r_inv()) % fq_modulus() == 1,
        (pow64(4) * fq_r_inv()) % fq_modulus() == 1,
        limbs_val(R2@) == (pow64(4) * pow64(4)) % fq_modulus(),
        limbs_val(Q_MINUS_TWO@) == fq_modulus() - 2,
        limbs_val(PLAIN_ONE@) == 1,
{
    lemma_pow64_values();
    lemma_val4(MODULUS@);
    lemma_val4(MONT_ONE@);
    lemma_val4(R2@);
    lemma_val4(Q_MINUS_TWO@);
    lemma_val4(PLAIN_ONE@);
    let m = fq_modulus();
    let ri = fq_r_inv();
    let one = limbs_val(MONT_ONE@);
    let big = pow64(4);
    assert((one * ri) % m == 1) by (nonlinear_arith)
        requires
            m == fq_modulus(),
            ri == fq_r_inv(),
            one == 9015221291577245683
                + 8239323489949974514 * 0x1_0000_0000_0000_0000
                + 1646089257421115374 * 0x1_0000_0000_0000_0000_0000_0000_0000_0000
                + 958099254763297437 * 0x1_0000_0000_0000_0000_0000_0000_0000_0000_0000_0000_0000_0000,
    ;
    assert((big * ri) % m == 1) by (nonlinear_arith)
        requires
            m == fq_modulus(),
            ri == fq_r_inv(),
            big
                == 0x1_0000_0000_0000_0000_0000_0000_0000_0000_0000_0000_0000_0000_0000_0000_0000_0000,
    ;
    let r2 = limbs_val(R2@);
    assert(r2 == (big * big) % m) by (nonlinear_arith)
        requires
            m == fq_modulus(),
            big
                == 0x1_0000_0000_0000_0000_0000_0000_0000_0000_0000_0000_0000_0000_0000_0000_0000_0000,
            r2 == 2726216793283724667
                + 14712177743343147295 * 0x1_0000_0000_0000_0000
                + 12091039717619697043 * 0x1_0000_0000_0000_0000_0000_0000_0000_0000
                + 81024008013859129 * 0x1_0000_0000_0000_0000_0000_0000_0000_0000_0000_0000_0000_0000,
    ;
    assert(m > 1);
}

/// The modulus is odd and above one.
pub proof fn lemma_fq_modulus_above_one()
    ensures
        fq_modulus() > 1,
        fq_modulus() % 2 == 1,
{
}

impl Fq {
    /// Whether the limbs hold a number below q, that is whether the element
    /// is well formed.
    pub fn is_canonical(&self) -> (r: bool)
        ensures
            r == self.wf(),
    {
        proof {
            lemma_fq_constants();
        }
        let (_, borrow) = sub_limbs(&self.0, &MODULUS);
        borrow == 1
    }
}

/// Whether 32 little-endian bytes hold a number below q.
pub fn is_canonical_bytes(bytes: &[u8; 32]) -> (r: bool)
    ensures
        r == (bytes_val(bytes@) < fq_modulus()),
{
    proof {
        lemma_fq_constants();
    }
    let limbs: [u64; 4] = limbs_from_le_bytes(bytes);
    let (_, borrow) = sub_limbs(&limbs, &MODULUS);
    borrow == 1
}

/// Limbs holding zero stand for zero.
proof fn lemma_fq_zero_limbs(s: Seq<u64>)
    requires
        limbs_val(s) == 0,
    ensures
        (limbs_val(s) * fq_r_inv()) % fq_modulus() == 0,
{
    assert(fq_modulus() > 1);
    assert(limbs_val(s) * fq_r_inv() == 0) by (nonlinear_arith)
        requires
            limbs_val(s) == 0,
    ;
}

/// An element of the base field of the curve, as the Montgomery limbs of its canonical
/// representative: limbs holding `x * 2^256 mod q` stand for `x`.
#[derive(Clone, Copy)]
pub struct Fq(pub [u64; 4]);

impl Fq {
    /// The limbs hold a number below q.
    pub open spec fn wf(self) -> bool {
        limbs_val(self.0@) < fq_modulus()
    }

    /// The field element, in `[0, q)`.
    pub open spec fn value(self) -> nat {
        (limbs_val(self.0@) * fq_r_inv()) % fq_modulus()
    }

    /// The element whose canonical little-endian limbs are `limbs`, reduced modulo q.
    pub fn from_le_limbs(limbs: [u64; 4]) -> (r: Fq)
        ensures
            r.wf(),
            r.value() == limbs_val(limbs@) % fq_modulus(),
    {
        proof {
            lemma_fq_constants();
        }
        let m = mont_mul(&R2, &limbs, &MODULUS);
        proof {
            lemma_mont_into(
                limbs_val(m@) as int,
                limbs_val(limbs@) as int,
                pow64(4) as int,
                fq_r_inv() as int,
                fq_modulus() as int,
            );
        }
        Fq(m)
    }

    /// The element whose canonical representative has these 32 little-endian
    /// bytes, reduced modulo q.
    pub fn from_bytes(bytes: &[u8; 32]) -> (r: Fq)
        ensures
            r.wf(),
            r.value() == bytes_val(bytes@) % fq_modulus(),
    {
        let limbs: [u64; 4] = limbs_from_le_bytes(bytes);
        Fq::from_le_limbs(limbs)
    }

    /// The little-endian limbs of the canonical representative.
    pub fn to_le_limbs(&self) -> (r: [u64; 4])
        requires
            self.wf(),
        ensures
            limbs_val(r@) == self.value(),
    {
        proof {
            lemma_fq_constants();
        }
        let c = mont_mul(&self.0, &PLAIN_ONE, &MODULUS);
        proof {
            lemma_small_mod(limbs_val(self.0@), fq_modulus());
            lemma_mont_out(
                limbs_val(c@) as int,
                limbs_val(self.0@) as int,
                pow64(4) as int,
                fq_r_inv() as int,
                fq_modulus() as int,
            );
        }
        c
    }

    /// The 32 little-endian bytes of the canonical representative.
    pub fn to_bytes_le(&self) -> (r: [u8; 32])
        requires
            self.wf(),
        ensures
            bytes_val(r@) == self.value(),
    {
        let limbs = self.to_le_limbs();
        limbs_to_le_bytes(&limbs)
    }

    /// The element held by these Montgomery limbs.
    pub fn from_montgomery_limbs(limbs: [u64; 4]) -> (r: Fq)
        requires
            limbs_val(limbs@) < fq_modulus(),
        ensures
            r.wf(),
            r.0 == limbs,
    {
        Fq(limbs)
    }

    /// Zero.
    pub fn zero() -> (r: Fq)
        ensures
            r.wf(),
            r.value() == 0,
    {
        let r = Fq([0, 0, 0, 0]);
        proof {
            lemma_val_zero(r.0@);
            lemma_fq_zero_limbs(r.0@);
        }
        r
    }

    /// One.
    pub fn one() -> (r: Fq)
        ensures
            r.wf(),
            r.value() == 1,
    {
        proof {
            lemma_fq_constants();
        }
        Fq(MONT_ONE)
    }

    /// The square.
    pub fn square(&self) -> (r: Fq)
        requires
            self.wf(),
        ensures
            r.wf(),
            r.value() == (self.value() * self.value()) % fq_modulus(),
    {
        self.mul(self)
    }

    /// The multiplicative inverse, computed as `self^(q - 2)`; none for zero.
    pub fn inverse(&self) -> (r: Option<Fq>)
        requires
            self.wf(),
        ensures
            self.value() == 0 ==> r is None,
            self.value() != 0 ==> (r matches Some(y) && y.wf() && y.value() == pow(
                self.value() as int,
                (fq_modulus() - 2) as nat,
            ) % (fq_modulus() as int)),
    {
        if self.is_zero() {
            return None;
        }
        proof {
            lemma_fq_constants();
        }
        let y = mont_pow(&self.0, &Q_MINUS_TWO, &MONT_ONE, &MODULUS, Ghost(fq_r_inv() as int));
        Some(Fq(y))
    }

    /// Whether the element is zero.
    pub fn is_zero(&self) -> (r: bool)
        requires
            self.wf(),
        ensures
            r == (self.value() == 0),
    {
        proof {
            lemma_fq_constants();
        }
        let z: [u64; 4] = [0, 0, 0, 0];
        proof {
            lemma_val_zero(z@);
        }
        let r = eq_mod(&self.0, &z, &MODULUS);
        proof {
            lemma_fq_zero_limbs(z@);
            if self.value() == 0 {
                lemma_read_injective(
                    limbs_val(self.0@) as int,
                    0,
                    pow64(4) as int,
                    fq_r_inv() as int,
                    fq_modulus() as int,
                );
            }
        }
        r
    }

    /// The sum.
    pub fn add(self, other: &Fq) -> (r: Fq)
        requires
            self.wf(),
            other.wf(),
        ensures
            r.wf(),
            r.value() == (self.value() + other.value()) % fq_modulus(),
    {
        proof {
            lemma_fq_constants();
        }
        let s = add_mod(&self.0, &other.0, &MODULUS);
        proof {
            lemma_read_add(
                limbs_val(self.0@) as int,
                limbs_val(other.0@) as int,
                fq_r_inv() as int,
                fq_modulus() as int,
            );
        }
        Fq(s)
    }

    /// The difference.
    pub fn sub(self, other: &Fq) -> (r: Fq)
        requires
            self.wf(),
            other.wf(),
        ensures
            r.wf(),
            r.value() == (self.value() - other.value()) % (fq_modulus() as int),
    {
        proof {
            lemma_fq_constants();
        }
        let d = sub_mod(&self.0, &other.0, &MODULUS);
        proof {
            lemma_read_sub(
                limbs_val(self.0@) as int,
                limbs_val(other.0@) as int,
                fq_r_inv() as int,
                fq_modulus() as int,
            );
        }
        Fq(d)
    }

    /// The product.
    pub fn mul(self, other: &Fq) -> (r: Fq)
        requires
            self.wf(),
            other.wf(),
        ensures
            r.wf(),
            r.value() == (self.value() * other.value()) % fq_modulus(),
    {
        proof {
            lemma_fq_constants();
        }
        let m = mont_mul(&self.0, &other.0, &MODULUS);
        proof {
            lemma_mont_product(
                limbs_val(m@) as int,
                limbs_val(self.0@) as int,
                limbs_val(other.0@) as int,
                pow64(4) as int,
                fq_r_inv() as int,
                fq_modulus() as int,
            );
        }
        Fq(m)
    }

    /// The additive inverse.
    pub fn neg(self) -> (r: Fq)
        requires
            self.wf(),
        ensures
            r.wf(),
            r.value() == (0 - self.value()) % (fq_modulus() as int),
    {
        let z = Fq::zero();
        z.sub(&self)
    }

    /// Overwrites the limbs with zeros.
    pub fn zeroize(&mut self)
        ensures
            final(self).wf(),
            final(self).value() == 0,
            forall|i: int| 0 <= i < 4 ==> final(self).0@[i] == 0,
    {
        zeroize_limbs(&mut self.0);
        proof {
            lemma_val_zero(self.0@);
            lemma_fq_zero_limbs(self.0@);
        }
    }
}

/// The elements form a commutative ring under `add` and `mul`, with `zero`
/// and `one` as identities, `neg` giving additive inverses, and `sub` adding
/// the negation: stated over the values that those functions promise.
pub proof fn fq_ring_laws(a: Fq, b: Fq, c: Fq)
    requires
        a.wf(),
        b.wf(),
        c.wf(),
    ensures
        (a.value() + b.value()) % fq_modulus() == (b.value() + a.value()) % fq_modulus(),
        (a.value() * b.value()) % fq_modulus() == (b.value() * a.value()) % fq_modulus(),
        ((a.value() + b.value()) % fq_modulus() + c.value()) % fq_modulus() == (a.value() + (b.value()
            + c.value()) % fq_modulus()) % fq_modulus(),
        ((a.value() * b.value()) % fq_modulus() * c.value()) % fq_modulus() == (a.value() * ((
        b.value() * c.value()) % fq_modulus())) % fq_modulus(),
        (a.value() * ((b.value() + c.value()) % fq_modulus())) % fq_modulus() == ((a.value()
            * b.value()) % fq_modulus() + (a.value() * c.value()) % fq_modulus()) % fq_modulus(),
        (a.value() + 0) % fq_modulus() == a.value(),
        (a.value() * 1) % fq_modulus() == a.value(),
        (a.value() + (0 - a.value()) % (fq_modulus() as int)) % (fq_modulus() as int) == 0,
        (a.value() - b.value()) % (fq_modulus() as int) == (a.value() + (0 - b.value()) % (
        fq_modulus() as int)) % (fq_modulus() as int),
{
    lemma_fq_constants();
    lemma_mod_ring_laws(
        a.value() as int,
        b.value() as int,
        c.value() as int,
        fq_modulus() as int,
    );
}

/// For well-formed elements, equal limbs and equal values go together, so
/// `==` on elements is equality of field elements.
pub proof fn fq_eq_is_value_eq(a: Fq, b: Fq)
    requires
        a.wf(),
        b.wf(),
    ensures
        (a.0@ == b.0@) <==> (a.value() == b.value()),
{
    lemma_fq_constants();
    if a.value() == b.value() {
        lemma_read_injective(
            limbs_val(a.0@) as int,
            limbs_val(b.0@) as int,
            pow64(4) as int,
            fq_r_inv() as int,
            fq_modulus() as int,
        );
        lemma_val_injective(a.0@, b.0@);
    }
}

/// Writing an element as bytes and reading them back gives the element.
pub proof fn fq_bytes_round_trip(a: Fq, bytes: Seq<u8>)
    requires
        a.wf(),
        bytes_val(bytes) == a.value(),
    ensures
        bytes_val(bytes) % fq_modulus() == a.value(),
{
    lemma_fq_constants();
    lemma_small_mod(a.value(), fq_modulus());
}

impl PartialEq for Fq {
    /// Equality of the held limbs, which for well-formed elements is equality
    /// of the field elements: every limb pair is compared, with no early exit.
    fn eq(&self, other: &Fq) -> (r: bool) {
        let mut diff: u64 = 0;
        let mut i: usize = 0;
        while i < 4
            invariant
                i <= 4,
                (diff == 0) == (forall|j: int| 0 <= j < i ==> self.0[j] == other.0[j]),
            decreases 4 - i,
        {
            let before = diff;
            let x: u64 = self.0[i];
            let y: u64 = other.0[i];
            diff = diff | (x ^ y);
            proof {
                assert((diff == 0) == (before == 0 && x == y)) by (bit_vector)
                    requires
                        diff == before | (x ^ y),
                ;
            }
            i = i + 1;
        }
        proof {
            if diff == 0 {
                assert(self.0@ =~= other.0@);
            }
        }
        diff == 0
    }
}

impl vstd::std_specs::cmp::PartialEqSpecImpl for Fq {
    open spec fn obeys_eq_spec() -> bool {
        true
    }

    open spec fn eq_spec(&self, other: &Fq) -> bool {
        self.0@ == other.0@
    }
}

impl Eq for Fq {

}

} // verus!
