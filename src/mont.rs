//! Arithmetic modulo an odd number held in `N` limbs, with Montgomery
//! multiplication for the radix 2^(64 N).
use crate::limbs::{
    add_limbs, is_zero_limbs, lemma_val_bound, lemma_val_parity, limbs_val,
    pow64, shr1_limbs, sub_limbs,
};
use vstd::arithmetic::div_mod::{
    lemma_add_mod_noop, lemma_mod_multiples_vanish, lemma_mul_mod_noop, lemma_mul_mod_noop_left,
    lemma_mod_twice, lemma_mul_mod_noop_right, lemma_small_mod, lemma_sub_mod_noop,
};
use vstd::arithmetic::power::{lemma_pow0, lemma_pow1, lemma_pow_adds, pow};
use vstd::arithmetic::power2::{lemma2_to64, lemma_pow2_adds, lemma_pow2_pos, pow2};
use vstd::prelude::*;

verus! {

/// A modulus that these routines accept: odd, above one, and with room for
/// four times itself in its limbs.
pub open spec fn modulus_ok(m: Seq<u64>) -> bool {
    &&& 0 < m.len() <= 8
    &&& limbs_val(m) % 2 == 1
    &&& limbs_val(m) > 1
    &&& 4 * limbs_val(m) < pow64(m.len() as nat)
}

pub proof fn lemma_cong_mul(x: int, y: int, k: int, m: int)
    requires
        m > 0,
        x % m == y % m,
    ensures
        (x * k) % m == (y * k) % m,
{
    lemma_mul_mod_noop_left(x, k, m);
    lemma_mul_mod_noop_left(y, k, m);
}

/// Multiplying by `big` and then by its inverse `rinv` changes nothing modulo `m`.
pub proof fn lemma_cancel(x: int, big: int, rinv: int, m: int)
    requires
        m > 1,
        (big * rinv) % m == 1,
    ensures
        (x * big * rinv) % m == x % m,
{
    assert(x * big * rinv == x * (big * rinv)) by (nonlinear_arith);
    lemma_mul_mod_noop_right(x, big * rinv, m);
    assert(x * 1 == x);
}

/// A Montgomery product read back through the inverse of the radix is the
/// product of the factors read back the same way.
pub proof fn lemma_mont_product(r: int, a: int, b: int, big: int, rinv: int, m: int)
    requires
        m > 1,
        (big * rinv) % m == 1,
        (r * big) % m == (a * b) % m,
    ensures
        (r * rinv) % m == (((a * rinv) % m) * ((b * rinv) % m)) % m,
{
    lemma_cancel(r, big, rinv, m);
    lemma_cong_mul(r * big, a * b, rinv, m);
    // r = a b rinv (mod m)
    lemma_cong_mul(r, a * b * rinv, rinv, m);
    assert(a * b * rinv * rinv == (a * rinv) * (b * rinv)) by (nonlinear_arith);
    lemma_mul_mod_noop_left(a * rinv, b * rinv, m);
    lemma_mul_mod_noop_right((a * rinv) % m, b * rinv, m);
}

/// The Montgomery product of `x` with `big^2` reads back as `x`.
pub proof fn lemma_mont_into(r: int, x: int, big: int, rinv: int, m: int)
    requires
        m > 1,
        (big * rinv) % m == 1,
        (r * big) % m == (((big * big) % m) * x) % m,
    ensures
        (r * rinv) % m == x % m,
{
    lemma_mul_mod_noop_left(big * big, x, m);
    lemma_cancel(r, big, rinv, m);
    lemma_cong_mul(r * big, big * big * x, rinv, m);
    assert(big * big * x * rinv == (big * x) * big * rinv) by (nonlinear_arith);
    lemma_cancel(big * x, big, rinv, m);
    // r = big x (mod m)
    lemma_cong_mul(r, big * x, rinv, m);
    assert(big * x * rinv == x * big * rinv) by (nonlinear_arith);
    lemma_cancel(x, big, rinv, m);
}

/// The Montgomery product of `a` with one, below `m`, is `a` read back.
pub proof fn lemma_mont_out(r: int, a: int, big: int, rinv: int, m: int)
    requires
        m > 1,
        (big * rinv) % m == 1,
        0 <= r < m,
        (r * big) % m == a % m,
    ensures
        r == (a * rinv) % m,
{
    lemma_cancel(r, big, rinv, m);
    lemma_cong_mul(r * big, a, rinv, m);
    lemma_small_mod(r as nat, m as nat);
}

/// Reading back through `rinv` turns a sum modulo `m` into the sum of the readings.
pub proof fn lemma_read_add(a: int, b: int, rinv: int, m: int)
    requires
        m > 1,
    ensures
        (((a + b) % m) * rinv) % m == (((a * rinv) % m) + ((b * rinv) % m)) % m,
{
    lemma_mul_mod_noop_left(a + b, rinv, m);
    assert((a + b) * rinv == a * rinv + b * rinv) by (nonlinear_arith);
    lemma_add_mod_noop(a * rinv, b * rinv, m);
}

/// Reading back through `rinv` turns a difference modulo `m` into the
/// difference of the readings.
pub proof fn lemma_read_sub(a: int, b: int, rinv: int, m: int)
    requires
        m > 1,
    ensures
        (((a - b) % m) * rinv) % m == (((a * rinv) % m) - ((b * rinv) % m)) % m,
{
    lemma_mul_mod_noop_left(a - b, rinv, m);
    assert((a - b) * rinv == a * rinv - b * rinv) by (nonlinear_arith);
    lemma_sub_mod_noop(a * rinv, b * rinv, m);
}

/// Below `m`, two numbers with the same reading are equal.
pub proof fn lemma_read_injective(x: int, y: int, big: int, rinv: int, m: int)
    requires
        m > 1,
        (big * rinv) % m == 1,
        0 <= x < m,
        0 <= y < m,
        (x * rinv) % m == (y * rinv) % m,
    ensures
        x == y,
{
    lemma_cong_mul(x * rinv, y * rinv, big, m);
    assert(x * rinv * big == x * big * rinv) by (nonlinear_arith);
    assert(y * rinv * big == y * big * rinv) by (nonlinear_arith);
    lemma_cancel(x, big, rinv, m);
    lemma_cancel(y, big, rinv, m);
    lemma_small_mod(x as nat, m as nat);
    lemma_small_mod(y as nat, m as nat);
}

/// Powers of `x` modulo `m` multiply by adding exponents.
pub proof fn lemma_pow_mod_adds(x: int, e1: nat, e2: nat, m: int)
    requires
        m > 0,
    ensures
        ((pow(x, e1) % m) * (pow(x, e2) % m)) % m == pow(x, e1 + e2) % m,
{
    lemma_pow_adds(x, e1, e2);
    lemma_mul_mod_noop(pow(x, e1), pow(x, e2), m);
}

/// The ring laws of arithmetic modulo `m`, on representatives in `[0, m)`.
pub proof fn lemma_mod_ring_laws(a: int, b: int, c: int, m: int)
    requires
        m > 1,
        0 <= a < m,
        0 <= b < m,
        0 <= c < m,
    ensures
        (a + b) % m == (b + a) % m,
        (a * b) % m == (b * a) % m,
        (((a + b) % m) + c) % m == (a + ((b + c) % m)) % m,
        (((a * b) % m) * c) % m == (a * ((b * c) % m)) % m,
        (a * ((b + c) % m)) % m == (((a * b) % m) + ((a * c) % m)) % m,
        (a + 0) % m == a,
        (a * 1) % m == a,
        (a + ((0 - a) % m)) % m == 0,
        (a - b) % m == (a + ((0 - b) % m)) % m,
{
    lemma_small_mod(a as nat, m as nat);
    assert(a * b == b * a) by (nonlinear_arith);
    // associativity of addition
    lemma_add_mod_noop(a + b, c, m);
    lemma_add_mod_noop(a, b + c, m);
    lemma_small_mod(c as nat, m as nat);
    lemma_mod_twice(a + b, m);
    lemma_mod_twice(b + c, m);
    lemma_add_mod_noop(a, b, m);
    lemma_add_mod_noop(b, c, m);
    assert(((a + b) % m + c) % m == (a + b + c) % m);
    assert((a + (b + c) % m) % m == (a + b + c) % m);
    // associativity of multiplication
    lemma_mul_mod_noop_left(a * b, c, m);
    lemma_mul_mod_noop_right(a, b * c, m);
    assert(a * b * c == a * (b * c)) by (nonlinear_arith);
    // distributivity
    lemma_mul_mod_noop_right(a, b + c, m);
    assert(a * (b + c) == a * b + a * c) by (nonlinear_arith);
    lemma_add_mod_noop(a * b, a * c, m);
    // identities
    assert(a * 1 == a);
    // negation and subtraction
    lemma_add_mod_noop(a, 0 - a, m);
    lemma_small_mod(a as nat, m as nat);
    lemma_mod_twice(0 - a, m);
    lemma_add_mod_noop(a, 0 - b, m);
    lemma_mod_twice(0 - b, m);
    assert(a + (0 - b) == a - b);
    lemma_small_mod(0, m as nat);
}

proof fn lemma_reduce_once(x: int, m: int)
    requires
        0 < m,
        m <= x < 2 * m,
    ensures
        x % m == x - m,
{
    lemma_mod_multiples_vanish(1, x - m, m);
    lemma_small_mod((x - m) as nat, m as nat);
}

/// `(a + b) mod m`, for `a` and `b` below `m`.
pub fn add_mod<const N: usize>(a: &[u64; N], b: &[u64; N], m: &[u64; N]) -> (r: [u64; N])
    requires
        modulus_ok(m@),
        limbs_val(a@) < limbs_val(m@),
        limbs_val(b@) < limbs_val(m@),
    ensures
        limbs_val(r@) == (limbs_val(a@) + limbs_val(b@)) as int % (limbs_val(m@) as int),
        limbs_val(r@) < limbs_val(m@),
{
    let (s, c) = add_limbs(a, b);
    proof {
        lemma_val_bound(s@);
        assert(m@.len() == N);
        assert(c == 0) by (nonlinear_arith)
            requires
                limbs_val(s@) + (c as nat) * pow64(N as nat) == limbs_val(a@) + limbs_val(b@),
                limbs_val(a@) + limbs_val(b@) < pow64(N as nat),
        ;
    }
    let (d, borrow) = sub_limbs(&s, m);
    let ghost x = (limbs_val(a@) + limbs_val(b@)) as int;
    let ghost mm = limbs_val(m@) as int;
    proof {
        assert(limbs_val(s@) == x);
    }
    if borrow == 1 {
        proof {
            assert(x < mm);
            lemma_small_mod(x as nat, mm as nat);
            assert(limbs_val(s@) == x % mm);
        }
        s
    } else {
        proof {
            assert(x >= mm);
            lemma_reduce_once(x, mm);
            assert(limbs_val(d@) == x - mm);
            assert(limbs_val(d@) == x % mm);
        }
        d
    }
}

/// `(a - b) mod m`, for `a` and `b` below `m`.
pub fn sub_mod<const N: usize>(a: &[u64; N], b: &[u64; N], m: &[u64; N]) -> (r: [u64; N])
    requires
        modulus_ok(m@),
        limbs_val(a@) < limbs_val(m@),
        limbs_val(b@) < limbs_val(m@),
    ensures
        limbs_val(r@) == (limbs_val(a@) - limbs_val(b@)) % (limbs_val(m@) as int),
        limbs_val(r@) < limbs_val(m@),
{
    let (d, borrow) = sub_limbs(a, b);
    let ghost x = limbs_val(a@) - limbs_val(b@);
    let ghost mm = limbs_val(m@) as int;
    if borrow == 1 {
        let (s, c) = add_limbs(&d, m);
        proof {
            lemma_val_bound(s@);
            lemma_val_bound(d@);
            lemma_mod_multiples_vanish(1, x, mm);
            lemma_small_mod((x + mm) as nat, mm as nat);
            assert(c == 1);
        }
        s
    } else {
        proof {
            lemma_small_mod(x as nat, mm as nat);
        }
        d
    }
}

/// Whether `a` and `b`, both below `m`, are equal, decided by testing their
/// difference modulo `m` against zero.
pub fn eq_mod<const N: usize>(a: &[u64; N], b: &[u64; N], m: &[u64; N]) -> (r: bool)
    requires
        modulus_ok(m@),
        limbs_val(a@) < limbs_val(m@),
        limbs_val(b@) < limbs_val(m@),
    ensures
        r == (limbs_val(a@) == limbs_val(b@)),
{
    let d = sub_mod(a, b, m);
    proof {
        let x = limbs_val(a@) - limbs_val(b@);
        let mm = limbs_val(m@) as int;
        if x < 0 {
            lemma_mod_multiples_vanish(1, x, mm);
            lemma_small_mod((x + mm) as nat, mm as nat);
        } else {
            lemma_small_mod(x as nat, mm as nat);
        }
    }
    is_zero_limbs(&d)
}

proof fn lemma_mont_step(t: int, a: int, bit: int, odd: int, m: int, w: int, low: int, tn: int)
    requires
        m > 0,
        tn * 2 == t + bit * a + odd * m,
        (t * w) % m == (a * low) % m,
    ensures
        (tn * (2 * w)) % m == (a * (low + bit * w)) % m,
{
    assert(tn * (2 * w) == m * (odd * w) + (t * w + bit * a * w)) by (nonlinear_arith)
        requires
            tn * 2 == t + bit * a + odd * m,
    ;
    lemma_mod_multiples_vanish(odd * w, t * w + bit * a * w, m);
    lemma_add_mod_noop(t * w, bit * a * w, m);
    lemma_add_mod_noop(a * low, bit * a * w, m);
    assert(a * low + bit * a * w == a * (low + bit * w)) by (nonlinear_arith);
}

/// The Montgomery product: `r` below `m` with `r * 2^(64 N) = a * b (mod m)`.
/// Only `a` need be below `m`; `b` may be any number of `N` limbs.
pub fn mont_mul<const N: usize>(a: &[u64; N], b: &[u64; N], m: &[u64; N]) -> (r: [u64; N])
    requires
        modulus_ok(m@),
        limbs_val(a@) < limbs_val(m@),
    ensures
        limbs_val(r@) < limbs_val(m@),
        (limbs_val(r@) * pow64(N as nat)) % limbs_val(m@) == (limbs_val(a@) * limbs_val(b@))
            % limbs_val(m@),
{
    let ghost mm = limbs_val(m@) as int;
    let ghost av = limbs_val(a@) as int;
    let ghost bv = limbs_val(b@) as int;
    let ghost big = pow64(N as nat) as int;
    let mut t = [0u64; N];
    let mut e: [u64; N] = *b;
    let bits: usize = 64 * N;
    let mut i: usize = 0;
    let ghost mut low: int = 0;
    proof {
        lemma2_to64();
        crate::limbs::lemma_val_zero(t@);
        assert(((0 * pow2(0)) as int) % mm == (av * 0) % mm);
    }
    while i < bits
        invariant
            modulus_ok(m@),
            mm == limbs_val(m@),
            av == limbs_val(a@),
            bv == limbs_val(b@),
            av < mm,
            bits == 64 * N,
            i <= bits,
            low >= 0,
            limbs_val(t@) < 2 * mm,
            bv == low + limbs_val(e@) * pow2(i as nat),
            ((limbs_val(t@) * pow2(i as nat)) as int) % mm == (av * low) % mm,
        decreases bits - i,
    {
        let e0: u64 = e[0];
        let bit: u64 = e0 & 1u64;
        proof {
            assert(bit == e0 % 2) by (bit_vector)
                requires
                    bit == e0 & 1u64,
            ;
            lemma_val_parity(e@);
        }
        proof {
            assert(m@.len() == N);
        }
        let mut t1: [u64; N] = t;
        if bit == 1 {
            let (s, c) = add_limbs(&t, a);
            proof {
                assert(c == 0) by (nonlinear_arith)
                    requires
                        limbs_val(s@) + (c as nat) * pow64(N as nat) == limbs_val(t@) + av,
                        limbs_val(t@) + av < pow64(N as nat),
                ;
            }
            t1 = s;
        }
        proof {
            lemma_val_bound(t1@);
            assert(limbs_val(t1@) == limbs_val(t@) + (bit as int) * av);
        }
        let t10: u64 = t1[0];
        let odd: u64 = t10 & 1u64;
        proof {
            assert(odd == t10 % 2) by (bit_vector)
                requires
                    odd == t10 & 1u64,
            ;
            lemma_val_parity(t1@);
        }
        let mut t2: [u64; N] = t1;
        if odd == 1 {
            let (s, c) = add_limbs(&t1, m);
            proof {
                assert(c == 0) by (nonlinear_arith)
                    requires
                        limbs_val(s@) + (c as nat) * pow64(N as nat) == limbs_val(t1@) + mm,
                        limbs_val(t1@) + mm < pow64(N as nat),
                ;
            }
            t2 = s;
        }
        proof {
            lemma_val_bound(t2@);
            assert(limbs_val(t2@) == limbs_val(t1@) + (odd as int) * mm);
            assert(limbs_val(t2@) % 2 == 0) by (nonlinear_arith)
                requires
                    limbs_val(t2@) == limbs_val(t1@) + (odd as int) * mm,
                    odd == limbs_val(t1@) % 2,
                    mm % 2 == 1,
            ;
        }
        let tn = shr1_limbs(&t2);
        let en = shr1_limbs(&e);
        proof {
            lemma2_to64();
            lemma_pow2_adds(i as nat, 1);
            lemma_pow2_pos(i as nat);
            let w = pow2(i as nat) as int;
            assert(pow2((i + 1) as nat) == 2 * w);
            lemma_mont_step(
                limbs_val(t@) as int,
                av,
                bit as int,
                odd as int,
                mm,
                w,
                low,
                limbs_val(tn@) as int,
            );
            let ev = limbs_val(e@) as int;
            let env = limbs_val(en@) as int;
            assert(ev == bit + 2 * env);
            assert(bv == (low + bit * w) + env * (2 * w)) by (nonlinear_arith)
                requires
                    bv == low + ev * w,
                    ev == bit + 2 * env,
            ;
            low = low + bit * w;
        }
        t = tn;
        e = en;
        i = i + 1;
    }
    proof {
        assert(i as nat == 64 * (N as nat));
        assert(pow2(i as nat) == big);
        lemma_pow2_pos(i as nat);
        assert(b@.len() == N);
        lemma_val_bound(b@);
        lemma_val_bound(t@);
        let ev = limbs_val(e@) as int;
        assert(ev == 0 && low == bv) by (nonlinear_arith)
            requires
                bv == low + ev * big,
                bv < big,
                big > 0,
                low >= 0,
                ev >= 0,
        ;
    }
    let (d, borrow) = sub_limbs(&t, m);
    if borrow == 1 {
        t
    } else {
        proof {
            let tv = limbs_val(t@) as int;
            assert((tv - mm) * big == mm * (-big) + tv * big) by (nonlinear_arith);
            lemma_mod_multiples_vanish(-big, tv * big, mm);
        }
        d
    }
}

/// Raises the number that `x` reads back as (through `rinv`) to the power
/// `e`, by square-and-multiply over the bits of `e`.
pub fn mont_pow<const N: usize>(
    x: &[u64; N],
    e: &[u64; N],
    one: &[u64; N],
    m: &[u64; N],
    Ghost(rinv): Ghost<int>,
) -> (r: [u64; N])
    requires
        modulus_ok(m@),
        limbs_val(x@) < limbs_val(m@),
        limbs_val(one@) < limbs_val(m@),
        (limbs_val(one@) * rinv) % (limbs_val(m@) as int) == 1,
        (pow64(N as nat) * rinv) % (limbs_val(m@) as int) == 1,
    ensures
        limbs_val(r@) < limbs_val(m@),
        (limbs_val(r@) * rinv) % (limbs_val(m@) as int) == pow(
            (limbs_val(x@) * rinv) % (limbs_val(m@) as int),
            limbs_val(e@),
        ) % (limbs_val(m@) as int),
{
    let ghost mm = limbs_val(m@) as int;
    let ghost xv = (limbs_val(x@) * rinv) % mm;
    let ghost ev = limbs_val(e@) as int;
    let ghost big = pow64(N as nat) as int;
    let mut acc: [u64; N] = *one;
    let mut base: [u64; N] = *x;
    let mut ee: [u64; N] = *e;
    let bits: usize = 64 * N;
    let mut i: usize = 0;
    let ghost mut low: nat = 0;
    proof {
        lemma2_to64();
        lemma_pow0(xv);
        lemma_pow1(xv);
        lemma_small_mod(1, mm as nat);
        lemma_mod_twice(limbs_val(x@) * rinv, mm);
    }
    while i < bits
        invariant
            modulus_ok(m@),
            mm == limbs_val(m@),
            xv == (limbs_val(x@) * rinv) % mm,
            ev == limbs_val(e@),
            big == pow64(N as nat),
            (big * rinv) % mm == 1,
            bits == 64 * N,
            i <= bits,
            limbs_val(acc@) < mm,
            limbs_val(base@) < mm,
            (limbs_val(acc@) * rinv) % mm == pow(xv, low) % mm,
            (limbs_val(base@) * rinv) % mm == pow(xv, pow2(i as nat)) % mm,
            ev == low + limbs_val(ee@) * pow2(i as nat),
        decreases bits - i,
    {
        let e0: u64 = ee[0];
        let bit: u64 = e0 & 1u64;
        proof {
            assert(bit == e0 % 2) by (bit_vector)
                requires
                    bit == e0 & 1u64,
            ;
            lemma_val_parity(ee@);
        }
        let ghost w = pow2(i as nat);
        if bit == 1 {
            let prod = mont_mul(&acc, &base, m);
            proof {
                lemma_mont_product(
                    limbs_val(prod@) as int,
                    limbs_val(acc@) as int,
                    limbs_val(base@) as int,
                    big,
                    rinv,
                    mm,
                );
                lemma_pow_mod_adds(xv, low, w, mm);
            }
            acc = prod;
        }
        let sq = mont_mul(&base, &base, m);
        proof {
            lemma_mont_product(
                limbs_val(sq@) as int,
                limbs_val(base@) as int,
                limbs_val(base@) as int,
                big,
                rinv,
                mm,
            );
            lemma_pow_mod_adds(xv, w, w, mm);
            lemma2_to64();
            lemma_pow2_adds(i as nat, 1);
            assert(pow2((i + 1) as nat) == w + w);
        }
        base = sq;
        let en = shr1_limbs(&ee);
        proof {
            let eev = limbs_val(ee@) as int;
            let env = limbs_val(en@) as int;
            assert(eev == bit + 2 * env);
            assert(ev == (low + bit * w) + env * (2 * w)) by (nonlinear_arith)
                requires
                    ev == low + eev * w,
                    eev == bit + 2 * env,
            ;
            low = low + (bit as nat) * w;
        }
        ee = en;
        i = i + 1;
    }
    proof {
        assert(i as nat == 64 * (N as nat));
        assert(pow2(i as nat) == big);
        lemma_pow2_pos(i as nat);
        assert(e@.len() == N);
        lemma_val_bound(e@);
        let eev = limbs_val(ee@) as int;
        assert(eev == 0 && low == ev) by (nonlinear_arith)
            requires
                ev == low + eev * big,
                ev < big,
                big > 0,
                low >= 0,
                eev >= 0,
        ;
    }
    acc
}

} // verus!
