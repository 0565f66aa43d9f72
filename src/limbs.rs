//! Fixed-width unsigned integers held as little-endian 64-bit limbs.
use vstd::arithmetic::power2::{lemma2_to64, lemma_pow2_adds, lemma_pow2_pos, pow2};
use vstd::prelude::*;

verus! {

/// 2^64, the radix of a limb.
pub open spec fn radix() -> nat {
    0x1_0000_0000_0000_0000
}

/// The weight of limb `i`: 2^(64 i).
pub open spec fn pow64(i: nat) -> nat {
    pow2(64 * i)
}

/// The number that a sequence of little-endian 64-bit limbs stands for.
pub open spec fn limbs_val(s: Seq<u64>) -> nat
    decreases s.len(),
{
    if s.len() == 0 {
        0
    } else {
        limbs_val(s.drop_last()) + (s.last() as nat) * pow64((s.len() - 1) as nat)
    }
}

pub proof fn lemma_pow64_step(i: nat)
    ensures
        pow64(i + 1) == pow64(i) * radix(),
        pow64(i) > 0,
        pow64(0) == 1,
{
    lemma_pow2_adds(64 * i, 64);
    lemma2_to64();
    lemma_pow2_pos(64 * i);
    assert(64 * (i + 1) == 64 * i + 64) by (nonlinear_arith);
}

pub proof fn lemma_val_take_step(s: Seq<u64>, i: int)
    requires
        0 <= i < s.len(),
    ensures
        limbs_val(s.take(i + 1)) == limbs_val(s.take(i)) + (s[i] as nat) * pow64(i as nat),
{
    assert(s.take(i + 1).drop_last() =~= s.take(i));
}

pub proof fn lemma_val_take_all(s: Seq<u64>)
    ensures
        limbs_val(s.take(s.len() as int)) == limbs_val(s),
        limbs_val(s.take(0)) == 0,
{
    assert(s.take(s.len() as int) =~= s);
}

/// A number held in `n` limbs is below 2^(64 n).
pub proof fn lemma_val_bound(s: Seq<u64>)
    ensures
        limbs_val(s) < pow64(s.len()),
    decreases s.len(),
{
    lemma_pow64_step(0);
    if s.len() > 0 {
        let n = (s.len() - 1) as nat;
        let d = s.drop_last();
        lemma_val_bound(d);
        lemma_pow64_step(n);
        let v = limbs_val(s);
        let dv = limbs_val(d);
        let last = s.last() as nat;
        let p = pow64(n);
        assert(v < pow64(n + 1)) by (nonlinear_arith)
            requires
                v == dv + last * p,
                dv < p,
                last < radix(),
                pow64(n + 1) == p * radix(),
        ;
    }
}

/// The lowest bit of a number is the lowest bit of its first limb.
pub proof fn lemma_val_parity(s: Seq<u64>)
    requires
        s.len() > 0,
    ensures
        limbs_val(s) % 2 == (s[0] as nat) % 2,
    decreases s.len(),
{
    lemma_pow64_step(0);
    if s.len() > 1 {
        let n = (s.len() - 1) as nat;
        let d = s.drop_last();
        lemma_val_parity(d);
        lemma_pow64_step((n - 1) as nat);
        let q = pow64((n - 1) as nat);
        let k = (s.last() as nat) * q * (radix() / 2);
        assert((s.last() as nat) * pow64(n) == 2 * k) by (nonlinear_arith)
            requires
                pow64(n) == q * radix(),
                k == (s.last() as nat) * q * (radix() / 2),
        ;
        assert((limbs_val(d) + 2 * k) % 2 == limbs_val(d) % 2) by (nonlinear_arith);
        assert(d[0] == s[0]);
    } else {
        assert(s.drop_last() =~= Seq::<u64>::empty());
        assert(limbs_val(s.drop_last()) == 0);
        assert(limbs_val(s) == (s[0] as nat) * pow64(0));
    }
}

/// Two limb sequences of one length with equal values are equal.
pub proof fn lemma_val_injective(a: Seq<u64>, b: Seq<u64>)
    requires
        a.len() == b.len(),
        limbs_val(a) == limbs_val(b),
    ensures
        a == b,
    decreases a.len(),
{
    if a.len() > 0 {
        let n = (a.len() - 1) as nat;
        lemma_val_bound(a.drop_last());
        lemma_val_bound(b.drop_last());
        let p = pow64(n);
        let da = limbs_val(a.drop_last());
        let db = limbs_val(b.drop_last());
        let la = a.last() as int;
        let lb = b.last() as int;
        assert(la == lb) by (nonlinear_arith)
            requires
                da + la * p == db + lb * p,
                0 <= da < p,
                0 <= db < p,
                la >= 0,
                lb >= 0,
        ;
        lemma_val_injective(a.drop_last(), b.drop_last());
        assert(a =~= a.drop_last().push(a.last()));
        assert(b =~= b.drop_last().push(b.last()));
    } else {
        assert(a =~= b);
    }
}

/// A limb sequence whose limbs are all zero stands for zero, and only such a one.
pub proof fn lemma_val_zero(s: Seq<u64>)
    ensures
        limbs_val(s) == 0 <==> (forall|i: int| 0 <= i < s.len() ==> s[i] == 0),
    decreases s.len(),
{
    if s.len() > 0 {
        let n = (s.len() - 1) as nat;
        let d = s.drop_last();
        lemma_val_zero(d);
        lemma_pow64_step(n);
        let p = pow64(n);
        let l = s.last() as nat;
        assert(l * p == 0 <==> l == 0) by (nonlinear_arith)
            requires
                p > 0,
        ;
        if limbs_val(s) == 0 {
            assert forall|i: int| 0 <= i < s.len() implies s[i] == 0 by {
                if i < s.len() - 1 {
                    assert(d[i] == s[i]);
                }
            }
        }
        if forall|i: int| 0 <= i < s.len() ==> s[i] == 0 {
            assert forall|i: int| 0 <= i < d.len() implies d[i] == 0 by {
                assert(d[i] == s[i]);
            }
        }
    }
}

/// The sum of two numbers of `N` limbs, and the carry out of the top limb.
pub fn add_limbs<const N: usize>(a: &[u64; N], b: &[u64; N]) -> (r: ([u64; N], u64))
    ensures
        r.1 <= 1,
        limbs_val(r.0@) + (r.1 as nat) * pow64(N as nat) == limbs_val(a@) + limbs_val(b@),
{
    let mut out = [0u64; N];
    let mut carry: u64 = 0;
    let mut i: usize = 0;
    proof {
        lemma_val_take_all(a@);
        lemma_val_take_all(b@);
        lemma_val_take_all(out@);
        lemma_pow64_step(0);
    }
    while i < N
        invariant
            i <= N,
            carry <= 1,
            out@.len() == N,
            limbs_val(out@.take(i as int)) + (carry as nat) * pow64(i as nat) == limbs_val(
                a@.take(i as int),
            ) + limbs_val(b@.take(i as int)),
        decreases N - i,
    {
        let t: u128 = a[i] as u128 + b[i] as u128 + carry as u128;
        let lo: u64 = (t % 0x1_0000_0000_0000_0000) as u64;
        let hi: u64 = (t / 0x1_0000_0000_0000_0000) as u64;
        let ghost prev = out@;
        out[i] = lo;
        proof {
            assert(out@.take(i as int) =~= prev.take(i as int));
            lemma_val_take_step(out@, i as int);
            lemma_val_take_step(a@, i as int);
            lemma_val_take_step(b@, i as int);
            lemma_pow64_step(i as nat);
            let p = pow64(i as nat);
            assert((lo as nat) * p + (hi as nat) * pow64((i + 1) as nat) == (t as nat) * p)
                by (nonlinear_arith)
                requires
                    pow64((i + 1) as nat) == p * radix(),
                    t == lo + hi * radix(),
            ;
            assert((t as nat) * p == (a[i as int] as nat) * p + (b[i as int] as nat) * p + (
            carry as nat) * p) by (nonlinear_arith)
                requires
                    t == a[i as int] + b[i as int] + carry,
            ;
        }
        carry = hi;
        i = i + 1;
    }
    proof {
        lemma_val_take_all(a@);
        lemma_val_take_all(b@);
        lemma_val_take_all(out@);
    }
    (out, carry)
}

/// The difference of two numbers of `N` limbs, wrapped modulo 2^(64 N), and
/// the borrow out of the top limb.
pub fn sub_limbs<const N: usize>(a: &[u64; N], b: &[u64; N]) -> (r: ([u64; N], u64))
    ensures
        r.1 <= 1,
        limbs_val(r.0@) == limbs_val(a@) - limbs_val(b@) + (r.1 as nat) * pow64(N as nat),
        r.1 == 1 <==> limbs_val(a@) < limbs_val(b@),
{
    let mut out = [0u64; N];
    let mut borrow: u64 = 0;
    let mut i: usize = 0;
    proof {
        lemma_val_take_all(a@);
        lemma_val_take_all(b@);
        lemma_val_take_all(out@);
        lemma_pow64_step(0);
    }
    while i < N
        invariant
            i <= N,
            borrow <= 1,
            out@.len() == N,
            limbs_val(out@.take(i as int)) == limbs_val(a@.take(i as int)) - limbs_val(
                b@.take(i as int),
            ) + (borrow as nat) * pow64(i as nat),
        decreases N - i,
    {
        let t: u128 = a[i] as u128 + 0x1_0000_0000_0000_0000 - b[i] as u128 - borrow as u128;
        let lo: u64 = (t % 0x1_0000_0000_0000_0000) as u64;
        let nb: u64 = 1 - (t / 0x1_0000_0000_0000_0000) as u64;
        let ghost prev = out@;
        out[i] = lo;
        proof {
            assert(out@.take(i as int) =~= prev.take(i as int));
            lemma_val_take_step(out@, i as int);
            lemma_val_take_step(a@, i as int);
            lemma_val_take_step(b@, i as int);
            lemma_pow64_step(i as nat);
            let p = pow64(i as nat);
            assert((lo as int) * p == (a[i as int] as int) * p - (b[i as int] as int) * p - (
            borrow as int) * p + (nb as int) * pow64((i + 1) as nat)) by (nonlinear_arith)
                requires
                    pow64((i + 1) as nat) == p * radix(),
                    lo == a[i as int] - b[i as int] - borrow + nb * radix(),
            ;
        }
        borrow = nb;
        i = i + 1;
    }
    proof {
        lemma_val_take_all(a@);
        lemma_val_take_all(b@);
        lemma_val_take_all(out@);
        lemma_val_bound(out@);
        lemma_val_bound(a@);
        lemma_val_bound(b@);
        let big = pow64(N as nat);
        let va = limbs_val(a@) as int;
        let vb = limbs_val(b@) as int;
        let vo = limbs_val(out@) as int;
        assert(borrow == 1 <==> va < vb) by {
            assert(vo == va - vb + (borrow as int) * big);
            assert(0 <= vo < big);
            assert(0 <= va < big);
            assert(0 <= vb < big);
        }
    }
    (out, borrow)
}

/// A number of `N` limbs halved, rounding down.
pub fn shr1_limbs<const N: usize>(a: &[u64; N]) -> (r: [u64; N])
    requires
        N > 0,
    ensures
        limbs_val(r@) == limbs_val(a@) / 2,
{
    let mut out = [0u64; N];
    let mut i: usize = 0;
    proof {
        lemma_val_take_all(a@);
        lemma_val_take_all(out@);
        lemma_pow64_step(0);
    }
    while i < N
        invariant
            0 < N,
            i <= N,
            out@.len() == N,
            2 * limbs_val(out@.take(i as int)) + (a@[0] as nat) % 2 == limbs_val(a@.take(i as int))
                + (if i < N {
                (a@[i as int] as nat) % 2
            } else {
                0
            }) * pow64(i as nat),
        decreases N - i,
    {
        let x: u64 = a[i];
        let next: u64 = if i + 1 < N {
            a[i + 1]
        } else {
            0
        };
        let lo: u64 = (x >> 1u64) | ((next & 1u64) << 63u64);
        proof {
            assert(lo == x / 2 + (next % 2) * 0x8000_0000_0000_0000) by (bit_vector)
                requires
                    lo == (x >> 1u64) | ((next & 1u64) << 63u64),
            ;
        }
        let ghost prev = out@;
        out[i] = lo;
        proof {
            assert(out@.take(i as int) =~= prev.take(i as int));
            lemma_val_take_step(out@, i as int);
            lemma_val_take_step(a@, i as int);
            lemma_pow64_step(i as nat);
            assert(x == a@[i as int]);
            assert(i + 1 < N ==> next == a@[i + 1]);
            assert(i + 1 >= N ==> next == 0);
            let p = pow64(i as nat);
            assert(2 * (lo as int) * p + (x as int % 2) * p == (x as int) * p + (next as int % 2)
                * pow64((i + 1) as nat)) by (nonlinear_arith)
                requires
                    pow64((i + 1) as nat) == p * radix(),
                    lo == x / 2 + (next % 2) * 0x8000_0000_0000_0000,
                    radix() == 2 * 0x8000_0000_0000_0000,
            ;
            let nb: int = if i + 1 < N {
                (a@[i + 1] as int) % 2
            } else {
                0
            };
            assert(nb == next as int % 2);
            assert(out@[i as int] == lo);
            let vo1 = limbs_val(out@.take(i + 1));
            let vo0 = limbs_val(out@.take(i as int));
            assert(2 * vo1 == 2 * vo0 + 2 * (lo as int) * p) by (nonlinear_arith)
                requires
                    vo1 == vo0 + (lo as nat) * p,
            ;
            assert(limbs_val(a@.take(i + 1)) == limbs_val(a@.take(i as int)) + (x as int) * p);
            assert(2 * limbs_val(out@.take(i + 1)) + (a@[0] as nat) % 2 == limbs_val(
                a@.take(i + 1),
            ) + nb * pow64((i + 1) as nat));
        }
        i = i + 1;
    }
    proof {
        lemma_val_take_all(a@);
        lemma_val_take_all(out@);
        lemma_val_parity(a@);
    }
    out
}

/// Whether every limb is zero, that is whether the number is zero.
pub fn is_zero_limbs<const N: usize>(a: &[u64; N]) -> (r: bool)
    ensures
        r == (limbs_val(a@) == 0),
{
    let mut acc: u64 = 0;
    let mut i: usize = 0;
    while i < N
        invariant
            i <= N,
            a@.len() == N,
            (acc == 0) == (forall|j: int| 0 <= j < i ==> a@[j] == 0),
        decreases N - i,
    {
        let ghost before = acc;
        let y: u64 = a[i];
        acc = acc | y;
        proof {
            assert((acc == 0) == (before == 0 && y == 0)) by (bit_vector)
                requires
                    acc == before | y,
            ;
        }
        i = i + 1;
    }
    proof {
        lemma_val_zero(a@);
    }
    acc == 0
}

/// The number that a sequence of little-endian bytes stands for.
pub open spec fn bytes_val(s: Seq<u8>) -> nat
    decreases s.len(),
{
    if s.len() == 0 {
        0
    } else {
        bytes_val(s.drop_last()) + (s.last() as nat) * pow2((8 * (s.len() - 1)) as nat)
    }
}

pub proof fn lemma_pow64_values()
    ensures
        pow64(0) == 1,
        pow64(1) == 0x1_0000_0000_0000_0000,
        pow64(2) == 0x1_0000_0000_0000_0000_0000_0000_0000_0000,
        pow64(3) == 0x1_0000_0000_0000_0000_0000_0000_0000_0000_0000_0000_0000_0000,
        pow64(4)
            == 0x1_0000_0000_0000_0000_0000_0000_0000_0000_0000_0000_0000_0000_0000_0000_0000_0000,
        pow64(5)
            == 0x1_0000_0000_0000_0000_0000_0000_0000_0000_0000_0000_0000_0000_0000_0000_0000_0000_0000_0000_0000_0000,
        pow64(6)
            == 0x1_0000_0000_0000_0000_0000_0000_0000_0000_0000_0000_0000_0000_0000_0000_0000_0000_0000_0000_0000_0000_0000_0000_0000_0000,
{
    lemma_pow64_step(0);
    lemma_pow64_step(1);
    lemma_pow64_step(2);
    lemma_pow64_step(3);
    lemma_pow64_step(4);
    lemma_pow64_step(5);
}

/// The value of four limbs, written out.
pub proof fn lemma_val4(s: Seq<u64>)
    requires
        s.len() == 4,
    ensures
        limbs_val(s) == s[0] + s[1] * pow64(1) + s[2] * pow64(2) + s[3] * pow64(3),
{
    lemma_pow64_values();
    lemma_val_take_all(s);
    lemma_val_take_step(s, 0);
    lemma_val_take_step(s, 1);
    lemma_val_take_step(s, 2);
    lemma_val_take_step(s, 3);
}

/// The value of six limbs, written out.
pub proof fn lemma_val6(s: Seq<u64>)
    requires
        s.len() == 6,
    ensures
        limbs_val(s) == s[0] + s[1] * pow64(1) + s[2] * pow64(2) + s[3] * pow64(3) + s[4] * pow64(
            4,
        ) + s[5] * pow64(5),
{
    lemma_pow64_values();
    lemma_val_take_all(s);
    lemma_val_take_step(s, 0);
    lemma_val_take_step(s, 1);
    lemma_val_take_step(s, 2);
    lemma_val_take_step(s, 3);
    lemma_val_take_step(s, 4);
    lemma_val_take_step(s, 5);
}

proof fn lemma_bytes_take_step(s: Seq<u8>, k: int)
    requires
        0 <= k < s.len(),
    ensures
        bytes_val(s.take(k + 1)) == bytes_val(s.take(k)) + (s[k] as nat) * pow2((8 * k) as nat),
{
    assert(s.take(k + 1).drop_last() =~= s.take(k));
}

/// Eight bytes starting at `8 i` add one limb's worth to the value.
proof fn lemma_bytes_word_step(s: Seq<u8>, i: int)
    requires
        0 <= i,
        8 * i + 8 <= s.len(),
    ensures
        bytes_val(s.take(8 * i + 8)) == bytes_val(s.take(8 * i)) + (s[8 * i] + s[8 * i + 1] * 0x100
            + s[8 * i + 2] * 0x1_0000 + s[8 * i + 3] * 0x100_0000 + s[8 * i + 4] * 0x1_0000_0000
            + s[8 * i + 5] * 0x100_0000_0000 + s[8 * i + 6] * 0x1_0000_0000_0000 + s[8 * i + 7]
            * 0x100_0000_0000_0000) * pow64(i as nat),
{
    let k = 8 * i;
    lemma2_to64();
    lemma_pow2_adds(32, 8);
    lemma_pow2_adds(32, 16);
    lemma_pow2_adds(32, 24);
    let e = (64 * i) as nat;
    lemma_pow2_adds(e, 0);
    lemma_pow2_adds(e, 8);
    lemma_pow2_adds(e, 16);
    lemma_pow2_adds(e, 24);
    lemma_pow2_adds(e, 32);
    lemma_pow2_adds(e, 40);
    lemma_pow2_adds(e, 48);
    lemma_pow2_adds(e, 56);
    lemma_bytes_take_step(s, k);
    lemma_bytes_take_step(s, k + 1);
    lemma_bytes_take_step(s, k + 2);
    lemma_bytes_take_step(s, k + 3);
    lemma_bytes_take_step(s, k + 4);
    lemma_bytes_take_step(s, k + 5);
    lemma_bytes_take_step(s, k + 6);
    lemma_bytes_take_step(s, k + 7);
    let p = pow64(i as nat);
    assert(pow2((8 * (k + 0)) as nat) == p * pow2(0));
    assert(pow2((8 * (k + 1)) as nat) == p * pow2(8));
    assert(pow2((8 * (k + 2)) as nat) == p * pow2(16));
    assert(pow2((8 * (k + 3)) as nat) == p * pow2(24));
    assert(pow2((8 * (k + 4)) as nat) == p * pow2(32));
    assert(pow2((8 * (k + 5)) as nat) == p * pow2(40));
    assert(pow2((8 * (k + 6)) as nat) == p * pow2(48));
    assert(pow2((8 * (k + 7)) as nat) == p * pow2(56));
    lemma_acc_step(0, s[k] as int, 1, p as int, pow2((8 * k) as nat) as int);
    lemma_acc_step(s[k] as int, s[k + 1] as int, 0x100, p as int, pow2((8 * (k + 1)) as nat) as int);
    let a2 = s[k] + s[k + 1] * 0x100;
    lemma_acc_step(a2, s[k + 2] as int, 0x1_0000, p as int, pow2((8 * (k + 2)) as nat) as int);
    let a3 = a2 + s[k + 2] * 0x1_0000;
    lemma_acc_step(a3, s[k + 3] as int, 0x100_0000, p as int, pow2((8 * (k + 3)) as nat) as int);
    let a4 = a3 + s[k + 3] * 0x100_0000;
    lemma_acc_step(
        a4,
        s[k + 4] as int,
        0x1_0000_0000,
        p as int,
        pow2((8 * (k + 4)) as nat) as int,
    );
    let a5 = a4 + s[k + 4] * 0x1_0000_0000;
    lemma_acc_step(
        a5,
        s[k + 5] as int,
        0x100_0000_0000,
        p as int,
        pow2((8 * (k + 5)) as nat) as int,
    );
    let a6 = a5 + s[k + 5] * 0x100_0000_0000;
    lemma_acc_step(
        a6,
        s[k + 6] as int,
        0x1_0000_0000_0000,
        p as int,
        pow2((8 * (k + 6)) as nat) as int,
    );
    let a7 = a6 + s[k + 6] * 0x1_0000_0000_0000;
    lemma_acc_step(
        a7,
        s[k + 7] as int,
        0x100_0000_0000_0000,
        p as int,
        pow2((8 * (k + 7)) as nat) as int,
    );
}

proof fn lemma_acc_step(acc: int, b: int, c: int, p: int, q: int)
    requires
        q == p * c,
    ensures
        acc * p + b * q == (acc + b * c) * p,
{
    assert(acc * p + b * q == (acc + b * c) * p) by (nonlinear_arith)
        requires
            q == p * c,
    ;
}

/// Reads `M = 8 N` little-endian bytes as `N` limbs.
pub fn limbs_from_le_bytes<const N: usize, const M: usize>(b: &[u8; M]) -> (r: [u64; N])
    requires
        M == 8 * N,
    ensures
        limbs_val(r@) == bytes_val(b@),
{
    let mut out = [0u64; N];
    let mut i: usize = 0;
    proof {
        lemma_val_take_all(out@);
        assert(b@.take(0) =~= Seq::<u8>::empty());
        assert(bytes_val(b@.take(0)) == 0);
    }
    while i < N
        invariant
            M == 8 * N,
            i <= N,
            out@.len() == N,
            b@.len() == M,
            limbs_val(out@.take(i as int)) == bytes_val(b@.take(8 * i as int)),
        decreases N - i,
    {
        let k: usize = 8 * i;
        let w: u64 = b[k] as u64 + (b[k + 1] as u64) * 0x100 + (b[k + 2] as u64) * 0x1_0000 + (b[k
            + 3] as u64) * 0x100_0000 + (b[k + 4] as u64) * 0x1_0000_0000 + (b[k + 5] as u64)
            * 0x100_0000_0000 + (b[k + 6] as u64) * 0x1_0000_0000_0000 + (b[k + 7] as u64)
            * 0x100_0000_0000_0000;
        let ghost prev = out@;
        out[i] = w;
        proof {
            assert(out@.take(i as int) =~= prev.take(i as int));
            lemma_val_take_step(out@, i as int);
            lemma_bytes_word_step(b@, i as int);
            assert(8 * (i + 1) == 8 * i + 8);
        }
        i = i + 1;
    }
    proof {
        lemma_val_take_all(out@);
        assert(b@.take(8 * N as int) =~= b@);
    }
    out
}

/// Writes `N` limbs as `M = 8 N` little-endian bytes.
pub fn limbs_to_le_bytes<const N: usize, const M: usize>(a: &[u64; N]) -> (r: [u8; M])
    requires
        M == 8 * N,
    ensures
        bytes_val(r@) == limbs_val(a@),
{
    let mut out = [0u8; M];
    let mut i: usize = 0;
    proof {
        lemma_val_take_all(a@);
        assert(out@.take(0) =~= Seq::<u8>::empty());
        assert(bytes_val(out@.take(0)) == 0);
    }
    while i < N
        invariant
            M == 8 * N,
            i <= N,
            out@.len() == M,
            a@.len() == N,
            bytes_val(out@.take(8 * i as int)) == limbs_val(a@.take(i as int)),
        decreases N - i,
    {
        let k: usize = 8 * i;
        let w: u64 = a[i];
        let b0: u8 = (w % 0x100) as u8;
        let w1: u64 = w / 0x100;
        let b1: u8 = (w1 % 0x100) as u8;
        let w2: u64 = w1 / 0x100;
        let b2: u8 = (w2 % 0x100) as u8;
        let w3: u64 = w2 / 0x100;
        let b3: u8 = (w3 % 0x100) as u8;
        let w4: u64 = w3 / 0x100;
        let b4: u8 = (w4 % 0x100) as u8;
        let w5: u64 = w4 / 0x100;
        let b5: u8 = (w5 % 0x100) as u8;
        let w6: u64 = w5 / 0x100;
        let b6: u8 = (w6 % 0x100) as u8;
        let w7: u64 = w6 / 0x100;
        let b7: u8 = (w7 % 0x100) as u8;
        let ghost prev = out@;
        out[k] = b0;
        out[k + 1] = b1;
        out[k + 2] = b2;
        out[k + 3] = b3;
        out[k + 4] = b4;
        out[k + 5] = b5;
        out[k + 6] = b6;
        out[k + 7] = b7;
        proof {
            assert(w7 < 0x100);
            assert(w == b0 + b1 * 0x100 + b2 * 0x1_0000 + b3 * 0x100_0000 + b4 * 0x1_0000_0000 + b5
                * 0x100_0000_0000 + b6 * 0x1_0000_0000_0000 + b7 * 0x100_0000_0000_0000);
            assert(out@.take(k as int) =~= prev.take(k as int));
            lemma_val_take_step(a@, i as int);
            lemma_bytes_word_step(out@, i as int);
            assert(8 * (i + 1) == 8 * i + 8);
        }
        i = i + 1;
    }
    proof {
        lemma_val_take_all(a@);
        assert(out@.take(8 * N as int) =~= out@);
    }
    out
}

/// Relies on `zeroize::Zeroize` for `[u64; N]`, which writes `u64::default()`,
/// that is zero, into every element.
#[verifier::external_body]
pub(crate) fn zeroize_limbs<const N: usize>(l: &mut [u64; N])
    ensures
        forall|i: int| 0 <= i < N ==> final(l)@[i] == 0,
{
    zeroize::Zeroize::zeroize(l)
}

} // verus!
