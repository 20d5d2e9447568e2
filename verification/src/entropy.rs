//! The entropy engine: conversions between password length and entropy in
//! bits, given the size of the character pool.
//!
//! A password of `length` characters drawn uniformly from a pool of
//! `pool_size` distinct characters carries `length * log2(pool_size)` bits
//! of entropy.  `log2(pool_size)` is irrational for most pool sizes, so the
//! engine works in a fixed-point representation: entropy is measured in
//! units of `1 / 65536` bit (sixteen fractional bits).  Working in the
//! logarithmic domain keeps every intermediate value far below the integer
//! range limits, so no saturation is ever needed, and it makes the
//! round-trip between `calculate_entropy` and `calculate_length` exact.

use vstd::arithmetic::div_mod::lemma_fundamental_div_mod;
use vstd::arithmetic::div_mod::lemma_div_is_ordered;
use vstd::arithmetic::div_mod::lemma_div_multiples_vanish;
use vstd::arithmetic::div_mod::lemma_mod_bound;
use vstd::arithmetic::div_mod::lemma_mod_multiples_basic;
use vstd::arithmetic::mul::lemma_mul_inequality;
use vstd::arithmetic::div_mod::lemma_div_by_multiple;
use vstd::arithmetic::div_mod::lemma_div_of0;
use vstd::arithmetic::div_mod::lemma_small_mod;
use vstd::arithmetic::div_mod::lemma_div_is_ordered_by_denominator;
use vstd::arithmetic::div_mod::lemma_multiply_divide_lt;
use vstd::arithmetic::power2::lemma2_to64;
use vstd::arithmetic::power2::lemma2_to64_rest;
use vstd::arithmetic::power2::lemma_pow2_pos;
use vstd::arithmetic::power2::lemma_pow2_strictly_increases;
use vstd::arithmetic::power2::lemma_pow2_unfold;
use vstd::arithmetic::power2::pow2;
use vstd::prelude::*;

use crate::UpwdError;

verus! {

/// Integer part of the base-two logarithm of `p` (zero for `p < 2`).
pub open spec fn floor_log2_spec(p: nat) -> nat
    decreases p,
{
    if p < 2 {
        0
    } else {
        1 + floor_log2_spec(p / 2)
    }
}

/// The `j` fractional bits of the base-two logarithm of a mantissa `m`,
/// where `m` is a fixed-point value with thirty-two fractional bits in
/// the interval `[1, 2)` (that is, `2^32 <= m < 2^33`).  Each step squares
/// the mantissa: the square lands in `[2, 4)` exactly when the next bit of
/// the logarithm is one, and the mantissa is renormalized into `[1, 2)`.
pub open spec fn frac_bits_spec(m: nat, j: nat) -> nat
    decreases j,
{
    if j == 0 {
        0
    } else {
        let m2 = (m * m) / 0x1_0000_0000;
        if m2 >= 0x2_0000_0000 {
            pow2((j - 1) as nat) + frac_bits_spec(m2 / 2, (j - 1) as nat)
        } else {
            frac_bits_spec(m2, (j - 1) as nat)
        }
    }
}

/// The base-two logarithm of `p`, in units of `1 / 65536` bit: the integer
/// part from `floor_log2_spec`, and sixteen fractional bits read off the
/// normalized mantissa `p / 2^floor_log2(p)`.
pub open spec fn log2_fixed_spec(p: nat) -> nat {
    let k = floor_log2_spec(p);
    let m = (p * 0x1_0000_0000) / pow2(k);
    k * 65536 + frac_bits_spec(m, 16)
}

/// Entropy, in units of `1 / 65536` bit, of a password of `length`
/// characters drawn uniformly from a pool of `pool_size` characters.
pub open spec fn entropy_fixed(length: nat, pool_size: nat) -> nat {
    length * log2_fixed_spec(pool_size)
}

/// Division rounding up: the least `n` with `n * b >= a`.
pub open spec fn ceil_div(a: nat, b: nat) -> nat
    recommends
        b > 0,
{
    if a % b == 0 {
        a / b
    } else {
        a / b + 1
    }
}

/// `floor_log2_spec` deserves its name: `p` lies between the consecutive
/// powers of two at `floor_log2_spec(p)` and `floor_log2_spec(p) + 1`.
proof fn lemma_floor_log2_char(p: nat)
    requires
        1 <= p,
    ensures
        pow2(floor_log2_spec(p)) <= p < pow2(floor_log2_spec(p) + 1),
    decreases p,
{
    if p < 2 {
        lemma2_to64();
    } else {
        lemma_floor_log2_char(p / 2);
        let f = floor_log2_spec(p / 2);
        lemma_pow2_unfold(f + 1);
        lemma_pow2_unfold(f + 2);
        assert(p == 2 * (p / 2) + p % 2) by {
            lemma_fundamental_div_mod(p as int, 2);
        }
        assert(pow2(f + 1) == 2 * pow2(f) <= 2 * (p / 2) <= p);
        assert(p < 2 * (p / 2) + 2 <= 2 * pow2(f + 1) == pow2(f + 2));
    }
}

/// A bound on the argument bounds the integer part of the logarithm.
proof fn lemma_floor_log2_bound(p: nat, n: nat)
    requires
        1 <= p < pow2(n),
    ensures
        floor_log2_spec(p) < n,
{
    lemma_floor_log2_char(p);
    if floor_log2_spec(p) >= n {
        if floor_log2_spec(p) > n {
            lemma_pow2_strictly_increases(n, floor_log2_spec(p));
        }
        assert(pow2(n) <= p);
    }
}

/// The fractional bits always amount to less than one whole unit of the
/// integer part: `j` bits stay below `2^j`.
proof fn lemma_frac_bits_bound(m: nat, j: nat)
    ensures
        0 <= frac_bits_spec(m, j) < pow2(j),
    decreases j,
{
    lemma_pow2_pos(j);
    if j != 0 {
        let m2 = (m * m) / 0x1_0000_0000;
        lemma_pow2_unfold(j);
        if m2 >= 0x2_0000_0000 {
            lemma_frac_bits_bound(m2 / 2, (j - 1) as nat);
        } else {
            lemma_frac_bits_bound(m2, (j - 1) as nat);
        }
    }
}

/// A mantissa of exactly one has no fractional bits.
proof fn lemma_frac_bits_of_one(j: nat)
    ensures
        frac_bits_spec(0x1_0000_0000, j) == 0,
    decreases j,
{
    if j != 0 {
        assert((0x1_0000_0000 * 0x1_0000_0000) / 0x1_0000_0000 == 0x1_0000_0000nat);
        lemma_frac_bits_of_one((j - 1) as nat);
    }
}

/// A pool with a single character admits a single password of each length:
/// the logarithm, and with it the entropy, is zero.
proof fn lemma_log2_fixed_of_one()
    ensures
        log2_fixed_spec(1) == 0,
{
    assert(floor_log2_spec(1) == 0);
    assert(pow2(0) == 1) by {
        lemma2_to64();
    }
    assert((1nat * 0x1_0000_0000) / pow2(0) == 0x1_0000_0000nat);
    lemma_frac_bits_of_one(16);
}

/// On an exact power of two the fixed-point logarithm is exact: all
/// fractional bits are zero.
proof fn lemma_floor_log2_pow2(k: nat)
    ensures
        floor_log2_spec(pow2(k)) == k,
    decreases k,
{
    if k == 0 {
        lemma2_to64();
    } else {
        lemma_pow2_unfold(k);
        lemma_pow2_pos((k - 1) as nat);
        lemma_floor_log2_pow2((k - 1) as nat);
        assert(pow2(k) / 2 == pow2((k - 1) as nat));
        assert(pow2(k) >= 2);
    }
}

/// `log2_fixed_spec(2^k) == k` whole bits, exactly.
pub proof fn lemma_log2_fixed_pow2(k: nat)
    ensures
        log2_fixed_spec(pow2(k)) == k * 65536,
{
    lemma_floor_log2_pow2(k);
    lemma_pow2_pos(k);
    assert((pow2(k) * 0x1_0000_0000) / pow2(k) == 0x1_0000_0000nat) by {
        lemma_div_multiples_vanish(0x1_0000_0000, pow2(k) as int);
    }
    lemma_frac_bits_of_one(16);
}

/// The fixed-point logarithm lies within one unit of `65536` times its
/// integer part.
proof fn lemma_log2_fixed_bounds(p: nat)
    requires
        1 <= p,
    ensures
        floor_log2_spec(p) * 65536 <= log2_fixed_spec(p) < (floor_log2_spec(p) + 1) * 65536,
{
    let k = floor_log2_spec(p);
    let m = (p * 0x1_0000_0000) / pow2(k);
    let f = frac_bits_spec(m, 16);
    lemma_frac_bits_bound(m, 16);
    lemma2_to64();
    assert(0 <= f < 65536);
    assert(log2_fixed_spec(p) == k * 65536 + f);
    assert(k * 65536 + f < (k + 1) * 65536) by (nonlinear_arith)
        requires
            0 <= f < 65536,
    ;
}

/// Pools of two or more characters have at least one whole bit per
/// character: the fixed-point logarithm is at least `65536`.
proof fn lemma_log2_fixed_pos(p: nat)
    requires
        2 <= p,
    ensures
        log2_fixed_spec(p) >= 65536,
{
    assert(floor_log2_spec(p) >= 1);
    lemma_log2_fixed_bounds(p);
    assert(floor_log2_spec(p) * 65536 >= 1 * 65536) by (nonlinear_arith)
        requires
            floor_log2_spec(p) >= 1,
    ;
}

/// `2^k` as a machine word.
fn pow2_u64(k: u64) -> (r: u64)
    requires
        k <= 63,
    ensures
        r == pow2(k as nat),
{
    let mut r: u64 = 1;
    let mut i: u64 = 0;
    proof {
        lemma2_to64();
        lemma2_to64_rest();
    }
    while i < k
        invariant
            i <= k <= 63,
            r == pow2(i as nat),
            pow2(63) == 0x8000_0000_0000_0000,
        decreases k - i,
    {
        proof {
            lemma_pow2_unfold(i as nat + 1);
            if i + 1 < 63 {
                lemma_pow2_strictly_increases(i as nat + 1, 63);
            }
        }
        r = r * 2;
        i = i + 1;
    }
    r
}

/// Position of the highest set bit of `p`.
fn floor_log2(p: u64) -> (k: u64)
    requires
        1 <= p,
    ensures
        k == floor_log2_spec(p as nat),
        k <= 63,
{
    proof {
        lemma2_to64();
        lemma2_to64_rest();
        lemma_floor_log2_bound(p as nat, 64);
    }
    let mut x: u64 = p;
    let mut k: u64 = 0;
    while x >= 2
        invariant
            1 <= x <= p,
            floor_log2_spec(p as nat) == k + floor_log2_spec(x as nat),
            k <= floor_log2_spec(p as nat) <= 63,
        decreases x,
    {
        x = x / 2;
        k = k + 1;
    }
    k
}

/// The base-two logarithm of `p` in units of `1 / 65536` bit, computed by
/// bit-by-bit mantissa squaring.
fn log2_fixed(p: u64) -> (r: u64)
    requires
        1 <= p,
    ensures
        r == log2_fixed_spec(p as nat),
{
    let k = floor_log2(p);
    let d = pow2_u64(k);
    proof {
        lemma2_to64();
        lemma_floor_log2_char(p as nat);
        lemma_pow2_pos(k as nat);
        lemma_pow2_unfold(k as nat + 1);
        let pk = pow2(k as nat) as int;
        // 2^k <= p < 2^(k+1) squeezes the normalized mantissa into [1, 2).
        assert(pk * 0x1_0000_0000 <= p as int * 0x1_0000_0000) by (nonlinear_arith)
            requires
                0 < pk <= p as int,
        ;
        lemma_div_is_ordered(pk * 0x1_0000_0000, p as int * 0x1_0000_0000, pk);
        lemma_div_multiples_vanish(0x1_0000_0000, pk);
        assert(p as int * 0x1_0000_0000 < pk * 0x2_0000_0000) by (nonlinear_arith)
            requires
                0 < pk,
                (p as int) < 2 * pk,
        ;
        lemma_multiply_divide_lt(p as int * 0x1_0000_0000, pk, 0x2_0000_0000);
    }
    let mut m: u128 = ((p as u128) * 0x1_0000_0000) / (d as u128);
    let ghost m0 = m as nat;
    let mut frac: u64 = 0;
    let mut i: u64 = 0;
    while i < 16
        invariant
            i <= 16,
            0x1_0000_0000 <= m < 0x2_0000_0000,
            frac < pow2(i as nat),
            frac_bits_spec(m0, 16) == frac * pow2((16 - i) as nat) + frac_bits_spec(
                m as nat,
                (16 - i) as nat,
            ),
        decreases 16 - i,
    {
        let ghost frac_old = frac as int;
        let ghost m_old = m as nat;
        let ghost n = (15 - i) as nat;
        proof {
            // The square of a mantissa in [1, 2) stays within the word and
            // lands in [1, 4).
            assert(0x1_0000_0000 * 0x1_0000_0000 <= (m as int) * (m as int)
                < 0x4_0000_0000_0000_0000) by (nonlinear_arith)
                requires
                    0x1_0000_0000 <= (m as int) < 0x2_0000_0000,
            ;
            lemma_div_is_ordered(
                0x1_0000_0000int * 0x1_0000_0000,
                (m as int) * (m as int),
                0x1_0000_0000,
            );
            lemma_div_is_ordered(
                (m as int) * (m as int),
                0x4_0000_0000_0000_0000 - 1,
                0x1_0000_0000,
            );
            lemma2_to64();
            if (i as nat) < 15 {
                lemma_pow2_strictly_increases(i as nat, 15);
            }
        }
        let m2: u128 = (m * m) / 0x1_0000_0000;
        if m2 >= 0x2_0000_0000 {
            frac = frac * 2 + 1;
            m = m2 / 2;
        } else {
            frac = frac * 2;
            m = m2;
        }
        i = i + 1;
        proof {
            lemma_pow2_unfold(n + 1);
            lemma_pow2_pos(n);
            let m2s = (m_old * m_old) / 0x1_0000_0000;
            assert(m2s == m2 as nat);
            if m2s >= 0x2_0000_0000 {
                assert(frac_bits_spec(m_old, n + 1) == pow2(n) + frac_bits_spec(m as nat, n));
                assert((2 * frac_old + 1) * pow2(n) == frac_old * (2 * pow2(n)) + pow2(n))
                    by (nonlinear_arith);
            } else {
                assert(frac_bits_spec(m_old, n + 1) == frac_bits_spec(m as nat, n));
                assert((2 * frac_old) * pow2(n) == frac_old * (2 * pow2(n))) by (nonlinear_arith);
            }
            assert(frac_old * pow2(n + 1) + frac_bits_spec(m_old, n + 1) == frac as int * pow2(n)
                + frac_bits_spec(m as nat, n));
            lemma_pow2_unfold(i as nat);
        }
    }
    proof {
        assert(pow2(0) == 1 && pow2(16) == 65536) by {
            lemma2_to64();
        }
        assert(frac_bits_spec(m0, 16) == frac * 1 + 0);
    }
    k * 65536 + frac
}

/// Entropy, in units of `1 / 65536` bit, of a password of `length`
/// characters drawn uniformly from a pool of `pool_size` distinct
/// characters.
///
/// A pool of size zero admits no password at all, so no entropy can be
/// attributed to one: the call is rejected.  A pool of size one admits a
/// single password of each length, so the entropy is zero.  Working in the
/// logarithmic domain, the result is bounded by `2^86`, far inside the
/// returned word: no saturation is ever needed.
pub fn calculate_entropy(length: usize, pool_size: usize) -> (r: Result<u128, UpwdError>)
    ensures
        pool_size == 0 <==> r is Err,
        r is Err ==> r->Err_0 == UpwdError::EmptyPool,
        r is Ok ==> r->Ok_0 == entropy_fixed(length as nat, pool_size as nat),
        pool_size >= 1 && length == 0 ==> r == Result::<u128, UpwdError>::Ok(0),
        pool_size == 1 ==> r == Result::<u128, UpwdError>::Ok(0),
{
    if pool_size == 0 {
        return Err(UpwdError::EmptyPool);
    }
    let lg = log2_fixed(pool_size as u64);
    proof {
        lemma2_to64();
        lemma2_to64_rest();
        lemma_floor_log2_bound(pool_size as nat, 64);
        lemma_log2_fixed_bounds(pool_size as nat);
        assert(floor_log2_spec(pool_size as nat) * 65536 + 65536 <= 64 * 65536)
            by (nonlinear_arith)
            requires
                floor_log2_spec(pool_size as nat) < 64,
        ;
        assert((length as int) * (lg as int) < 0x1_0000_0000_0000_0000 * 0x40_0000)
            by (nonlinear_arith)
            requires
                (length as int) < 0x1_0000_0000_0000_0000,
                0 <= (lg as int) <= 0x40_0000,
        ;
        if pool_size == 1 {
            lemma_log2_fixed_of_one();
        }
    }
    Ok((length as u128) * (lg as u128))
}

/// The least password length whose entropy, over a pool of `pool_size`
/// distinct characters, reaches `entropy` (given in units of `1 / 65536`
/// bit): the quotient `entropy / log2(pool_size)` rounded up.
///
/// With a pool of size zero or one the entropy per character is zero and
/// no length can reach a positive target: the call is rejected rather
/// than coerced to an arbitrary length.
pub fn calculate_length(entropy: u128, pool_size: usize) -> (r: Result<u128, UpwdError>)
    ensures
        pool_size <= 1 <==> r is Err,
        r is Err ==> r->Err_0 == UpwdError::DegeneratePoolSize,
        r is Ok ==> r->Ok_0 == ceil_div(entropy as nat, log2_fixed_spec(pool_size as nat)),
        pool_size >= 2 && entropy == 0 ==> r == Result::<u128, UpwdError>::Ok(0),
{
    if pool_size <= 1 {
        return Err(UpwdError::DegeneratePoolSize);
    }
    proof {
        lemma_log2_fixed_pos(pool_size as nat);
    }
    let lg = log2_fixed(pool_size as u64) as u128;
    proof {
        if entropy == 0 {
            lemma_div_of0(lg as int);
            lemma_small_mod(0, lg as nat);
        }
    }
    let q = entropy / lg;
    if entropy % lg == 0 {
        Ok(q)
    } else {
        proof {
            lemma_div_is_ordered_by_denominator(entropy as int, 2, lg as int);
        }
        Ok(q + 1)
    }
}

/// Round-trip law: converting a length to entropy and that entropy back
/// to a length returns exactly the starting length, for every pool of at
/// least two characters.  In the fixed-point representation the round
/// trip is exact, not merely approximate.
pub proof fn lemma_entropy_length_round_trip(length: nat, pool_size: nat)
    requires
        2 <= pool_size,
    ensures
        ceil_div(entropy_fixed(length, pool_size), log2_fixed_spec(pool_size)) == length,
{
    let b = log2_fixed_spec(pool_size);
    lemma_log2_fixed_pos(pool_size);
    lemma_mod_multiples_basic(length as int, b as int);
    lemma_div_by_multiple(length as int, b as int);
}

/// The rounded-up length delivers the requested entropy, and is the least
/// length that does: one character fewer would fall short.  This is why
/// the caller must round up, never down.
pub proof fn lemma_length_is_least_sufficient(e: nat, pool_size: nat)
    requires
        2 <= pool_size,
    ensures
        entropy_fixed(ceil_div(e, log2_fixed_spec(pool_size)), pool_size) >= e,
        forall|n: nat|
            n < ceil_div(e, log2_fixed_spec(pool_size)) ==> entropy_fixed(n, pool_size) < e,
{
    let b = log2_fixed_spec(pool_size);
    let c = ceil_div(e, b);
    let q = e / b;
    let rem = e % b;
    lemma_log2_fixed_pos(pool_size);
    lemma_fundamental_div_mod(e as int, b as int);
    lemma_mod_bound(e as int, b as int);
    if rem == 0 {
        assert(c * b >= e) by (nonlinear_arith)
            requires
                c == q && e == b * q,
        ;
    } else {
        assert(c * b >= e) by (nonlinear_arith)
            requires
                c == q + 1 && e == b * q + rem && rem < b,
        ;
    }
    assert forall|n: nat| n < c implies entropy_fixed(n, pool_size) < e by {
        lemma_mul_inequality(n as int, c as int - 1, b as int);
        if rem == 0 {
            assert((c - 1) * b < e) by (nonlinear_arith)
                requires
                    c == q && e == b * q && b >= 1 && c >= 1,
            ;
        } else {
            assert((c - 1) * b < e) by (nonlinear_arith)
                requires
                    c == q + 1 && e == b * q + rem && rem >= 1,
            ;
        }
    }
}

/// Monotonicity law: for a fixed pool size, a longer password never
/// carries less entropy.
pub proof fn lemma_entropy_monotone_in_length(l1: nat, l2: nat, pool_size: nat)
    requires
        l1 <= l2,
    ensures
        entropy_fixed(l1, pool_size) <= entropy_fixed(l2, pool_size),
{
    lemma_mul_inequality(l1 as int, l2 as int, log2_fixed_spec(pool_size) as int);
}

} // verus!
