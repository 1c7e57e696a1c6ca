//! The single-precision bit pattern of a whole number, as a cast to `f32` produces it.
use vstd::prelude::*;
use vstd::arithmetic::power2::pow2;
use vstd::arithmetic::power2::lemma_pow2_pos;
use vstd::arithmetic::power2::lemma_pow2_unfold;
use vstd::arithmetic::power2::lemma_pow2_adds;
use vstd::arithmetic::power2::lemma_pow2_subtracts;
use vstd::arithmetic::power2::lemma_pow2_strictly_increases;
use vstd::arithmetic::power2::lemma2_to64;
use vstd::arithmetic::div_mod::lemma_div_is_ordered;
use vstd::arithmetic::div_mod::lemma_multiply_divide_lt;
use vstd::arithmetic::div_mod::lemma_fundamental_div_mod;
use vstd::arithmetic::mul::lemma_mul_strict_inequality;
use vstd::arithmetic::mul::lemma_mul_inequality;

verus! {

/// The position of the highest set bit of `n`: `2^k <= n < 2^(k+1)` for `n >= 1`.
pub open spec fn floor_log2(n: nat) -> nat
    decreases n,
{
    if n < 2 { 0 } else { 1 + floor_log2(n / 2) }
}

/// The bit pattern of a normal single-precision number with exponent `e` and 24-bit
/// significand `m` (its leading bit included): sign 0, biased exponent `127 + e`, and the
/// 23 bits of `m` below its leading one.
pub open spec fn normal_bits(e: nat, m: nat) -> int {
    (127 + e) * pow2(23) + (m - pow2(23))
}

/// The bit pattern of the single-precision number nearest to `n`, ties going to the even
/// significand, as `n as f32` gives it. Up to `2^24` the conversion is exact.
pub open spec fn f32_bits_of(n: nat) -> int {
    if n == 0 {
        0
    } else {
        let k = floor_log2(n);
        if k <= 23 {
            normal_bits(k, n * pow2((23 - k) as nat))
        } else {
            let d = pow2((k - 23) as nat);
            let q = n / d;
            let r = n % d;
            let up = r * 2 > d || (r * 2 == d && q % 2 == 1);
            let q2 = if up { q + 1 } else { q };
            if q2 == pow2(24) { normal_bits(k + 1, pow2(23)) } else { normal_bits(k, q2) }
        }
    }
}

proof fn lemma_floor_log2(n: nat)
    requires
        n >= 1,
    ensures
        pow2(floor_log2(n)) <= n < pow2(floor_log2(n) + 1),
    decreases n,
{
    let f = floor_log2(n);
    lemma_pow2_unfold(f + 1);
    if n >= 2 {
        lemma_floor_log2(n / 2);
        lemma_pow2_unfold(f);
        lemma_pow2_unfold(floor_log2(n / 2) + 1);
    } else {
        lemma2_to64();
    }
}

proof fn lemma_log2_unique(n: nat, k: nat)
    requires
        n >= 1,
        pow2(k) <= n < pow2(k + 1),
    ensures
        floor_log2(n) == k,
{
    lemma_floor_log2(n);
    let f = floor_log2(n);
    if k < f {
        if k + 1 < f { lemma_pow2_strictly_increases(k + 1, f); }
    } else if f < k {
        if f + 1 < k { lemma_pow2_strictly_increases(f + 1, k); }
    }
}

/// `2^e` as a 64-bit number.
fn pow2_u64(e: u64) -> (p: u64)
    requires
        e < 64,
    ensures
        p == pow2(e as nat),
{
    let mut p: u64 = 1;
    let mut i: u64 = 0;
    proof { lemma2_to64(); }
    while i < e
        invariant
            i <= e < 64,
            p == pow2(i as nat),
        decreases e - i,
    {
        proof {
            lemma_pow2_unfold((i + 1) as nat);
            if i + 1 < 64 { lemma_pow2_strictly_increases((i + 1) as nat, 64); }
            lemma2_to64();
        }
        p = p * 2;
        i += 1;
    }
    p
}

/// The bit pattern of `n` converted to single precision.
pub fn count_to_f32_bits(n: u64) -> (b: u32)
    ensures
        b == f32_bits_of(n as nat),
{
    if n == 0 {
        return 0;
    }
    let mut k: u64 = 0;
    let mut p: u64 = 1;
    proof { lemma2_to64(); }
    while p <= n / 2
        invariant
            1 <= p <= n,
            p == pow2(k as nat),
            k < 64,
        decreases n - p,
    {
        proof {
            lemma_pow2_unfold((k + 1) as nat);
            lemma2_to64();
            if k + 1 >= 64 {
                if k + 1 > 64 { lemma_pow2_strictly_increases(64, (k + 1) as nat); }
            }
        }
        p = p * 2;
        k += 1;
    }
    proof {
        lemma_pow2_unfold((k + 1) as nat);
        lemma_log2_unique(n as nat, k as nat);
        lemma_pow2_pos(23);
        lemma2_to64();
    }
    if k <= 23 {
        let f = pow2_u64(23 - k);
        proof {
            lemma_pow2_adds((k + 1) as nat, (23 - k) as nat);
            lemma_pow2_adds(k as nat, (23 - k) as nat);
            lemma_mul_strict_inequality(n as int, pow2((k + 1) as nat) as int, f as int);
            lemma_mul_inequality(pow2(k as nat) as int, n as int, f as int);
            lemma_pow2_unfold(24);
        }
        let m = n * f;
        let bits = (127 + k) * 8388608 + (m - 8388608);
        proof {
            assert(pow2(23) == 8388608);
        }
        bits as u32
    } else {
        let d = pow2_u64(k - 23);
        proof {
            lemma_pow2_pos((k - 23) as nat);
            lemma_pow2_subtracts((k - 23) as nat, k as nat);
            lemma_div_is_ordered(pow2(k as nat) as int, n as int, d as int);
            lemma_pow2_adds((k - 23) as nat, 24);
            lemma_multiply_divide_lt(n as int, d as int, pow2(24) as int);
            lemma_fundamental_div_mod(n as int, d as int);
        }
        let q = n / d;
        let r = n % d;
        let up = r * 2 > d || (r * 2 == d && q % 2 == 1);
        let q2 = if up { q + 1 } else { q };
        if q2 == 16777216 {
            let bits = (127 + k + 1) * 8388608;
            bits as u32
        } else {
            let bits = (127 + k) * 8388608 + (q2 - 8388608);
            bits as u32
        }
    }
}

} // verus!
