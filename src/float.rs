use vstd::prelude::*;

use vstd::arithmetic::power2::{pow2, lemma_pow2_unfold, lemma_pow2_adds, lemma_pow2_pos, lemma2_to64, lemma2_to64_rest};

verus! {

/// The position of the highest set bit of a positive number.
pub open spec fn exponent_of(a: nat) -> nat
    decreases a,
{
    if a <= 1 {
        0
    } else {
        1 + exponent_of(a / 2)
    }
}

/// IEEE-754 double bits of the positive number `a` (below 2^53), scaled by
/// `2^scale` and with the sign bit `sign`: the biased exponent, then the
/// bits under the leading one.
pub open spec fn normal_bits(sign: nat, a: nat, scale: int) -> int {
    let e = exponent_of(a);
    sign * pow2(63) + (1023 + e + scale) * pow2(52) + (a - pow2(e)) * pow2((52 - e) as nat)
}

/// The bit pattern of the double equal to the integer `v`, for `|v| < 2^53`.
pub open spec fn double_bits_of_int(v: int) -> int {
    if v == 0 {
        0
    } else if v < 0 {
        normal_bits(1, (-v) as nat, 0)
    } else {
        normal_bits(0, v as nat, 0)
    }
}

/// The bit pattern of the double equal to the single-precision float of
/// bit pattern `f`: sign and fraction kept, the exponent rebiased, and a
/// subnormal float normalized.
pub open spec fn double_bits_of_float(f: u32) -> int {
    let sign = (f / 0x8000_0000) as nat;
    let ex = (f / 0x80_0000) % 0x100;
    let m = (f % 0x80_0000) as nat;
    if ex == 0xff {
        (sign * pow2(63) + 2047 * pow2(52) + m * pow2(29)) as int
    } else if ex != 0 {
        sign * pow2(63) + (ex + 896) * pow2(52) + m * pow2(29)
    } else if m == 0 {
        (sign * pow2(63)) as int
    } else {
        normal_bits(sign, m, -149)
    }
}

proof fn lemma_exponent_bounds(a: nat)
    requires
        a >= 1,
    ensures
        pow2(exponent_of(a)) <= a < 2 * pow2(exponent_of(a)),
    decreases a,
{
    if a <= 1 {
        lemma_pow2_unfold(1);
        lemma2_to64();
    } else {
        lemma_exponent_bounds(a / 2);
        lemma_pow2_unfold(exponent_of(a));
    }
}

pub(crate) fn pow2_exec(e: u32) -> (r: u64)
    requires
        e < 64,
    ensures
        r as int == pow2(e as nat),
{
    let mut r: u64 = 1;
    let mut i: u32 = 0;
    proof {
        lemma2_to64();
    }
    while i < e
        invariant
            i <= e < 64,
            r as int == pow2(i as nat),
        decreases e - i,
    {
        proof {
            lemma_pow2_unfold((i + 1) as nat);
            vstd::arithmetic::power2::lemma_pow2_strictly_increases((i + 1) as nat, 64);
            lemma2_to64();
        }
        r = r * 2;
        i = i + 1;
    }
    r
}

/// Double bits of `sign`, `a` and `scale` as `normal_bits` gives them.
fn normal_bits_exec(sign: u64, a: u64, scale: i32) -> (r: u64)
    requires
        sign <= 1,
        1 <= a < 0x100_0000,
        -149 <= scale <= 0,
        1023 + scale >= 1,
    ensures
        r as int == normal_bits(sign as nat, a as nat, scale as int),
{
    let mut t = a;
    let mut e: u32 = 0;
    proof {
        lemma2_to64();
    }
    while t > 1
        invariant
            1 <= t <= a < 0x100_0000,
            exponent_of(a as nat) == e + exponent_of(t as nat),
            e <= 24,
            t * pow2(e as nat) <= a,
        decreases t,
    {
        proof {
            lemma_pow2_unfold((e + 1) as nat);
            assert((t / 2) * pow2((e + 1) as nat) == (t / 2) * 2 * pow2(e as nat)) by (nonlinear_arith)
                requires pow2((e + 1) as nat) == 2 * pow2(e as nat);
            assert((t / 2) * 2 <= t);
            assert((t / 2) * 2 * pow2(e as nat) <= t * pow2(e as nat)) by (nonlinear_arith)
                requires (t / 2) * 2 <= t;
            lemma_pow2_pos(e as nat);
            if e + 1 > 24 {
                vstd::arithmetic::power2::lemma_pow2_strictly_increases(24, (e + 1) as nat);
                lemma2_to64();
                assert((t / 2) * pow2((e + 1) as nat) >= pow2((e + 1) as nat)) by (nonlinear_arith)
                    requires t / 2 >= 1;
            }
        }
        t = t / 2;
        e = e + 1;
    }
    proof {
        assert(exponent_of(1) == 0);
        lemma_exponent_bounds(a as nat);
        lemma_pow2_pos((52 - e) as nat);
    }
    let p = pow2_exec(e);
    let q = pow2_exec(52 - e);
    proof {
        lemma_pow2_adds(e as nat, (52 - e) as nat);
        assert((a - p) * q < p * q) by (nonlinear_arith)
            requires a - p < p, q > 0;
        lemma_pow2_pos((52 - e) as nat);
        lemma2_to64();
        lemma2_to64_rest();
    }
    let biased = (1023 + scale + e as i32) as u64;
    assert(biased < 2048);
    sign * 0x8000_0000_0000_0000 + biased * 0x10_0000_0000_0000 + (a - p) * q
}

/// The bit pattern of the double equal to a small integer.
pub fn f64_bits_of_int(v: i32) -> (r: u64)
    requires
        -0x8000 <= v < 0x8000,
    ensures
        r as int == double_bits_of_int(v as int),
{
    if v == 0 {
        0
    } else if v < 0 {
        normal_bits_exec(1, (-v) as u64, 0)
    } else {
        normal_bits_exec(0, v as u64, 0)
    }
}

/// The bit pattern of the double equal to the single-precision float of
/// bit pattern `f`.
pub fn f64_bits_of_f32(f: u32) -> (r: u64)
    ensures
        r as int == double_bits_of_float(f),
{
    let sign = (f / 0x8000_0000) as u64;
    let ex = (f / 0x80_0000) % 0x100;
    let m = (f % 0x80_0000) as u64;
    proof {
        lemma2_to64();
        lemma2_to64_rest();
    }
    if ex == 0xff {
        sign * 0x8000_0000_0000_0000 + 2047 * 0x10_0000_0000_0000 + m * 0x2000_0000
    } else if ex != 0 {
        sign * 0x8000_0000_0000_0000 + (ex as u64 + 896) * 0x10_0000_0000_0000 + m * 0x2000_0000
    } else if m == 0 {
        sign * 0x8000_0000_0000_0000
    } else {
        normal_bits_exec(sign, m, -149)
    }
}

} // verus!
