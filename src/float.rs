//! IEEE-754 bit patterns of integers, for arrays of class `Single` and `Double`.
use vstd::prelude::*;
use vstd::arithmetic::power2::{
    lemma2_to64, lemma2_to64_rest, lemma_pow2_adds, lemma_pow2_pos, lemma_pow2_strictly_increases,
    lemma_pow2_unfold, pow2,
};

verus! {

pub open spec fn log2_floor(a: nat) -> nat
    decreases a,
{
    if a <= 1 {
        0
    } else {
        1 + log2_floor(a / 2)
    }
}

/// `a / 2^k` rounded to the nearest integer, ties to even.
pub open spec fn round_shift(a: nat, k: nat) -> nat {
    let q = a / pow2(k);
    let r = a % pow2(k);
    if k == 0 {
        q
    } else if r > pow2((k - 1) as nat) || (r == pow2((k - 1) as nat) && q % 2 == 1) {
        q + 1
    } else {
        q
    }
}

/// Bits of the binary float nearest to `v`, with `m` fraction bits, exponent bias `bias`
/// and the sign in bit `width - 1`.
pub open spec fn float_bits(v: int, m: nat, bias: nat, width: nat) -> nat {
    if v == 0 {
        0
    } else {
        let a = (if v < 0 { -v } else { v }) as nat;
        let e = log2_floor(a);
        let q = if e <= m {
            a * pow2((m - e) as nat)
        } else {
            round_shift(a, (e - m) as nat)
        };
        ((if v < 0 { pow2((width - 1) as nat) } else { 0 }) + (bias + e - 1) * pow2(m) + q) as nat
    }
}

/// Bits of the `f64` equal to `v`.
pub open spec fn f64_bits(v: int) -> nat {
    float_bits(v, 52, 1023, 64)
}

/// Bits of the `f32` nearest to `v`.
pub open spec fn f32_bits(v: int) -> nat {
    float_bits(v, 23, 127, 32)
}

proof fn lemma_log2_floor(a: nat, e: nat)
    requires
        pow2(e) <= a < pow2(e + 1),
    ensures
        log2_floor(a) == e,
    decreases e,
{
    lemma_pow2_unfold(e + 1);
    if e == 0 {
        lemma2_to64();
    } else {
        lemma_pow2_unfold(e);
        lemma_log2_floor(a / 2, (e - 1) as nat);
    }
}

fn pow2_of(k: u64) -> (r: u64)
    requires
        k < 64,
    ensures
        r == pow2(k as nat),
{
    proof {
        lemma2_to64();
    }
    let mut r: u64 = 1;
    let mut i: u64 = 0;
    while i < k
        invariant
            i <= k < 64,
            r == pow2(i as nat),
        decreases k - i,
    {
        proof {
            lemma_pow2_unfold((i + 1) as nat);
            lemma_pow2_strictly_increases((i + 1) as nat, 64);
            lemma2_to64_rest();
        }
        r = r * 2;
        i = i + 1;
    }
    r
}

fn float_bits_of(v: i64, m: u64, bias: u64, width: u64) -> (r: u64)
    requires
        -0x8000_0000 <= v <= 0x8000_0000,
        (m == 52 && bias == 1023 && width == 64) || (m == 23 && bias == 127 && width == 32),
    ensures
        r == float_bits(v as int, m as nat, bias as nat, width as nat),
        width == 32 ==> r < 0x1_0000_0000,
{
    if v == 0 {
        return 0;
    }
    proof {
        lemma2_to64();
        lemma2_to64_rest();
    }
    let a: u64 = if v < 0 { (-v) as u64 } else { v as u64 };
    let mut e: u64 = 0;
    let mut p: u64 = 1;
    while p <= a / 2
        invariant
            1 <= a <= 0x8000_0000,
            p == pow2(e as nat),
            1 <= p <= a,
            e <= 31,
        decreases a - p,
    {
        proof {
            lemma2_to64();
            lemma_pow2_unfold((e + 1) as nat);
            if e + 1 > 31 {
                lemma_pow2_strictly_increases(31, (e + 1) as nat);
            }
        }
        p = p * 2;
        e = e + 1;
    }
    proof {
        lemma_pow2_unfold((e + 1) as nat);
        lemma_log2_floor(a as nat, e as nat);
    }
    let q: u64 = if e <= m {
        let f = pow2_of(m - e);
        proof {
            lemma_pow2_adds((e + 1) as nat, (m - e) as nat);
            assert(a * f < pow2((e + 1) as nat) * f) by (nonlinear_arith)
                requires
                    a < pow2((e + 1) as nat),
                    f > 0,
            ;
            assert((e + 1) + (m - e) == m + 1);
        }
        a * f
    } else {
        let k = e - m;
        let d = pow2_of(k);
        let q0 = a / d;
        let r0 = a % d;
        let h = d / 2;
        proof {
            lemma_pow2_unfold(k as nat);
            lemma_pow2_pos(k as nat);
            lemma_pow2_adds((m + 1) as nat, k as nat);
            assert((m + 1) + k == e + 1);
            assert(q0 < pow2((m + 1) as nat)) by (nonlinear_arith)
                requires
                    a < pow2((m + 1) as nat) * d,
                    q0 == a / d,
                    d > 0,
            ;
        }
        if r0 > h || (r0 == h && q0 % 2 == 1) {
            q0 + 1
        } else {
            q0
        }
    };
    let sign: u64 = if v < 0 { pow2_of(width - 1) } else { 0 };
    let unit = pow2_of(m);
    proof {
        assert(q <= pow2((m + 1) as nat));
        assert((bias + e - 1) * unit <= (bias + 30) * unit) by (nonlinear_arith)
            requires
                e <= 31,
                bias >= 127,
        ;
    }
    sign + (bias + e - 1) * unit + q
}

/// Bits of the `f64` equal to `v`.
pub fn f64_bits_of(v: i64) -> (r: u64)
    requires
        -0x8000_0000 <= v <= 0x8000_0000,
    ensures
        r == f64_bits(v as int),
{
    float_bits_of(v, 52, 1023, 64)
}

/// Bits of the `f32` nearest to `v`.
pub fn f32_bits_of(v: i64) -> (r: u64)
    requires
        -0x8000_0000 <= v <= 0x8000_0000,
    ensures
        r == f32_bits(v as int),
        r < 0x1_0000_0000,
{
    float_bits_of(v, 23, 127, 32)
}

} // verus!
