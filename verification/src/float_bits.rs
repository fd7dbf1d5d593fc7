//! Exact construction of IEEE-754 binary64 bit patterns in integer
//! arithmetic: widening a binary32 pattern to binary64 and converting a
//! 32-bit integer to the pattern of its (exactly representable) value.
//! The store carries doubles as bit patterns, so the ingest path needs
//! these to turn decoded floats and integers into double samples.

use vstd::arithmetic::power2::{lemma2_to64, lemma2_to64_rest, lemma_pow2_adds,
    lemma_pow2_strictly_increases, pow2};
use vstd::prelude::*;

verus! {

/// Position of the highest set bit; 0 for 0 and 1.
pub open spec fn msb(m: nat) -> nat
    decreases m,
{
    if m < 2 {
        0
    } else {
        (1 + msb((m / 2) as nat)) as nat
    }
}

/// `msb` is the exponent of the enclosing power of two.
pub proof fn lemma_msb_char(m: nat, e: nat)
    requires
        pow2(e) <= m,
        m < pow2((e + 1) as nat),
    ensures
        msb(m) == e,
    decreases e,
{
    lemma2_to64();
    if e == 0 {
        assert(m == 1);
    } else {
        assert(pow2(e) == 2 * pow2((e - 1) as nat)) by {
            lemma_pow2_adds(1, (e - 1) as nat);
        }
        assert(pow2((e + 1) as nat) == 2 * pow2(e)) by {
            lemma_pow2_adds(1, e);
        }
        assert(m >= 2);
        assert(pow2((e - 1) as nat) <= m / 2);
        assert(m / 2 < pow2(e));
        lemma_msb_char((m / 2) as nat, (e - 1) as nat);
    }
}

/// The binary64 bit pattern whose sign is `neg` and whose magnitude is
/// `m * 2^scale`, for `m >= 1` with a representable scaled exponent.
pub open spec fn spec_pack_f64(neg: bool, m: nat, scale: int) -> u64 {
    let e = msb(m);
    let sign: int = if neg {
        1
    } else {
        0
    };
    (sign * pow2(63) + (1023 + scale + e) * pow2(52) + (m * pow2((52 - e) as nat) - pow2(
        52,
    ))) as u64
}

/// The binary64 pattern of an `i32` value, exactly.
pub open spec fn spec_f64_bits_of_i32(v: int) -> u64 {
    if v == 0 {
        0
    } else if v > 0 {
        spec_pack_f64(false, v as nat, 0)
    } else {
        spec_pack_f64(true, (-v) as nat, 0)
    }
}

/// The binary64 pattern denoting the same value as a binary32 pattern:
/// sign kept, exponent re-biased, mantissa widened; a subnormal is
/// normalized, an infinity or NaN keeps its payload in the high bits.
pub open spec fn spec_f32_to_f64_bits(b: u32) -> u64 {
    let s: nat = (b as nat) / pow2(31);
    let e: nat = ((b as nat) / pow2(23)) % pow2(8);
    let m: nat = (b as nat) % pow2(23);
    if e == 255 {
        (s * pow2(63) + 2047 * pow2(52) + m * pow2(29)) as u64
    } else if e == 0 && m == 0 {
        (s * pow2(63)) as u64
    } else if e == 0 {
        spec_pack_f64(s == 1, m, -149)
    } else {
        (s * pow2(63) + (e + 896) * pow2(52) + m * pow2(29)) as u64
    }
}

/// Builds the binary64 pattern for sign `neg` and magnitude
/// `m * 2^(exp_base - 1023)`, normalizing `m`.
fn pack_f64(neg: bool, m: u64, exp_base: u64) -> (r: u64)
    requires
        1 <= m,
        m < 0x100000000,
        874 <= exp_base <= 1023,
    ensures
        r == spec_pack_f64(neg, m as nat, exp_base as int - 1023),
{
    proof {
        lemma2_to64();
        lemma2_to64_rest();
    }
    let mut e: u64 = 0;
    let mut p: u64 = 1;
    while m >= 2 * p
        invariant
            1 <= m < 0x100000000,
            p == pow2(e as nat),
            p <= m,
            e <= 32,
        decreases 0x100000000u64 - p,
    {
        proof {
            lemma_pow2_adds(e as nat, 1);
            lemma2_to64();
            if e + 1 > 32 {
                lemma_pow2_strictly_increases(32, (e + 1) as nat);
            }
        }
        p = 2 * p;
        e = e + 1;
    }
    proof {
        lemma_pow2_adds(e as nat, 1);
        lemma2_to64();
        assert(m < 2 * pow2(e as nat));
        lemma_msb_char(m as nat, e as nat);
        if e > 31 {
            lemma_pow2_strictly_increases(31, e as nat);
            assert(false);
        }
    }
    let ghost m0: nat = (m - p) as nat;
    let mut frac: u64 = m - p;
    let mut sh: u64 = 0;
    proof {
        assert(frac as nat == m0 * pow2(0)) by {
            lemma2_to64();
        }
    }
    while sh < 52 - e
        invariant
            e <= 31,
            sh <= 52 - e,
            p == pow2(e as nat),
            m0 == (m - p) as nat,
            m0 < pow2(e as nat),
            frac as nat == m0 * pow2(sh as nat),
        decreases 52 - e - sh,
    {
        proof {
            lemma_pow2_adds(e as nat, sh as nat);
            lemma_pow2_adds(sh as nat, 1);
            lemma2_to64();
            lemma2_to64_rest();
            assert(m0 * pow2(sh as nat) < pow2(e as nat) * pow2(sh as nat)) by (nonlinear_arith)
                requires
                    m0 < pow2(e as nat),
                    pow2(sh as nat) > 0,
            ;
            if (e + sh) as nat <= 51 {
                lemma_pow2_strictly_increases((e + sh) as nat, 52);
            }
            assert(m0 * (pow2(sh as nat) * 2) == (m0 * pow2(sh as nat)) * 2) by (nonlinear_arith);
        }
        frac = 2 * frac;
        sh = sh + 1;
    }
    proof {
        lemma_pow2_adds(e as nat, (52 - e) as nat);
        lemma2_to64_rest();
        assert((m0 as int) * pow2((52 - e) as nat) == (m as int) * pow2((52 - e) as nat) - (
        pow2(e as nat) as int) * pow2((52 - e) as nat)) by (nonlinear_arith)
            requires
                m0 == (m - pow2(e as nat)) as nat,
                pow2(e as nat) <= m,
        ;
        assert(m0 * pow2((52 - e) as nat) < pow2(e as nat) * pow2((52 - e) as nat))
            by (nonlinear_arith)
            requires
                m0 < pow2(e as nat),
                pow2((52 - e) as nat) > 0,
        ;
    }
    let exp_field: u64 = exp_base + e;
    let sign: u64 = if neg {
        0x8000000000000000
    } else {
        0
    };
    let r = sign + exp_field * 0x10000000000000 + frac;
    proof {
        lemma2_to64_rest();
        assert(pow2(52) == 0x10000000000000);
        assert(pow2(63) == 0x8000000000000000);
    }
    r
}

/// Converts an `i32` to the binary64 bit pattern of its value,
/// exactly (every 32-bit integer is representable in binary64).
pub fn i32_to_f64_bits(v: i32) -> (r: u64)
    ensures
        r == spec_f64_bits_of_i32(v as int),
{
    if v == 0 {
        0
    } else if v > 0 {
        pack_f64(false, v as u64, 1023)
    } else {
        let wide: i64 = v as i64;
        let mag: u64 = (-wide) as u64;
        pack_f64(true, mag, 1023)
    }
}

/// Widens a binary32 bit pattern to the binary64 pattern of the same
/// value: exact, since every binary32 value is representable.
pub fn f32_bits_to_f64_bits(b: u32) -> (r: u64)
    ensures
        r == spec_f32_to_f64_bits(b),
{
    proof {
        lemma2_to64();
        lemma2_to64_rest();
    }
    let s: u32 = b / 0x80000000;
    let e: u32 = (b / 0x800000) % 0x100;
    let m: u32 = b % 0x800000;
    if e == 0xFF {
        (s as u64) * 0x8000000000000000 + 2047u64 * 0x10000000000000 + (m as u64) * 0x20000000
    } else if e == 0 && m == 0 {
        (s as u64) * 0x8000000000000000
    } else if e == 0 {
        pack_f64(s == 1, m as u64, 874)
    } else {
        (s as u64) * 0x8000000000000000 + ((e as u64) + 896) * 0x10000000000000 + (m as u64)
            * 0x20000000
    }
}

} // verus!
