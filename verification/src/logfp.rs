use vstd::prelude::*;
use vstd::arithmetic::div_mod::{
    lemma_div_is_ordered, lemma_div_multiples_vanish, lemma_fundamental_div_mod_converse,
};
use vstd::arithmetic::mul::{lemma_mul_inequality, lemma_mul_is_commutative};
use vstd::arithmetic::power2::{lemma2_to64, lemma2_to64_rest, lemma_pow2_adds, pow2};

verus! {

// Entropy scores are exact integers in a fixed-point format with 16
// fractional bits: a score of `s` stands for `s / 65536` bits. The binary
// logarithm below is a deterministic fixed-point approximation: the integer
// part is exact, and the fractional bits come from 16 rounds of the classic
// mantissa-squaring method, each round truncating to a 32-bit mantissa.

/// The fixed-point scale: scores carry 16 fractional bits.
pub const SCORE_ONE: u64 = 65536;

/// The integer part of the binary logarithm of `c`.
pub open spec fn floor_log2(c: int) -> int
    decreases c,
{
    if c <= 1 {
        0
    } else {
        1 + floor_log2(c / 2)
    }
}

/// `n` fractional bits of the binary logarithm of the value `x / 2^31`,
/// for a mantissa `x` in `[2^31, 2^32)`: square the mantissa, emit a 1 bit
/// and renormalize when the square reaches 2, and truncate the square back
/// to scale 2^31 each round.
pub open spec fn frac_bits(x: int, n: int) -> int
    decreases n,
{
    if n <= 0 {
        0
    } else {
        let y = (x * x) / 0x8000_0000;
        if y >= 0x1_0000_0000 {
            pow2((n - 1) as nat) + frac_bits(y / 2, n - 1)
        } else {
            frac_bits(y, n - 1)
        }
    }
}

/// The mantissa of `c`: `c` normalized into `[2^31, 2^32)`.
pub open spec fn mantissa(c: int) -> int {
    c * pow2((31 - floor_log2(c)) as nat)
}

/// The fixed-point binary logarithm: integer part exact, 16 fractional bits
/// from the squaring method.
pub open spec fn log2_fp(c: int) -> int {
    floor_log2(c) * 65536 + frac_bits(mantissa(c), 16)
}

pub proof fn lemma_floor_log2_bounds(c: int)
    requires
        c >= 1,
    ensures
        0 <= floor_log2(c),
        pow2(floor_log2(c) as nat) <= c < pow2((floor_log2(c) + 1) as nat),
    decreases c,
{
    lemma2_to64();
    if c >= 2 {
        lemma_floor_log2_bounds(c / 2);
        let k = floor_log2(c / 2);
        assert(pow2((k + 1) as nat) == 2 * pow2(k as nat)) by {
            lemma_pow2_adds(1, k as nat);
            lemma2_to64();
        }
        assert(pow2((k + 2) as nat) == 2 * pow2((k + 1) as nat)) by {
            lemma_pow2_adds(1, (k + 1) as nat);
            lemma2_to64();
        }
    }
}

pub proof fn lemma_floor_log2_monotone(c: int, d: int)
    requires
        1 <= c <= d,
    ensures
        floor_log2(c) <= floor_log2(d),
    decreases d,
{
    if c >= 2 {
        lemma_floor_log2_monotone(c / 2, d / 2);
        lemma_div_is_ordered(c, d, 2);
    } else {
        lemma_floor_log2_bounds(d);
    }
}

pub proof fn lemma_floor_log2_le_31(c: int)
    requires
        1 <= c <= 0x8000_0000,
    ensures
        0 <= floor_log2(c) <= 31,
{
    lemma_floor_log2_bounds(c);
    let k = floor_log2(c);
    if k > 31 {
        assert(pow2(32) <= pow2(k as nat)) by {
            if k > 32 {
                vstd::arithmetic::power2::lemma_pow2_strictly_increases(32, k as nat);
            }
        }
        lemma2_to64();
        assert(false);
    }
}

pub proof fn lemma_mantissa_range(c: int)
    requires
        1 <= c <= 0x8000_0000,
    ensures
        0x8000_0000 <= mantissa(c) < 0x1_0000_0000,
{
    lemma_floor_log2_bounds(c);
    lemma_floor_log2_le_31(c);
    let k = floor_log2(c);
    let s = (31 - k) as nat;
    assert(pow2(k as nat) * pow2(s) == pow2(31)) by {
        lemma_pow2_adds(k as nat, s);
    }
    assert(pow2((k + 1) as nat) * pow2(s) == pow2(32)) by {
        lemma_pow2_adds((k + 1) as nat, s);
    }
    vstd::arithmetic::power2::lemma_pow2_pos(s);
    assert(pow2(k as nat) * pow2(s) <= c * pow2(s)) by {
        lemma_mul_inequality(pow2(k as nat) as int, c, pow2(s) as int);
    }
    assert(c * pow2(s) <= (pow2((k + 1) as nat) - 1) * pow2(s)) by {
        lemma_mul_inequality(c, pow2((k + 1) as nat) - 1, pow2(s) as int);
    }
    assert((pow2((k + 1) as nat) - 1) * pow2(s) == pow2((k + 1) as nat) * pow2(s) - pow2(s)) by {
        vstd::arithmetic::mul::lemma_mul_is_distributive_sub_other_way(
            pow2(s) as int,
            pow2((k + 1) as nat) as int,
            1,
        );
    }
    lemma2_to64();
    lemma2_to64_rest();
}

/// One squaring round keeps the mantissa in range.
pub proof fn lemma_frac_step(x: int)
    requires
        0x8000_0000 <= x < 0x1_0000_0000,
    ensures
        0x8000_0000 <= (x * x) / 0x8000_0000 < 4 * 0x8000_0000,
        (x * x) / 0x8000_0000 >= 0x1_0000_0000 ==> 0x8000_0000 <= ((x * x) / 0x8000_0000) / 2
            < 0x1_0000_0000,
{
    let p: int = 0x8000_0000;
    assert(p * p <= x * x) by {
        lemma_mul_inequality(p, x, p);
        lemma_mul_inequality(p, x, x);
        lemma_mul_is_commutative(p, x);
    }
    assert(x * x <= (0x1_0000_0000 - 1) * (0x1_0000_0000 - 1)) by {
        lemma_mul_inequality(x, 0x1_0000_0000 - 1, x);
        lemma_mul_inequality(x, 0x1_0000_0000 - 1, 0x1_0000_0000 - 1);
        lemma_mul_is_commutative(x, 0x1_0000_0000 - 1);
    }
    assert((p * p) / p == p) by {
        lemma_div_multiples_vanish(p, p);
    }
    lemma_div_is_ordered(p * p, x * x, p);
    lemma_div_is_ordered(x * x, (0x1_0000_0000 - 1) * (0x1_0000_0000 - 1), p);
    assert(((0x1_0000_0000 - 1) * (0x1_0000_0000 - 1)) / p == 4 * p - 4) by {
        lemma_fundamental_div_mod_converse(
            (0x1_0000_0000 - 1) * (0x1_0000_0000 - 1),
            p,
            4 * p - 4,
            1,
        );
    }
}

pub proof fn lemma_frac_bits_bounds(x: int, n: int)
    ensures
        0 <= frac_bits(x, n) < pow2(if n <= 0 {
            0
        } else {
            n as nat
        }),
    decreases n,
{
    lemma2_to64();
    if n > 0 {
        let y = (x * x) / 0x8000_0000;
        lemma_frac_bits_bounds(y, n - 1);
        lemma_frac_bits_bounds(y / 2, n - 1);
        assert(pow2(n as nat) == 2 * pow2((n - 1) as nat)) by {
            lemma_pow2_adds(1, (n - 1) as nat);
        }
    }
}

/// The fractional bits are monotone in the mantissa.
pub proof fn lemma_frac_bits_monotone(x1: int, x2: int, n: int)
    requires
        0x8000_0000 <= x1 <= x2 < 0x1_0000_0000,
    ensures
        frac_bits(x1, n) <= frac_bits(x2, n),
    decreases n,
{
    if n > 0 {
        lemma_frac_step(x1);
        lemma_frac_step(x2);
        let y1 = (x1 * x1) / 0x8000_0000;
        let y2 = (x2 * x2) / 0x8000_0000;
        assert(x1 * x1 <= x2 * x2) by {
            lemma_mul_inequality(x1, x2, x1);
            lemma_mul_inequality(x1, x2, x2);
            lemma_mul_is_commutative(x1, x2);
        }
        lemma_div_is_ordered(x1 * x1, x2 * x2, 0x8000_0000);
        if y1 >= 0x1_0000_0000 {
            lemma_div_is_ordered(y1, y2, 2);
            lemma_frac_bits_monotone(y1 / 2, y2 / 2, n - 1);
        } else if y2 >= 0x1_0000_0000 {
            lemma_frac_bits_bounds(y1, n - 1);
            lemma_frac_bits_bounds(y2 / 2, n - 1);
        } else {
            lemma_frac_bits_monotone(y1, y2, n - 1);
        }
    }
}

/// A mantissa of exactly one yields no fractional bits.
pub proof fn lemma_frac_bits_of_one(n: int)
    ensures
        frac_bits(0x8000_0000, n) == 0,
    decreases n,
{
    if n > 0 {
        lemma_div_multiples_vanish(0x8000_0000, 0x8000_0000);
        assert(0x8000_0000 * 0x8000_0000int / 0x8000_0000 == 0x8000_0000int);
        lemma_frac_bits_of_one(n - 1);
    }
}

/// The logarithm of one is exactly zero.
pub proof fn lemma_log2_fp_one()
    ensures
        log2_fp(1) == 0,
{
    lemma2_to64();
    assert(mantissa(1) == 1 * pow2(31));
    lemma_frac_bits_of_one(16);
}

pub proof fn lemma_log2_fp_bounds(c: int)
    requires
        1 <= c <= 0x8000_0000,
    ensures
        0 <= log2_fp(c) < 0x20_0000,
        log2_fp(c) == 0 <==> c == 1,
{
    lemma_floor_log2_le_31(c);
    lemma_mantissa_range(c);
    lemma_frac_bits_bounds(mantissa(c), 16);
    lemma2_to64();
    if c == 1 {
        lemma_log2_fp_one();
    } else {
        lemma_floor_log2_bounds(c);
        let k = floor_log2(c);
        if k == 0 {
            // c in [1, 2) and c != 1 is impossible for integers, so k >= 1
            // whenever c >= 2.
            assert(c < pow2(1));
            assert(false);
        }
        assert(log2_fp(c) >= 65536) by {
            lemma_mul_inequality(1, k, 65536);
            lemma_mul_is_commutative(k, 65536);
        }
    }
}

/// The fixed-point logarithm is monotone.
pub proof fn lemma_log2_fp_monotone(c: int, d: int)
    requires
        1 <= c <= d <= 0x8000_0000,
    ensures
        log2_fp(c) <= log2_fp(d),
{
    let kc = floor_log2(c);
    let kd = floor_log2(d);
    lemma_floor_log2_monotone(c, d);
    lemma_floor_log2_le_31(c);
    lemma_floor_log2_le_31(d);
    lemma_mantissa_range(c);
    lemma_mantissa_range(d);
    if kc == kd {
        assert(mantissa(c) <= mantissa(d)) by {
            vstd::arithmetic::power2::lemma_pow2_pos((31 - kc) as nat);
            lemma_mul_inequality(c, d, pow2((31 - kc) as nat) as int);
        }
        lemma_frac_bits_monotone(mantissa(c), mantissa(d), 16);
    } else {
        lemma_frac_bits_bounds(mantissa(c), 16);
        lemma_frac_bits_bounds(mantissa(d), 16);
        lemma2_to64();
        assert(kc * 65536 + 65536 == (kc + 1) * 65536) by {
            vstd::arithmetic::mul::lemma_mul_is_distributive_add_other_way(65536, kc, 1);
        }
        assert((kc + 1) * 65536 <= kd * 65536) by {
            lemma_mul_inequality(kc + 1, kd, 65536);
        }
    }
}

/// Computes the fixed-point binary logarithm of `c`: the exact integer part
/// and 16 fractional bits from the mantissa-squaring method.
pub fn log2_fixed(c: u64) -> (r: u64)
    requires
        1 <= c <= 0x8000_0000,
    ensures
        r == log2_fp(c as int),
        r < 0x20_0000,
{
    proof {
        lemma_floor_log2_le_31(c as int);
        lemma_floor_log2_bounds(c as int);
    }
    let mut k: u64 = 0;
    let mut t: u64 = c;
    while t >= 2
        invariant
            1 <= c <= 0x8000_0000,
            1 <= t <= c,
            floor_log2(c as int) == k + floor_log2(t as int),
            k <= 31,
        decreases t,
    {
        proof {
            lemma_floor_log2_le_31(c as int);
            lemma_floor_log2_bounds((t / 2) as int);
            assert(floor_log2(t as int) == 1 + floor_log2(t as int / 2));
        }
        t = t / 2;
        k = k + 1;
    }
    proof {
        assert(k == floor_log2(c as int));
        lemma2_to64();
        vstd::arithmetic::mul::lemma_mul_basics(c as int);
    }
    // Normalize the mantissa into [2^31, 2^32).
    let mut x: u64 = c;
    let mut j: u64 = k;
    while j < 31
        invariant
            1 <= c <= 0x8000_0000,
            k <= j <= 31,
            x == c * pow2((j - k) as nat),
            x < pow2((j + 1) as nat),
            floor_log2(c as int) == k,
        decreases 31 - j,
    {
        proof {
            lemma_pow2_adds(1, (j - k) as nat);
            lemma_pow2_adds(1, (j + 1) as nat);
            lemma2_to64();
            lemma2_to64_rest();
            assert(2 * x == c * (2 * pow2((j - k) as nat))) by {
                vstd::arithmetic::mul::lemma_mul_is_associative(2, c as int, pow2((j - k) as nat) as int);
                lemma_mul_is_commutative(2, c as int);
                vstd::arithmetic::mul::lemma_mul_is_associative(c as int, 2, pow2((j - k) as nat) as int);
            }
            if j + 2 <= 32 {
                vstd::arithmetic::power2::lemma_pow2_strictly_increases((j + 1) as nat, 32);
            }
            assert(pow2((j + 2) as nat) == 2 * pow2((j + 1) as nat)) by {
                lemma_pow2_adds(1, (j + 1) as nat);
            }
        }
        x = x * 2;
        j = j + 1;
    }
    proof {
        assert(x == mantissa(c as int));
        lemma_mantissa_range(c as int);
        lemma2_to64();
    }
    // Extract 16 fractional bits by repeated squaring.
    let ghost x0: int = x as int;
    let mut frac: u64 = 0;
    let mut i: u64 = 0;
    while i < 16
        invariant
            1 <= c <= 0x8000_0000,
            floor_log2(c as int) == k,
            k <= 31,
            i <= 16,
            0x8000_0000 <= x < 0x1_0000_0000,
            frac < pow2(i as nat),
            frac_bits(x0, 16) == frac * pow2((16 - i) as nat) + frac_bits(x as int, 16 - i),
        decreases 16 - i,
    {
        proof {
            lemma_frac_step(x as int);
            lemma2_to64();
            lemma_pow2_adds(1, (15 - i) as nat);
            lemma_pow2_adds(1, i as nat);
            assert((2 * frac) * pow2((15 - i) as nat) == frac * pow2((16 - i) as nat)) by {
                vstd::arithmetic::mul::lemma_mul_is_associative(2, frac as int, pow2((15 - i) as nat) as int);
                lemma_mul_is_commutative(2, frac as int);
                vstd::arithmetic::mul::lemma_mul_is_associative(frac as int, 2, pow2((15 - i) as nat) as int);
            }
            assert((2 * frac + 1) * pow2((15 - i) as nat) == frac * pow2((16 - i) as nat) + pow2(
                (15 - i) as nat,
            )) by {
                vstd::arithmetic::mul::lemma_mul_is_distributive_add_other_way(
                    pow2((15 - i) as nat) as int,
                    2 * frac,
                    1,
                );
                vstd::arithmetic::mul::lemma_mul_is_associative(2, frac as int, pow2((15 - i) as nat) as int);
                lemma_mul_is_commutative(2, frac as int);
                vstd::arithmetic::mul::lemma_mul_is_associative(frac as int, 2, pow2((15 - i) as nat) as int);
            }
        }
        let y: u64 = (x * x) / 0x8000_0000;
        if y >= 0x1_0000_0000 {
            frac = frac * 2 + 1;
            x = y / 2;
        } else {
            frac = frac * 2;
            x = y;
        }
        i = i + 1;
    }
    proof {
        lemma2_to64();
        vstd::arithmetic::mul::lemma_mul_basics(frac as int);
        assert(frac_bits(x0, 0) == 0);
        assert(frac == frac_bits(x0, 16));
        lemma_log2_fp_bounds(c as int);
    }
    k * 65536 + frac
}

} // verus!
