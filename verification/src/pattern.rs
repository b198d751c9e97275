use vstd::prelude::*;
use crate::word::{count_letter, lemma_count_letter_bounds, lemma_count_letter_monotone, Word};

verus! {

/// Per-position feedback for a guess against a secret.
///
/// The integer mapping Grey = 0, Yellow = 1, Green = 2 is used only for the
/// base-3 pattern encoding and carries no other meaning.
pub enum Color {
    Grey,
    Yellow,
    Green,
}

/// The documented integer value of a color in the base-3 pattern encoding.
pub open spec fn color_value(c: Color) -> int {
    match c {
        Color::Grey => 0,
        Color::Yellow => 1,
        Color::Green => 2,
    }
}

/// 3 to the power `k`.
pub open spec fn pow3(k: int) -> int
    decreases k,
{
    if k <= 0 {
        1
    } else {
        3 * pow3(k - 1)
    }
}

pub proof fn lemma_pow3_positive(k: int)
    ensures
        pow3(k) >= 1,
    decreases k,
{
    if k > 0 {
        lemma_pow3_positive(k - 1);
    }
}

/// Positions `i < k` where guess and secret agree and the common letter is `c`.
pub open spec fn count_green_letter(g: Seq<u8>, s: Seq<u8>, c: u8, k: int) -> int
    decreases k,
{
    if k <= 0 {
        0
    } else {
        count_green_letter(g, s, c, k - 1) + if g[k - 1] == s[k - 1] && g[k - 1] == c {
            1int
        } else {
            0int
        }
    }
}

/// Positions `i < k` where the guess letter is `c` but does not match the secret there.
pub open spec fn count_miss_letter(g: Seq<u8>, s: Seq<u8>, c: u8, k: int) -> int
    decreases k,
{
    if k <= 0 {
        0
    } else {
        count_miss_letter(g, s, c, k - 1) + if g[k - 1] != s[k - 1] && g[k - 1] == c {
            1int
        } else {
            0int
        }
    }
}

/// How many occurrences of letter `c` in the secret remain available for
/// Yellow marks once all exact (Green) matches have consumed theirs.
pub open spec fn remaining(g: Seq<u8>, s: Seq<u8>, c: u8) -> int {
    count_letter(s, c, 5) - count_green_letter(g, s, c, 5)
}

/// The feedback color at position `i`, per the two-pass rule: exact matches
/// are Green; a non-matching position is Yellow only while earlier
/// non-matching positions with the same letter have not yet consumed the
/// secret's remaining supply of that letter; otherwise it is Grey.
pub open spec fn color_at(g: Seq<u8>, s: Seq<u8>, i: int) -> Color {
    if g[i] == s[i] {
        Color::Green
    } else if count_miss_letter(g, s, g[i], i) < remaining(g, s, g[i]) {
        Color::Yellow
    } else {
        Color::Grey
    }
}

/// Positions `i < k` with guess letter `c` that are marked Yellow.
pub open spec fn count_yellow_letter(g: Seq<u8>, s: Seq<u8>, c: u8, k: int) -> int
    decreases k,
{
    if k <= 0 {
        0
    } else {
        count_yellow_letter(g, s, c, k - 1) + if g[k - 1] == c && color_at(g, s, k - 1) is Yellow {
            1int
        } else {
            0int
        }
    }
}

/// The base-3 pattern code of the first `k` positions: position `i`
/// contributes `color_value * 3^i`.
pub open spec fn pattern_code_prefix(g: Seq<u8>, s: Seq<u8>, k: int) -> int
    decreases k,
{
    if k <= 0 {
        0
    } else {
        pattern_code_prefix(g, s, k - 1) + color_value(color_at(g, s, k - 1)) * pow3(k - 1)
    }
}

/// The feedback pattern between a guess and a secret, encoded as a base-3
/// integer in `[0, 243)`.
pub open spec fn pattern_code(g: Seq<u8>, s: Seq<u8>) -> int {
    pattern_code_prefix(g, s, 5)
}

/// Green contribution of the first `k` positions to the pattern code.
pub open spec fn green_code_prefix(g: Seq<u8>, s: Seq<u8>, k: int) -> int
    decreases k,
{
    if k <= 0 {
        0
    } else {
        green_code_prefix(g, s, k - 1) + if g[k - 1] == s[k - 1] {
            2 * pow3(k - 1)
        } else {
            0int
        }
    }
}

/// Yellow contribution of the first `k` positions to the pattern code.
pub open spec fn yellow_code_prefix(g: Seq<u8>, s: Seq<u8>, k: int) -> int
    decreases k,
{
    if k <= 0 {
        0
    } else {
        yellow_code_prefix(g, s, k - 1) + if color_at(g, s, k - 1) is Yellow {
            pow3(k - 1)
        } else {
            0int
        }
    }
}

pub proof fn lemma_count_green_le_count(g: Seq<u8>, s: Seq<u8>, c: u8, k: int)
    requires
        k >= 0,
    ensures
        0 <= count_green_letter(g, s, c, k) <= count_letter(s, c, k),
    decreases k,
{
    if k > 0 {
        lemma_count_green_le_count(g, s, c, k - 1);
    }
}

pub proof fn lemma_remaining_nonneg(g: Seq<u8>, s: Seq<u8>, c: u8)
    ensures
        remaining(g, s, c) >= 0,
{
    lemma_count_green_le_count(g, s, c, 5);
}

pub proof fn lemma_count_miss_nonneg(g: Seq<u8>, s: Seq<u8>, c: u8, k: int)
    requires
        k >= 0,
    ensures
        count_miss_letter(g, s, c, k) >= 0,
    decreases k,
{
    if k > 0 {
        lemma_count_miss_nonneg(g, s, c, k - 1);
    }
}

/// The Yellow marks with letter `c` among the first `k` positions are exactly
/// the earlier of the non-matching `c` positions, capped by the secret's
/// remaining supply of `c`.
pub proof fn lemma_yellow_is_capped_miss(g: Seq<u8>, s: Seq<u8>, c: u8, k: int)
    requires
        0 <= k,
    ensures
        count_yellow_letter(g, s, c, k) == if count_miss_letter(g, s, c, k) <= remaining(g, s, c) {
            count_miss_letter(g, s, c, k)
        } else {
            remaining(g, s, c)
        },
    decreases k,
{
    lemma_remaining_nonneg(g, s, c);
    if k > 0 {
        lemma_yellow_is_capped_miss(g, s, c, k - 1);
        lemma_count_miss_nonneg(g, s, c, k - 1);
    }
}

/// Duplicate-letter bound: for every letter, the positions marked Green or
/// Yellow for that letter never exceed its number of occurrences in the secret.
pub proof fn lemma_duplicate_letter_bound(g: Seq<u8>, s: Seq<u8>, c: u8)
    ensures
        count_green_letter(g, s, c, 5) + count_yellow_letter(g, s, c, 5) <= count_letter(s, c, 5),
{
    lemma_yellow_is_capped_miss(g, s, c, 5);
    lemma_remaining_nonneg(g, s, c);
    lemma_count_miss_nonneg(g, s, c, 5);
}

/// Guessing the secret itself marks every position Green, and the encoded
/// pattern is the all-Green code 242.
pub proof fn lemma_all_green_prefix(g: Seq<u8>, k: int)
    requires
        k >= 0,
    ensures
        pattern_code_prefix(g, g, k) == pow3(k) - 1,
    decreases k,
{
    if k > 0 {
        lemma_all_green_prefix(g, k - 1);
    }
}

/// Guessing the secret itself marks every position Green, and the encoded
/// pattern is the all-Green code 242.
pub proof fn lemma_self_all_green(g: Seq<u8>)
    requires
        g.len() == 5,
    ensures
        forall|i: int| 0 <= i < 5 ==> color_at(g, g, i) is Green,
        pattern_code(g, g) == 242,
{
    lemma_all_green_prefix(g, 5);
    assert(pow3(5) == 243) by {
        reveal_with_fuel(pow3, 6);
    }
}

/// The pattern code splits into its Green and Yellow contributions.
pub proof fn lemma_code_split(g: Seq<u8>, s: Seq<u8>, k: int)
    requires
        k >= 0,
    ensures
        pattern_code_prefix(g, s, k) == green_code_prefix(g, s, k) + yellow_code_prefix(g, s, k),
    decreases k,
{
    if k > 0 {
        lemma_code_split(g, s, k - 1);
    }
}

pub proof fn lemma_pattern_code_bound(g: Seq<u8>, s: Seq<u8>, k: int)
    requires
        k >= 0,
    ensures
        0 <= pattern_code_prefix(g, s, k) < pow3(k),
    decreases k,
{
    if k > 0 {
        lemma_pattern_code_bound(g, s, k - 1);
        lemma_pow3_positive(k - 1);
        let v = color_value(color_at(g, s, k - 1));
        assert(v == 0 || v == 1 || v == 2);
        assert(v * pow3(k - 1) <= 2 * pow3(k - 1)) by {
            vstd::arithmetic::mul::lemma_mul_inequality(v, 2, pow3(k - 1));
        }
        assert(v * pow3(k - 1) >= 0) by {
            vstd::arithmetic::mul::lemma_mul_nonnegative(v, pow3(k - 1));
        }
    }
}

pub proof fn lemma_green_code_bound(g: Seq<u8>, s: Seq<u8>, k: int)
    requires
        k >= 0,
    ensures
        0 <= green_code_prefix(g, s, k) < pow3(k),
    decreases k,
{
    if k > 0 {
        lemma_green_code_bound(g, s, k - 1);
        lemma_pow3_positive(k - 1);
    }
}

pub proof fn lemma_yellow_code_monotone(g: Seq<u8>, s: Seq<u8>, k1: int, k2: int)
    requires
        0 <= k1 <= k2,
    ensures
        yellow_code_prefix(g, s, k1) <= yellow_code_prefix(g, s, k2),
    decreases k2 - k1,
{
    if k1 < k2 {
        lemma_yellow_code_monotone(g, s, k1, k2 - 1);
        lemma_pow3_positive(k2 - 1);
    }
}

/// Computes the feedback pattern of guess `ac` against secret `bc` with the
/// two-pass duplicate-letter rule, and returns its base-3 code.
///
/// The first pass marks exact matches Green and consumes the secret's letter
/// counts; the second pass marks Yellow only while a letter's remaining count
/// is positive. Word lengths are fixed by construction, so no length check is
/// needed here.
pub fn make_idx(ac: &Word, bc: &Word) -> (idx: usize)
    requires
        ac.wf(),
        bc.wf(),
    ensures
        idx == pattern_code(ac.w@, bc.w@),
        idx < 243,
{
    let ghost gw: Seq<u8> = ac.w@;
    let ghost sw: Seq<u8> = bc.w@;
    let mut idx: usize = 0;
    let mut mul: usize = 1;

    // Private copy of the secret's letter counts, consumed as marks are made.
    let mut b_set: Vec<u8> = Vec::new();
    for c in 0..26usize
        invariant
            bc.wf(),
            b_set@.len() == c,
            forall|d: int| 0 <= d < c ==> #[trigger] b_set@[d] == bc.set@[d],
    {
        b_set.push(bc.set[c]);
    }

    // First pass: Greens.
    for i in 0..5usize
        invariant
            ac.wf(),
            bc.wf(),
            gw == ac.w@,
            sw == bc.w@,
            b_set@.len() == 26,
            mul == pow3(i as int),
            idx == green_code_prefix(gw, sw, i as int),
            idx < 243,
            mul <= 243,
            forall|c: u8|
                c < 26 ==> #[trigger] b_set@[c as int] == count_letter(sw, c, 5)
                    - count_green_letter(gw, sw, c, i as int),
    {
        let a = ac.w[i];
        proof {
            lemma_count_green_le_count(gw, sw, a, i + 1);
            lemma_count_letter_monotone(sw, a, i + 1, 5);
            lemma_green_code_bound(gw, sw, i + 1);
            lemma_pow3_monotone(i + 1, 5);
            assert(pow3(5) == 243) by {
                reveal_with_fuel(pow3, 6);
            }
        }
        if a == bc.w[i] {
            let l = a as usize;
            assert(b_set@[l as int] >= 1);
            b_set[l] = b_set[l] - 1;
            idx = idx + 2 * mul;
        }
        mul = mul * 3;
    }
    mul = 1;

    // Second pass: Yellows, consuming what the Greens left over.
    for i in 0..5usize
        invariant
            ac.wf(),
            bc.wf(),
            gw == ac.w@,
            sw == bc.w@,
            b_set@.len() == 26,
            mul == pow3(i as int),
            idx == green_code_prefix(gw, sw, 5) + yellow_code_prefix(gw, sw, i as int),
            idx < 243,
            mul <= 243,
            forall|c: u8|
                c < 26 ==> #[trigger] b_set@[c as int] == remaining(gw, sw, c)
                    - count_yellow_letter(gw, sw, c, i as int),
    {
        let a = ac.w[i];
        let l = a as usize;
        proof {
            lemma_yellow_is_capped_miss(gw, sw, a, i as int);
            lemma_yellow_is_capped_miss(gw, sw, a, i + 1);
            lemma_count_miss_nonneg(gw, sw, a, i as int);
            lemma_remaining_nonneg(gw, sw, a);
            lemma_code_split(gw, sw, 5);
            lemma_pattern_code_bound(gw, sw, 5);
            lemma_yellow_code_monotone(gw, sw, i + 1, 5);
            lemma_pow3_positive(i as int);
            lemma_pow3_monotone(i + 1, 5);
            assert(pow3(5) == 243) by {
                reveal_with_fuel(pow3, 6);
            }
        }
        if a != bc.w[i] && b_set[l] > 0 {
            b_set[l] = b_set[l] - 1;
            idx = idx + mul;
        }
        mul = mul * 3;
    }
    proof {
        lemma_code_split(gw, sw, 5);
        lemma_pattern_code_bound(gw, sw, 5);
        assert(pow3(5) == 243) by {
            reveal_with_fuel(pow3, 6);
        }
    }
    idx
}

pub proof fn lemma_pow3_monotone(k1: int, k2: int)
    requires
        0 <= k1 <= k2,
    ensures
        pow3(k1) <= pow3(k2),
    decreases k2 - k1,
{
    if k1 < k2 {
        lemma_pow3_monotone(k1, k2 - 1);
        lemma_pow3_positive(k1);
    }
}

} // verus!
