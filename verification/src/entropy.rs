use vstd::prelude::*;
use vstd::arithmetic::div_mod::{lemma_div_is_ordered, lemma_div_multiples_vanish};
use vstd::arithmetic::mul::{
    lemma_mul_inequality, lemma_mul_is_commutative, lemma_mul_is_distributive_add,
    lemma_mul_nonnegative,
};
use crate::logfp::{lemma_log2_fp_bounds, lemma_log2_fp_monotone, lemma_log2_fp_one, log2_fp};
use crate::pattern::{lemma_pattern_code_bound, pattern_code, pow3};


verus! {

// A guess partitions a candidate pool: each pool word falls into the bucket
// named by its feedback pattern against the guess. The entropy of the
// partition-size distribution, in fixed-point bits, is
//
//     log2(n) - (sum over buckets of c * log2(c)) / n
//
// where `n` is the pool size and `c` ranges over the bucket sizes; this is
// the Shannon entropy of the distribution `c / n` rewritten so that every
// term is a nonnegative integer in the fixed-point scale.

/// The words among the first `k` of `pool` whose pattern against `g` is `m`,
/// in pool order.
pub open spec fn bucket_prefix(g: Seq<u8>, pool: Seq<Seq<u8>>, k: int, m: int) -> Seq<Seq<u8>>
    decreases k,
{
    if k <= 0 {
        Seq::empty()
    } else {
        let pre = bucket_prefix(g, pool, k - 1, m);
        if pattern_code(g, pool[k - 1]) == m {
            pre.push(pool[k - 1])
        } else {
            pre
        }
    }
}

/// The words of `pool` that answer pattern `m` to guess `g`.
pub open spec fn bucket_words(g: Seq<u8>, pool: Seq<Seq<u8>>, m: int) -> Seq<Seq<u8>> {
    bucket_prefix(g, pool, pool.len() as int, m)
}

/// The size of bucket `m` of the partition of `pool` by `g`.
pub open spec fn bucket_count(g: Seq<u8>, pool: Seq<Seq<u8>>, m: int) -> int {
    bucket_words(g, pool, m).len() as int
}

/// Sum of the sizes of buckets `0 .. bound` over the first `k` pool words.
pub open spec fn sum_bucket_counts(g: Seq<u8>, pool: Seq<Seq<u8>>, k: int, bound: int) -> int
    decreases bound,
{
    if bound <= 0 {
        0
    } else {
        sum_bucket_counts(g, pool, k, bound - 1) + bucket_prefix(g, pool, k, bound - 1).len()
    }
}

pub proof fn lemma_bucket_prefix_len_le(g: Seq<u8>, pool: Seq<Seq<u8>>, k: int, m: int)
    requires
        k >= 0,
    ensures
        bucket_prefix(g, pool, k, m).len() <= k,
    decreases k,
{
    if k > 0 {
        lemma_bucket_prefix_len_le(g, pool, k - 1, m);
    }
}

proof fn lemma_sum_counts_step(g: Seq<u8>, pool: Seq<Seq<u8>>, k: int, bound: int)
    requires
        k >= 1,
        bound >= 0,
    ensures
        sum_bucket_counts(g, pool, k, bound) == sum_bucket_counts(g, pool, k - 1, bound) + if 0
            <= pattern_code(g, pool[k - 1]) < bound {
            1int
        } else {
            0int
        },
    decreases bound,
{
    if bound > 0 {
        lemma_sum_counts_step(g, pool, k, bound - 1);
    }
}

proof fn lemma_sum_counts_zero(g: Seq<u8>, pool: Seq<Seq<u8>>, bound: int)
    ensures
        sum_bucket_counts(g, pool, 0, bound) == 0,
    decreases bound,
{
    if bound > 0 {
        lemma_sum_counts_zero(g, pool, bound - 1);
    }
}

/// The bucket sizes of any partition sum exactly to the number of words
/// partitioned.
pub proof fn lemma_partition_sizes_prefix(g: Seq<u8>, pool: Seq<Seq<u8>>, k: int)
    requires
        0 <= k,
    ensures
        sum_bucket_counts(g, pool, k, 243) == k,
    decreases k,
{
    if k == 0 {
        lemma_sum_counts_zero(g, pool, 243);
    } else {
        lemma_partition_sizes_prefix(g, pool, k - 1);
        lemma_sum_counts_step(g, pool, k, 243);
        lemma_pattern_code_bound(g, pool[k - 1], 5);
        assert(pow3(5) == 243) by {
            reveal_with_fuel(pow3, 6);
        }
    }
}

/// Partition law: for every guess and pool, the bucket sizes sum to the pool
/// size.
pub proof fn lemma_partition_sizes(g: Seq<u8>, pool: Seq<Seq<u8>>)
    ensures
        sum_bucket_counts(g, pool, pool.len() as int, 243) == pool.len(),
{
    lemma_partition_sizes_prefix(g, pool, pool.len() as int);
}

pub proof fn lemma_sum_counts_monotone(g: Seq<u8>, pool: Seq<Seq<u8>>, k: int, b1: int, b2: int)
    requires
        0 <= b1 <= b2,
    ensures
        sum_bucket_counts(g, pool, k, b1) <= sum_bucket_counts(g, pool, k, b2),
    decreases b2 - b1,
{
    if b1 < b2 {
        lemma_sum_counts_monotone(g, pool, k, b1, b2 - 1);
    }
}

/// Every bucket is no larger than the pool itself.
pub proof fn lemma_bucket_count_le_pool(g: Seq<u8>, pool: Seq<Seq<u8>>, m: int)
    ensures
        0 <= bucket_count(g, pool, m) <= pool.len(),
{
    lemma_bucket_prefix_len_le(g, pool, pool.len() as int, m);
}

/// Sum over buckets `0 .. bound` of `c * log2_fp(c)`, skipping empty buckets.
pub open spec fn sum_c_log_c(g: Seq<u8>, pool: Seq<Seq<u8>>, bound: int) -> int
    decreases bound,
{
    if bound <= 0 {
        0
    } else {
        let c = bucket_count(g, pool, bound - 1);
        sum_c_log_c(g, pool, bound - 1) + if c > 0 {
            c * log2_fp(c)
        } else {
            0int
        }
    }
}

/// Numerator of the entropy: `n * log2(n) - sum of c * log2(c)`, all in the
/// fixed-point scale.
pub open spec fn entropy_numer(g: Seq<u8>, pool: Seq<Seq<u8>>) -> int {
    pool.len() * log2_fp(pool.len() as int) - sum_c_log_c(g, pool, 243)
}

/// The one-step entropy of guessing `g` against `pool`, in fixed-point bits.
pub open spec fn entropy_fp(g: Seq<u8>, pool: Seq<Seq<u8>>) -> int {
    entropy_numer(g, pool) / (pool.len() as int)
}

/// Each partial sum of `c * log2(c)` is nonnegative and at most the matching
/// partial count-sum times `log2(n)`.
pub proof fn lemma_sum_c_log_c_bounds(g: Seq<u8>, pool: Seq<Seq<u8>>, bound: int)
    requires
        1 <= pool.len() <= 0x8000_0000,
        bound >= 0,
    ensures
        0 <= sum_c_log_c(g, pool, bound),
        sum_c_log_c(g, pool, bound) <= sum_bucket_counts(g, pool, pool.len() as int, bound)
            * log2_fp(pool.len() as int),
    decreases bound,
{
    let n = pool.len() as int;
    let ln = log2_fp(n);
    lemma_log2_fp_bounds(n);
    if bound == 0 {
    } else {
        lemma_sum_c_log_c_bounds(g, pool, bound - 1);
        let c = bucket_count(g, pool, bound - 1);
        let s = sum_bucket_counts(g, pool, pool.len() as int, bound - 1);
        lemma_bucket_count_le_pool(g, pool, bound - 1);
        assert(bucket_prefix(g, pool, pool.len() as int, bound - 1).len() == c);
        if c > 0 {
            lemma_log2_fp_bounds(c);
            lemma_log2_fp_monotone(c, n);
            assert(c * log2_fp(c) >= 0) by {
                lemma_mul_nonnegative(c, log2_fp(c));
            }
            assert(c * log2_fp(c) <= c * ln) by {
                lemma_mul_inequality(log2_fp(c), ln, c);
                lemma_mul_is_commutative(log2_fp(c), c);
                lemma_mul_is_commutative(ln, c);
            }
            assert((s + c) * ln == s * ln + c * ln) by {
                lemma_mul_is_distributive_add(ln, s, c);
                lemma_mul_is_commutative(ln, s + c);
                lemma_mul_is_commutative(ln, s);
                lemma_mul_is_commutative(ln, c);
            }
        }
    }
}

/// The entropy is nonnegative and never exceeds `log2` of the pool size:
/// the fixed-point form of `score(g, P) <= log2(|P|)`.
pub proof fn lemma_entropy_bounds(g: Seq<u8>, pool: Seq<Seq<u8>>)
    requires
        1 <= pool.len() <= 0x8000_0000,
    ensures
        0 <= entropy_numer(g, pool) <= pool.len() * log2_fp(pool.len() as int),
        0 <= entropy_fp(g, pool) <= log2_fp(pool.len() as int),
{
    let n = pool.len() as int;
    let ln = log2_fp(n);
    lemma_log2_fp_bounds(n);
    lemma_sum_c_log_c_bounds(g, pool, 243);
    lemma_partition_sizes(g, pool);
    assert(sum_c_log_c(g, pool, 243) <= n * ln);
    assert(entropy_numer(g, pool) >= 0);
    assert(entropy_numer(g, pool) <= n * ln) by {
        lemma_mul_nonnegative(n, ln);
    }
    assert(entropy_fp(g, pool) >= 0) by {
        vstd::arithmetic::div_mod::lemma_div_pos_is_pos(entropy_numer(g, pool), n);
    }
    assert(entropy_fp(g, pool) <= ln) by {
        lemma_div_is_ordered(entropy_numer(g, pool), n * ln, n);
        lemma_mul_is_commutative(n, ln);
        lemma_div_multiples_vanish(ln, n);
    }
}

proof fn lemma_sum_c_log_c_small(g: Seq<u8>, pool: Seq<Seq<u8>>, bound: int)
    requires
        pool.len() == 1,
        bound >= 0,
    ensures
        sum_c_log_c(g, pool, bound) == 0,
    decreases bound,
{
    if bound > 0 {
        lemma_sum_c_log_c_small(g, pool, bound - 1);
        let c = bucket_count(g, pool, bound - 1);
        lemma_bucket_count_le_pool(g, pool, bound - 1);
        if c > 0 {
            lemma_log2_fp_one();
        }
    }
}

/// A pool of one word has entropy exactly zero, whatever the guess.
pub proof fn lemma_entropy_singleton(g: Seq<u8>, pool: Seq<Seq<u8>>)
    requires
        pool.len() == 1,
    ensures
        entropy_fp(g, pool) == 0,
{
    lemma_sum_c_log_c_small(g, pool, 243);
    lemma_log2_fp_one();
}

} // verus!
