use vstd::prelude::*;
use vstd::arithmetic::div_mod::{
    lemma_div_is_ordered, lemma_div_multiples_vanish, lemma_div_pos_is_pos,
};
use vstd::arithmetic::mul::{
    lemma_mul_inequality, lemma_mul_is_commutative, lemma_mul_is_distributive_add,
    lemma_mul_nonnegative, lemma_mul_upper_bound,
};
use rayon::iter::{IntoParallelRefIterator, ParallelIterator};
use crate::errors::SolverError;
use crate::entropy::{
    bucket_count, bucket_prefix, bucket_words, entropy_fp, entropy_numer,
    lemma_bucket_prefix_len_le, lemma_entropy_bounds, lemma_entropy_singleton,
    lemma_partition_sizes, lemma_sum_c_log_c_bounds, lemma_sum_counts_monotone, sum_c_log_c,
};
use crate::logfp::{lemma_log2_fp_bounds, log2_fixed, log2_fp};
use crate::pattern::make_idx;
use crate::word::{all_wf, letter_views, Word};

verus! {

// Bounded lookahead. At depth zero a guess scores its one-step entropy.
// At positive depth the guess's partition of the pool is examined: for every
// non-trivial bucket (one that neither pins the secret down to one word nor
// leaves the pool unsplit), the best score any remaining vocabulary word can
// achieve against that bucket at the next-lower depth is computed, and the
// plain average of these per-bucket bests is subtracted from the one-step
// entropy. The guess itself leaves the vocabulary before recursing, and
// recursion only ever enters buckets of size at least two, so an empty pool
// can never be reached from a valid call.

/// Quotient rounded toward zero, matching machine signed division.
pub open spec fn div_trunc(a: int, b: int) -> int {
    if a >= 0 {
        a / b
    } else {
        -((-a) / b)
    }
}

/// The vocabulary with every word spelling the letters `q` removed.
pub open spec fn vocab_without(vocab: Seq<Seq<u8>>, q: Seq<u8>, k: int) -> Seq<Seq<u8>>
    decreases k,
{
    if k <= 0 {
        Seq::empty()
    } else {
        let pre = vocab_without(vocab, q, k - 1);
        if vocab[k - 1] != q {
            pre.push(vocab[k - 1])
        } else {
            pre
        }
    }
}

/// The depth-adjusted score of guessing `q` against `pool` with lookahead
/// through `vocab`: one-step entropy at depth zero; at positive depth, the
/// entropy minus the average best follow-up score over the non-trivial
/// buckets.
pub open spec fn deep_score(q: Seq<u8>, pool: Seq<Seq<u8>>, vocab: Seq<Seq<u8>>, depth: int) -> int
    decreases depth, 2int, 0int,
{
    if depth <= 0 {
        entropy_fp(q, pool)
    } else {
        let vw = vocab_without(vocab, q, vocab.len() as int);
        if vw.len() == 0 {
            entropy_fp(q, pool)
        } else {
            let sums = bucket_deep_sums(q, pool, vw, depth, 243);
            if sums.1 == 0 {
                entropy_fp(q, pool)
            } else {
                entropy_fp(q, pool) - div_trunc(sums.0, sums.1)
            }
        }
    }
}

/// Over buckets `0 .. bound` of the partition of `pool` by `q`: the sum of
/// the best follow-up scores of the non-trivial buckets, and how many such
/// buckets there are.
pub open spec fn bucket_deep_sums(
    q: Seq<u8>,
    pool: Seq<Seq<u8>>,
    vw: Seq<Seq<u8>>,
    depth: int,
    bound: int,
) -> (int, int)
    decreases depth, 1int, bound,
{
    if bound <= 0 || depth <= 0 {
        (0, 0)
    } else {
        let prev = bucket_deep_sums(q, pool, vw, depth, bound - 1);
        let b = bucket_words(q, pool, bound - 1);
        if 1 < b.len() < pool.len() {
            (prev.0 + best_sub_score(b, vw, depth - 1, vw.len() as int), prev.1 + 1)
        } else {
            prev
        }
    }
}

/// The best score any of the first `j` vocabulary words achieves against
/// `bucket` at the given depth.
pub open spec fn best_sub_score(bucket: Seq<Seq<u8>>, vw: Seq<Seq<u8>>, depth: int, j: int) -> int
    decreases depth, 3int, j,
{
    if j <= 1 {
        deep_score(vw[0], bucket, vw, depth)
    } else {
        let prev = best_sub_score(bucket, vw, depth, j - 1);
        let cur = deep_score(vw[j - 1], bucket, vw, depth);
        if cur > prev {
            cur
        } else {
            prev
        }
    }
}

pub proof fn lemma_div_trunc_bound(a: int, b: int, m: int)
    requires
        b >= 1,
        m >= 0,
        -(b * m) <= a <= b * m,
    ensures
        -m <= div_trunc(a, b) <= m,
{
    lemma_mul_is_commutative(b, m);
    lemma_div_multiples_vanish(m, b);
    if a >= 0 {
        lemma_div_pos_is_pos(a, b);
        lemma_div_is_ordered(a, b * m, b);
    } else {
        lemma_div_pos_is_pos(-a, b);
        lemma_div_is_ordered(-a, b * m, b);
    }
}

/// Scores are bounded: with `M` the bound on a single entropy, a score at
/// depth `d` lies within `(d + 1) * M` of zero.
pub proof fn lemma_deep_score_bound(q: Seq<u8>, pool: Seq<Seq<u8>>, vocab: Seq<Seq<u8>>, depth: int)
    requires
        1 <= pool.len() <= 0x8000_0000,
        depth >= 0,
    ensures
        -((depth + 1) * 0x20_0000) <= deep_score(q, pool, vocab, depth) <= (depth + 1) * 0x20_0000,
    decreases depth, 2int, 0int,
{
    lemma_entropy_bounds(q, pool);
    crate::logfp::lemma_log2_fp_bounds(pool.len() as int);
    assert(0x20_0000 <= (depth + 1) * 0x20_0000) by {
        lemma_mul_inequality(1, depth + 1, 0x20_0000);
        lemma_mul_is_commutative(depth + 1, 0x20_0000);
    }
    assert((depth + 1) * 0x20_0000 == depth * 0x20_0000 + 0x20_0000) by {
        lemma_mul_is_distributive_add(0x20_0000, depth, 1);
        lemma_mul_is_commutative(0x20_0000, depth + 1);
        lemma_mul_is_commutative(0x20_0000, depth);
    }
    if depth > 0 {
        let vw = vocab_without(vocab, q, vocab.len() as int);
        if vw.len() > 0 {
            let sums = bucket_deep_sums(q, pool, vw, depth, 243);
            lemma_bucket_sums_bound(q, pool, vw, depth, 243);
            if sums.1 != 0 {
                lemma_div_trunc_bound(sums.0, sums.1, depth * 0x20_0000);
                assert(sums.1 * (depth * 0x20_0000) <= 243 * (depth * 0x20_0000)) by {
                    lemma_mul_nonnegative(depth, 0x20_0000);
                    lemma_mul_inequality(sums.1, 243, depth * 0x20_0000);
                }
            }
        }
    }
}

/// The accumulated bucket sums stay proportional to the number of buckets
/// counted.
pub proof fn lemma_bucket_sums_bound(
    q: Seq<u8>,
    pool: Seq<Seq<u8>>,
    vw: Seq<Seq<u8>>,
    depth: int,
    bound: int,
)
    requires
        1 <= pool.len() <= 0x8000_0000,
        depth >= 1,
        bound >= 0,
        vw.len() >= 1,
    ensures
        0 <= bucket_deep_sums(q, pool, vw, depth, bound).1 <= bound,
        -(bucket_deep_sums(q, pool, vw, depth, bound).1 * (depth * 0x20_0000)) <= bucket_deep_sums(
            q,
            pool,
            vw,
            depth,
            bound,
        ).0 <= bucket_deep_sums(q, pool, vw, depth, bound).1 * (depth * 0x20_0000),
    decreases depth, 1int, bound,
{
    lemma_mul_nonnegative(depth, 0x20_0000);
    if bound > 0 {
        lemma_bucket_sums_bound(q, pool, vw, depth, bound - 1);
        let prev = bucket_deep_sums(q, pool, vw, depth, bound - 1);
        let b = bucket_words(q, pool, bound - 1);
        if 1 < b.len() < pool.len() {
            lemma_best_sub_bound(b, vw, depth - 1, vw.len() as int);
            assert((prev.1 + 1) * (depth * 0x20_0000) == prev.1 * (depth * 0x20_0000) + depth
                * 0x20_0000) by {
                lemma_mul_is_distributive_add(depth * 0x20_0000, prev.1, 1);
                lemma_mul_is_commutative(depth * 0x20_0000, prev.1 + 1);
                lemma_mul_is_commutative(depth * 0x20_0000, prev.1);
            }
        } else {
            assert(prev.1 * (depth * 0x20_0000) <= (prev.1 + 1) * (depth * 0x20_0000)) by {
                lemma_mul_inequality(prev.1, prev.1 + 1, depth * 0x20_0000);
            }
        }
    }
}

/// The best follow-up score over any vocabulary prefix obeys the same bound
/// as a single score.
pub proof fn lemma_best_sub_bound(bucket: Seq<Seq<u8>>, vw: Seq<Seq<u8>>, depth: int, j: int)
    requires
        1 <= bucket.len() <= 0x8000_0000,
        depth >= 0,
        1 <= j,
    ensures
        -((depth + 1) * 0x20_0000) <= best_sub_score(bucket, vw, depth, j) <= (depth + 1)
            * 0x20_0000,
    decreases depth, 3int, j,
{
    if j <= 1 {
        lemma_deep_score_bound(vw[0], bucket, vw, depth);
    } else {
        lemma_best_sub_bound(bucket, vw, depth, j - 1);
        lemma_deep_score_bound(vw[j - 1], bucket, vw, depth);
    }
}

/// What every scoring call expects of its inputs: well-formed words, and a
/// non-empty pool small enough for the fixed-point arithmetic.
pub open spec fn score_inputs_ok(q: Word, legal: Seq<Word>, pool: Seq<Word>) -> bool {
    &&& q.wf()
    &&& all_wf(legal)
    &&& all_wf(pool)
    &&& 1 <= pool.len() <= 0x8000_0000
}

/// Scores every vocabulary word against the pool, fanning the independent
/// evaluations out across worker threads. Each evaluation owns its private
/// state, so no result depends on scheduling.
///
/// Relies on rayon's `par_iter().map(..).collect::<Vec<_>>()`: an indexed
/// parallel map collected into a `Vec` yields exactly one result per input,
/// in input order; the closure only calls this library's verified scorer,
/// whose contract pins each result to a deterministic value.
#[verifier::external_body]
pub fn calc_entropy_for_words(
    legal_words: &Vec<Word>,
    word_chars: &Vec<Word>,
    depth: u32,
) -> (r: Vec<(String, i64)>)
    requires
        all_wf(legal_words@),
        all_wf(word_chars@),
        1 <= word_chars@.len() <= 0x8000_0000,
    ensures
        r@.len() == legal_words@.len(),
        forall|i: int|
            0 <= i < r@.len() ==> (#[trigger] r@[i]).0@ == legal_words@[i].s@ && r@[i].1
                == deep_score(
                legal_words@[i].w@,
                letter_views(word_chars@),
                letter_views(legal_words@),
                depth as int,
            ),
{
    legal_words
        .par_iter()
        .map(|x| (x.s.clone(), score_word(x, legal_words, word_chars, depth)))
        .collect()
}

/// The score of one guess against a non-empty pool: the one-step entropy of
/// its partition at depth zero, and the depth-adjusted net score otherwise,
/// exactly as `deep_score` states.
pub(crate) fn score_word(
    q: &Word,
    legal_words: &Vec<Word>,
    word_chars: &Vec<Word>,
    depth: u32,
) -> (r: i64)
    requires
        score_inputs_ok(*q, legal_words@, word_chars@),
    ensures
        r == deep_score(
            q.w@,
            letter_views(word_chars@),
            letter_views(legal_words@),
            depth as int,
        ),
        depth == 0 ==> 0 <= r <= log2_fp(word_chars@.len() as int),
        word_chars@.len() == 1 ==> r == 0,
{
    let ghost gw: Seq<u8> = q.w@;
    let ghost pool_v: Seq<Seq<u8>> = letter_views(word_chars@);
    let ghost vocab_v: Seq<Seq<u8>> = letter_views(legal_words@);
    let n = word_chars.len();

    // Bucket sizes of the partition of the pool by this guess.
    let mut counts: Vec<u32> = Vec::new();
    for m in 0..243usize
        invariant
            counts@.len() == m,
            forall|t: int| 0 <= t < m ==> #[trigger] counts@[t] == 0,
    {
        counts.push(0);
    }
    proof {
        assert forall|t: int| 0 <= t < 243 implies #[trigger] counts@[t]
            == bucket_prefix(gw, pool_v, 0, t).len() by {}
    }
    for j in 0..n
        invariant
            score_inputs_ok(*q, legal_words@, word_chars@),
            gw == q.w@,
            pool_v == letter_views(word_chars@),
            n == word_chars@.len(),
            counts@.len() == 243,
            forall|t: int|
                0 <= t < 243 ==> #[trigger] counts@[t] == bucket_prefix(gw, pool_v, j as int, t).len(),
    {
        let idx = make_idx(q, &word_chars[j]);
        proof {
            lemma_bucket_prefix_len_le(gw, pool_v, j as int, idx as int);
            assert(pool_v[j as int] == word_chars@[j as int].w@);
        }
        counts[idx] = counts[idx] + 1;
        proof {
            assert forall|t: int| 0 <= t < 243 implies #[trigger] counts@[t]
                == bucket_prefix(gw, pool_v, j + 1, t).len() by {
                assert(crate::pattern::pattern_code(gw, pool_v[j as int]) == idx as int);
            }
        }
    }

    // One-step entropy from the bucket sizes.
    let nl: u64 = log2_fixed(n as u64);
    let mut sum: u64 = 0;
    for m in 0..243usize
        invariant
            score_inputs_ok(*q, legal_words@, word_chars@),
            gw == q.w@,
            pool_v == letter_views(word_chars@),
            n == word_chars@.len(),
            nl == log2_fp(n as int),
            nl < 0x20_0000,
            counts@.len() == 243,
            forall|t: int|
                0 <= t < 243 ==> #[trigger] counts@[t] == bucket_prefix(gw, pool_v, n as int, t).len(),
            sum == sum_c_log_c(gw, pool_v, m as int),
            sum <= 0x20_0000_0000_0000,
    {
        let c = counts[m];
        proof {
            assert(c as int == bucket_count(gw, pool_v, m as int));
            crate::entropy::lemma_bucket_count_le_pool(gw, pool_v, m as int);
        }
        if c > 0 {
            let lc = log2_fixed(c as u64);
            proof {
                lemma_sum_c_log_c_bounds(gw, pool_v, m + 1);
                lemma_sum_counts_monotone(gw, pool_v, n as int, 0, m + 1);
                lemma_sum_counts_monotone(gw, pool_v, n as int, m + 1, 243);
                lemma_partition_sizes(gw, pool_v);
                lemma_mul_upper_bound(
                    crate::entropy::sum_bucket_counts(gw, pool_v, pool_v.len() as int, m + 1),
                    n as int,
                    log2_fp(n as int),
                    0x1F_FFFF,
                );
                lemma_mul_upper_bound(c as int, n as int, lc as int, 0x1F_FFFF);
                lemma_mul_upper_bound(n as int, 0x8000_0000, 0x1F_FFFF, 0x1F_FFFF);
                lemma_mul_nonnegative(c as int, lc as int);
            }
            sum = sum + (c as u64) * lc;
        }
    }
    proof {
        lemma_sum_c_log_c_bounds(gw, pool_v, 243);
        lemma_partition_sizes(gw, pool_v);
        lemma_mul_upper_bound(n as int, 0x8000_0000, log2_fp(n as int), 0x1F_FFFF);
        lemma_mul_nonnegative(n as int, log2_fp(n as int));
        lemma_entropy_bounds(gw, pool_v);
        if n == 1 {
            lemma_entropy_singleton(gw, pool_v);
        }
    }
    let numer: u64 = (n as u64) * nl - sum;
    let ent_u: u64 = numer / (n as u64);
    proof {
        assert(numer == entropy_numer(gw, pool_v));
        assert(ent_u == entropy_fp(gw, pool_v));
    }
    let ent: i64 = ent_u as i64;

    if depth == 0 {
        return ent;
    }

    // Remove the guess itself from the vocabulary before looking ahead.
    let mut vw: Vec<Word> = Vec::new();
    for t in 0..legal_words.len()
        invariant
            score_inputs_ok(*q, legal_words@, word_chars@),
            gw == q.w@,
            vocab_v == letter_views(legal_words@),
            all_wf(vw@),
            letter_views(vw@) == vocab_without(vocab_v, gw, t as int),
    {
        let cand = &legal_words[t];
        if !cand.same_letters(q) {
            vw.push(cand.duplicate());
        }
        proof {
            assert(vocab_v[t as int] == legal_words@[t as int].w@);
            assert(letter_views(vw@) =~= vocab_without(vocab_v, gw, t + 1));
        }
    }
    let ghost vw_v: Seq<Seq<u8>> = letter_views(vw@);
    proof {
        assert(vw_v == vocab_without(vocab_v, gw, vocab_v.len() as int));
    }
    if vw.len() == 0 {
        return ent;
    }

    // Average, over the non-trivial buckets, of the best follow-up score.
    let mut sum_sub: i64 = 0;
    let mut cnt: u64 = 0;
    for m in 0..243usize
        invariant
            score_inputs_ok(*q, legal_words@, word_chars@),
            gw == q.w@,
            pool_v == letter_views(word_chars@),
            vocab_v == letter_views(legal_words@),
            vw_v == letter_views(vw@),
            vw_v == vocab_without(vocab_v, gw, vocab_v.len() as int),
            all_wf(vw@),
            1 <= vw@.len(),
            depth >= 1,
            n == word_chars@.len(),
            counts@.len() == 243,
            forall|t: int|
                0 <= t < 243 ==> #[trigger] counts@[t] == bucket_prefix(gw, pool_v, n as int, t).len(),
            (sum_sub as int, cnt as int) == bucket_deep_sums(
                gw,
                pool_v,
                vw_v,
                depth as int,
                m as int,
            ),
            cnt <= m,
            n == 1 ==> cnt == 0,
    {
        let c = counts[m];
        proof {
            assert(c as int == bucket_count(gw, pool_v, m as int));
        }
        if c > 1 && (c as usize) < n {
            // Gather this bucket as the sub-pool for the recursive step.
            let mut sub: Vec<Word> = Vec::new();
            for j in 0..n
                invariant
                    score_inputs_ok(*q, legal_words@, word_chars@),
                    gw == q.w@,
                    pool_v == letter_views(word_chars@),
                    n == word_chars@.len(),
                    m < 243,
                    all_wf(sub@),
                    letter_views(sub@) == bucket_prefix(gw, pool_v, j as int, m as int),
            {
                let idx = make_idx(q, &word_chars[j]);
                proof {
                    assert(pool_v[j as int] == word_chars@[j as int].w@);
                }
                if idx == m {
                    sub.push(word_chars[j].duplicate());
                }
                proof {
                    assert(letter_views(sub@) =~= bucket_prefix(gw, pool_v, j + 1, m as int));
                }
            }
            let ghost bucket_v: Seq<Seq<u8>> = letter_views(sub@);
            proof {
                assert(bucket_v == bucket_words(gw, pool_v, m as int));
                assert(sub@.len() == c);
            }
            let scored = calc_entropy_for_words(&vw, &sub, depth - 1);
            let mut best: i64 = scored[0].1;
            proof {
                assert(vw_v[0] == vw@[0].w@);
            }
            let tlen = scored.len();
            for t in 1..tlen
                invariant
                    tlen == scored@.len(),
                    scored@.len() == vw@.len(),
                    vw_v == letter_views(vw@),
                    bucket_v == letter_views(sub@),
                    depth >= 1,
                    forall|u: int|
                        0 <= u < scored@.len() ==> (#[trigger] scored@[u]).1 == deep_score(
                            vw@[u].w@,
                            bucket_v,
                            vw_v,
                            depth - 1,
                        ),
                    best == best_sub_score(bucket_v, vw_v, depth - 1, t as int),
            {
                proof {
                    assert(vw_v[t as int] == vw@[t as int].w@);
                }
                if scored[t].1 > best {
                    best = scored[t].1;
                }
            }
            proof {
                assert(best == best_sub_score(bucket_v, vw_v, depth - 1, vw_v.len() as int));
                lemma_bucket_sums_bound(gw, pool_v, vw_v, depth as int, m as int);
                lemma_bucket_sums_bound(gw, pool_v, vw_v, depth as int, m + 1);
                lemma_sums_fit(bucket_deep_sums(gw, pool_v, vw_v, depth as int, m + 1), depth as int);
            }
            sum_sub = sum_sub + best;
            cnt = cnt + 1;
        }
    }
    if cnt == 0 {
        return ent;
    }
    proof {
        lemma_bucket_sums_bound(gw, pool_v, vw_v, depth as int, 243);
        lemma_sums_fit(bucket_deep_sums(gw, pool_v, vw_v, depth as int, 243), depth as int);
        lemma_div_trunc_bound(sum_sub as int, cnt as int, (depth as int) * 0x20_0000);
        lemma_mul_upper_bound(depth as int, 0xFFFF_FFFF, 0x20_0000, 0x20_0000);
    }
    let adjust: i64 = if sum_sub >= 0 {
        ((sum_sub as u64) / cnt) as i64
    } else {
        -((((-sum_sub) as u64) / cnt) as i64)
    };
    ent - adjust
}

/// The score of one guess: the one-step entropy of its partition of the pool
/// at depth zero, and the depth-adjusted net score otherwise, exactly as
/// `deep_score` states. Scoring an empty pool is a distinguishable error,
/// never a silent zero. Cost grows multiplicatively with `depth` (each level
/// multiplies by the vocabulary size and the bucket count), so callers keep
/// `depth` small.
pub fn calc_entropy_for_word(
    q: &Word,
    legal_words: &Vec<Word>,
    word_chars: &Vec<Word>,
    depth: u32,
) -> (r: Result<i64, SolverError>)
    requires
        q.wf(),
        all_wf(legal_words@),
        all_wf(word_chars@),
        word_chars@.len() <= 0x8000_0000,
    ensures
        r is Ok <==> word_chars@.len() >= 1,
        r is Err ==> r->Err_0 == SolverError::EmptyCandidatePool,
        r is Ok ==> r->Ok_0 == deep_score(
            q.w@,
            letter_views(word_chars@),
            letter_views(legal_words@),
            depth as int,
        ),
        r is Ok && depth == 0 ==> 0 <= r->Ok_0 <= log2_fp(word_chars@.len() as int),
        word_chars@.len() == 1 ==> r->Ok_0 == 0,
{
    if word_chars.len() == 0 {
        return Err(SolverError::EmptyCandidatePool);
    }
    Ok(score_word(q, legal_words, word_chars, depth))
}

/// The accumulated sums stay well inside the 64-bit range.
proof fn lemma_sums_fit(sums: (int, int), depth: int)
    requires
        1 <= depth <= 0xFFFF_FFFF,
        0 <= sums.1 <= 243,
        -(sums.1 * (depth * 0x20_0000)) <= sums.0 <= sums.1 * (depth * 0x20_0000),
    ensures
        -0x1E60_0000_0000_0000 <= sums.0 <= 0x1E60_0000_0000_0000,
{
    lemma_mul_nonnegative(depth, 0x20_0000);
    assert(depth * 0x20_0000 <= 0xFFFF_FFFF * 0x20_0000) by {
        lemma_mul_inequality(depth, 0xFFFF_FFFF, 0x20_0000);
    }
    assert(sums.1 * (depth * 0x20_0000) <= 243 * (depth * 0x20_0000)) by {
        lemma_mul_inequality(sums.1, 243, depth * 0x20_0000);
    }
    assert(243 * (depth * 0x20_0000) <= 243 * (0xFFFF_FFFF * 0x20_0000)) by {
        lemma_mul_inequality(depth * 0x20_0000, 0xFFFF_FFFFint * 0x20_0000, 243);
        lemma_mul_is_commutative(depth * 0x20_0000, 243);
        lemma_mul_is_commutative(0xFFFF_FFFFint * 0x20_0000, 243);
    }
}

} // verus!
