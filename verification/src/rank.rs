use vstd::prelude::*;
use crate::errors::SolverError;
use crate::search::{calc_entropy_for_words, deep_score, score_inputs_ok, score_word};
use crate::word::{all_wf, letter_views, letters_of, valid_word_chars, Word};

verus! {

// Candidate ranking: every vocabulary word is scored against the pool and
// the vocabulary is ordered by score, descending, with ties broken by the
// original input order. That stable tie-break is deliberate policy: it makes
// the ranking a pure function of the scores and the input order.

/// Index `a` ranks strictly before index `b`: higher score first, earlier
/// input position on equal scores.
pub open spec fn ranked_before(s: Seq<i64>, a: int, b: int) -> bool {
    s[a] > s[b] || (s[a] == s[b] && a < b)
}

/// `p` is the ranking permutation of the scores `s`: it lists each index of
/// `s` once, ordered by `ranked_before`. Strict order makes the listed
/// indices pairwise distinct, and there are as many of them as scores, so
/// every index appears.
pub open spec fn is_rank_perm(s: Seq<i64>, p: Seq<usize>) -> bool {
    &&& p.len() == s.len()
    &&& forall|i: int| 0 <= i < p.len() ==> (#[trigger] p[i]) < s.len()
    &&& forall|i: int, j: int|
        0 <= i < j < p.len() ==> ranked_before(s, p[i] as int, p[j] as int)
}

/// Ranking is internally consistent: the first ranked element's score is at
/// least the score of every ranked element.
pub proof fn lemma_rank_first_is_max(s: Seq<i64>, p: Seq<usize>)
    requires
        is_rank_perm(s, p),
        p.len() >= 1,
    ensures
        forall|i: int| 0 <= i < p.len() ==> s[p[0] as int] >= s[(#[trigger] p[i]) as int],
{
    assert forall|i: int| 0 <= i < p.len() implies s[p[0] as int] >= s[(#[trigger] p[i]) as int] by {
        if i > 0 {
            assert(ranked_before(s, p[0] as int, p[i] as int));
        }
    }
}

/// Every index of the scores occurs somewhere in a ranking permutation.
proof fn lemma_rank_perm_contains(s: Seq<i64>, p: Seq<usize>, b: int)
    requires
        is_rank_perm(s, p),
        0 <= b < s.len(),
    ensures
        exists|j: int| 0 <= j < p.len() && p[j] == b,
{
    let n = s.len() as int;
    assert(p.no_duplicates()) by {
        assert forall|i: int, j: int| 0 <= i < j < p.len() implies p[i] != p[j] by {
            assert(ranked_before(s, p[i] as int, p[j] as int));
        }
    }
    let f = |x: usize| x as int;
    assert(vstd::relations::injective(f)) by {
        assert forall|x1: usize, x2: usize| #[trigger] f(x1) == #[trigger] f(x2) implies x1
            == x2 by {}
    }
    let pi = p.map_values(f);
    p.lemma_no_duplicates_injective(f);
    pi.unique_seq_to_set();
    vstd::set_lib::lemma_int_range(0, n);
    assert(pi.to_set().subset_of(vstd::set_lib::set_int_range(0, n))) by {
        assert forall|x: int| pi.to_set().contains(x) implies vstd::set_lib::set_int_range(
            0,
            n,
        ).contains(x) by {
            let j = choose|j: int| 0 <= j < pi.len() && pi[j] == x;
            assert(pi[j] == p[j] as int);
        }
    }
    vstd::set_lib::lemma_len_subset(pi.to_set(), vstd::set_lib::set_int_range(0, n));
    vstd::set_lib::lemma_subset_equality(pi.to_set(), vstd::set_lib::set_int_range(0, n));
    assert(vstd::set_lib::set_int_range(0, n).contains(b));
    assert(pi.contains(b));
    let j = choose|j: int| 0 <= j < pi.len() && pi[j] == b;
    assert(pi[j] == p[j] as int);
    assert(0 <= j < p.len() && p[j] == b);
}

proof fn lemma_rank_perm_prefix_unique(s: Seq<i64>, p1: Seq<usize>, p2: Seq<usize>, i: int)
    requires
        is_rank_perm(s, p1),
        is_rank_perm(s, p2),
        0 <= i <= s.len(),
    ensures
        forall|j: int| 0 <= j < i ==> p1[j] == p2[j],
    decreases i,
{
    if i > 0 {
        lemma_rank_perm_prefix_unique(s, p1, p2, i - 1);
        let a = p1[i - 1] as int;
        let b = p2[i - 1] as int;
        if a != b {
            lemma_rank_perm_contains(s, p2, a);
            let ja = choose|j: int| 0 <= j < p2.len() && p2[j] == a;
            lemma_rank_perm_contains(s, p1, b);
            let jb = choose|j: int| 0 <= j < p1.len() && p1[j] == b;
            if ja < i - 1 {
                // `a` would then already occur earlier in both lists, making
                // it a duplicate of p1, which the strict order forbids.
                assert(p1[ja] == p2[ja]);
                assert(ranked_before(s, p1[ja] as int, p1[i - 1] as int));
                assert(false);
            }
            if jb < i - 1 {
                assert(p1[jb] == p2[jb]);
                assert(ranked_before(s, p2[jb] as int, p2[i - 1] as int));
                assert(false);
            }
            // Both remainders start at position i - 1, so each head ranks
            // strictly before the other: impossible.
            assert(ja > i - 1);
            assert(jb > i - 1);
            assert(ranked_before(s, b, a));
            assert(ranked_before(s, a, b));
            assert(false);
        }
    }
}

/// The ranking permutation of a score list is unique: any two orderings that
/// satisfy `is_rank_perm` are equal, so the ranking contract pins the result
/// completely.
pub proof fn lemma_rank_perm_unique(s: Seq<i64>, p1: Seq<usize>, p2: Seq<usize>)
    requires
        is_rank_perm(s, p1),
        is_rank_perm(s, p2),
    ensures
        p1 == p2,
{
    lemma_rank_perm_prefix_unique(s, p1, p2, s.len() as int);
    assert(p1 =~= p2);
}

/// Orders the indices of `scores` by descending score, ties by input order:
/// the ranking permutation.
pub fn rank_order(scores: &Vec<i64>) -> (perm: Vec<usize>)
    ensures
        is_rank_perm(scores@, perm@),
{
    let n = scores.len();
    let mut perm: Vec<usize> = Vec::new();
    for j in 0..n
        invariant
            n == scores@.len(),
            perm@.len() == j,
            forall|i: int| 0 <= i < perm@.len() ==> (#[trigger] perm@[i]) < j,
            forall|i1: int, i2: int|
                0 <= i1 < i2 < perm@.len() ==> ranked_before(
                    scores@,
                    perm@[i1] as int,
                    perm@[i2] as int,
                ),
    {
        let mut pos: usize = 0;
        while pos < perm.len() && scores[perm[pos]] >= scores[j]
            invariant
                n == scores@.len(),
                j < n,
                perm@.len() == j,
                forall|i: int| 0 <= i < perm@.len() ==> (#[trigger] perm@[i]) < j,
                forall|i1: int, i2: int|
                    0 <= i1 < i2 < perm@.len() ==> ranked_before(
                        scores@,
                        perm@[i1] as int,
                        perm@[i2] as int,
                    ),
                pos <= perm@.len(),
                forall|t: int|
                    0 <= t < pos ==> scores@[(#[trigger] perm@[t]) as int] >= scores@[j as int],
            decreases perm@.len() - pos,
        {
            pos = pos + 1;
        }
        let ghost old_perm: Seq<usize> = perm@;
        perm.insert(pos, j);
        proof {
            old_perm.insert_ensures(pos as int, j);
            assert forall|i1: int, i2: int|
                0 <= i1 < i2 < perm@.len() implies ranked_before(
                scores@,
                perm@[i1] as int,
                perm@[i2] as int,
            ) by {
                if i2 < pos {
                } else if i1 < pos && i2 == pos {
                    assert(perm@[i1] == old_perm[i1]);
                    assert(perm@[i2] == j);
                } else if i1 < pos && i2 > pos {
                    assert(perm@[i1] == old_perm[i1]);
                    assert(perm@[i2] == old_perm[i2 - 1]);
                    assert(i1 < i2 - 1);
                } else if i1 == pos {
                    assert(perm@[i1] == j);
                    assert(perm@[i2] == old_perm[i2 - 1]);
                    assert(scores@[old_perm[pos as int] as int] < scores@[j as int]);
                    if i2 - 1 > pos {
                        assert(ranked_before(scores@, old_perm[pos as int] as int, old_perm[i2 - 1] as int));
                    }
                } else {
                    assert(perm@[i1] == old_perm[i1 - 1]);
                    assert(perm@[i2] == old_perm[i2 - 1]);
                }
            }
        }
    }
    perm
}

/// The smaller of two values.
pub open spec fn min_int(a: int, b: int) -> int {
    if a <= b {
        a
    } else {
        b
    }
}

/// The letters of each word in a list of strings.
pub open spec fn string_letter_views(ss: Seq<String>) -> Seq<Seq<u8>> {
    Seq::new(ss.len(), |i: int| letters_of(ss[i]@))
}

/// Every string in the list is a valid game word.
pub open spec fn all_valid(ss: Seq<String>) -> bool {
    forall|i: int| 0 <= i < ss.len() ==> valid_word_chars((#[trigger] ss[i])@)
}

/// The depth-zero score of every vocabulary word against the pool, in
/// vocabulary order.
pub open spec fn depth0_scores(vocab: Seq<Seq<u8>>, pool: Seq<Seq<u8>>) -> Seq<i64> {
    Seq::new(vocab.len(), |i: int| deep_score(vocab[i], pool, vocab, 0) as i64)
}

/// Among the first `kk` ranked guesses, the vocabulary index and score of
/// the one with the best depth-adjusted score, earlier rank winning ties.
pub open spec fn shortlist_best(
    vocab: Seq<Seq<u8>>,
    pool: Seq<Seq<u8>>,
    p: Seq<usize>,
    kk: int,
    depth: int,
) -> (int, int)
    decreases kk,
{
    if kk <= 1 {
        (p[0] as int, deep_score(vocab[p[0] as int], pool, vocab, depth))
    } else {
        let prev = shortlist_best(vocab, pool, p, kk - 1, depth);
        let cur = deep_score(vocab[p[kk - 1] as int], pool, vocab, depth);
        if cur > prev.1 {
            (p[kk - 1] as int, cur)
        } else {
            prev
        }
    }
}

/// Picks the best next guess: every legal word is scored against the pool,
/// the top `k` by one-step entropy are re-scored with `depth` levels of
/// lookahead, and the best of those is returned with its score.
///
/// A malformed word in either list fails the whole run with
/// `LengthMismatch`; an empty pool is a distinguishable error, never a
/// silent zero score; `k` must be positive, while `depth` zero simply means
/// no lookahead.
pub fn get_best_word(
    words: &Vec<String>,
    legal_words: &Vec<String>,
    k: usize,
    depth: u32,
) -> (r: Result<(String, i64), SolverError>)
    requires
        legal_words@.len() >= 1,
        words@.len() <= 0x8000_0000,
    ensures
        r is Ok <==> (k >= 1 && all_valid(words@) && all_valid(legal_words@) && words@.len() >= 1),
        (r == Result::<(String, i64), SolverError>::Err(SolverError::InvalidDepthOrK)) <==> k == 0,
        k >= 1 ==> ((r == Result::<(String, i64), SolverError>::Err(SolverError::LengthMismatch))
            <==> !(all_valid(words@) && all_valid(legal_words@))),
        k >= 1 && all_valid(words@) && all_valid(legal_words@) ==> ((r == Result::<
            (String, i64),
            SolverError,
        >::Err(SolverError::EmptyCandidatePool)) <==> words@.len() == 0),
        r is Ok ==> exists|p: Seq<usize>|
            {
                &&& #[trigger] is_rank_perm(
                    depth0_scores(string_letter_views(legal_words@), string_letter_views(words@)),
                    p,
                )
                &&& r->Ok_0.0@ == legal_words@[shortlist_best(
                    string_letter_views(legal_words@),
                    string_letter_views(words@),
                    p,
                    min_int(k as int, legal_words@.len() as int),
                    depth as int,
                ).0]@
                &&& r->Ok_0.1 == shortlist_best(
                    string_letter_views(legal_words@),
                    string_letter_views(words@),
                    p,
                    min_int(k as int, legal_words@.len() as int),
                    depth as int,
                ).1
            },
{
    if k == 0 {
        return Err(SolverError::InvalidDepthOrK);
    }
    let mut word_chars: Vec<Word> = Vec::new();
    for i in 0..words.len()
        invariant
            k >= 1,
            word_chars@.len() == i,
            i <= words@.len(),
            forall|t: int| 0 <= t < i ==> valid_word_chars((#[trigger] words@[t])@),
            forall|t: int| 0 <= t < i ==> (#[trigger] word_chars@[t]).wf(),
            forall|t: int|
                0 <= t < i ==> (#[trigger] word_chars@[t]).w@ == letters_of(words@[t]@),
    {
        let wd = match Word::new(words[i].as_str()) {
            Ok(w) => w,
            Err(e) => {
                return Err(e);
            },
        };
        word_chars.push(wd);
    }
    let mut legal_chars: Vec<Word> = Vec::new();
    for i in 0..legal_words.len()
        invariant
            k >= 1,
            all_valid(words@),
            legal_chars@.len() == i,
            i <= legal_words@.len(),
            forall|t: int| 0 <= t < i ==> valid_word_chars((#[trigger] legal_words@[t])@),
            forall|t: int| 0 <= t < i ==> (#[trigger] legal_chars@[t]).wf(),
            forall|t: int|
                0 <= t < i ==> (#[trigger] legal_chars@[t]).w@ == letters_of(legal_words@[t]@),
    {
        let wd = match Word::new(legal_words[i].as_str()) {
            Ok(w) => w,
            Err(e) => {
                return Err(e);
            },
        };
        legal_chars.push(wd);
    }
    if word_chars.len() == 0 {
        return Err(SolverError::EmptyCandidatePool);
    }

    let ghost pool_l: Seq<Seq<u8>> = string_letter_views(words@);
    let ghost vocab_l: Seq<Seq<u8>> = string_letter_views(legal_words@);
    proof {
        assert(letter_views(word_chars@) =~= pool_l);
        assert(letter_views(legal_chars@) =~= vocab_l);
    }

    let scored = calc_entropy_for_words(&legal_chars, &word_chars, 0);
    let mut scores: Vec<i64> = Vec::new();
    for i in 0..scored.len()
        invariant
            scored@.len() == legal_chars@.len(),
            scores@.len() == i,
            i <= scored@.len(),
            forall|t: int| 0 <= t < i ==> #[trigger] scores@[t] == scored@[t].1,
    {
        scores.push(scored[i].1);
    }
    proof {
        assert(scores@ =~= depth0_scores(vocab_l, pool_l));
    }
    let perm = rank_order(&scores);
    let kk = if k <= legal_chars.len() {
        k
    } else {
        legal_chars.len()
    };

    let vi0 = perm[0];
    let mut best_vi: usize = vi0;
    let mut best_score: i64 = score_word(&legal_chars[vi0], &legal_chars, &word_chars, depth);
    proof {
        assert(vocab_l[vi0 as int] == legal_chars@[vi0 as int].w@);
    }
    for i in 1..kk
        invariant
            all_wf(legal_chars@),
            all_wf(word_chars@),
            1 <= word_chars@.len() <= 0x8000_0000,
            pool_l == letter_views(word_chars@),
            vocab_l == letter_views(legal_chars@),
            is_rank_perm(scores@, perm@),
            scores@.len() == legal_chars@.len(),
            1 <= kk <= perm@.len(),
            i <= kk,
            best_vi < legal_chars@.len(),
            (best_vi as int, best_score as int) == shortlist_best(
                vocab_l,
                pool_l,
                perm@,
                i as int,
                depth as int,
            ),
    {
        let vi = perm[i];
        let cand_score = score_word(&legal_chars[vi], &legal_chars, &word_chars, depth);
        proof {
            assert(vocab_l[vi as int] == legal_chars@[vi as int].w@);
        }
        if cand_score > best_score {
            best_vi = vi;
            best_score = cand_score;
        }
    }
    let text = legal_words[best_vi].clone();
    proof {
        assert((best_vi as int, best_score as int) == shortlist_best(
            vocab_l,
            pool_l,
            perm@,
            kk as int,
            depth as int,
        ));
    }
    Ok((text, best_score))
}

} // verus!
