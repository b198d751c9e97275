use wordle_entropy::errors::SolverError;
use wordle_entropy::logfp::{log2_fixed, SCORE_ONE};
use wordle_entropy::search::{calc_entropy_for_word, calc_entropy_for_words};
use wordle_entropy::word::Word;

fn words(ss: &[&str]) -> Vec<Word> {
    ss.iter().map(|s| Word::new(s).unwrap()).collect()
}

// A score of SCORE_ONE is exactly one bit of entropy.
const ONE_BIT: i64 = SCORE_ONE as i64;

#[test]
fn test_singleton_pool_has_zero_entropy() {
    // Pool = {"rebut"}, guess = "rebut": the pattern is all Green and the
    // entropy is exactly zero.
    let pool = words(&["rebut"]);
    let vocab = words(&["rebut"]);
    let score = calc_entropy_for_word(&pool[0], &vocab, &pool, 0).unwrap();
    assert_eq!(score, 0);
}

#[test]
fn test_singleton_pool_zero_for_any_guess() {
    let pool = words(&["melon"]);
    let vocab = words(&["rebut", "melon"]);
    let guess = Word::new("rebut").unwrap();
    assert_eq!(calc_entropy_for_word(&guess, &vocab, &pool, 0).unwrap(), 0);
}

#[test]
fn test_full_split_of_two_gives_one_bit() {
    // The guess separates the two candidates into different buckets, so the
    // entropy is exactly one bit.
    let pool = words(&["aaaaa", "bbbbb"]);
    let vocab = words(&["aaaaa"]);
    let score = calc_entropy_for_word(&vocab[0], &vocab, &pool, 0).unwrap();
    assert_eq!(score, ONE_BIT);
}

#[test]
fn test_full_split_of_four_gives_two_bits() {
    let pool = words(&["aaaaa", "bbbbb", "ccccc", "ddddd"]);
    let guess = Word::new("abcde").unwrap();
    let vocab = words(&["abcde"]);
    let score = calc_entropy_for_word(&guess, &vocab, &pool, 0).unwrap();
    assert_eq!(score, 2 * ONE_BIT);
}

#[test]
fn test_no_split_gives_zero_entropy() {
    // The guess shares no letters with any candidate: one bucket holds the
    // whole pool, which yields no information.
    let pool = words(&["aaaaa", "aaaab", "aaaba"]);
    let guess = Word::new("zzzzz").unwrap();
    let vocab = words(&["zzzzz"]);
    let score = calc_entropy_for_word(&guess, &vocab, &pool, 0).unwrap();
    assert_eq!(score, 0);
}

#[test]
fn test_full_split_of_three_matches_log2_three() {
    // Three candidates, fully separated: the entropy equals the fixed-point
    // binary logarithm of three exactly.
    let pool = words(&["aaaaa", "bbbbb", "ccccc"]);
    let guess = Word::new("abcde").unwrap();
    let vocab = words(&["abcde"]);
    let score = calc_entropy_for_word(&guess, &vocab, &pool, 0).unwrap();
    assert_eq!(score as u64, log2_fixed(3));
}

#[test]
fn test_score_within_documented_bounds() {
    // For every guess and non-empty pool the score lies in
    // [0, log2(min(3^5, pool size))].
    let pool = words(&[
        "crane", "slate", "adieu", "audio", "roate", "raise", "soare", "tares",
    ]);
    let vocab = words(&["crane", "slate", "adieu", "salet"]);
    let bound = log2_fixed(pool.len() as u64) as i64;
    for g in &vocab {
        let score = calc_entropy_for_word(g, &vocab, &pool, 0).unwrap();
        assert!(0 <= score && score <= bound);
    }
}

#[test]
fn test_empty_pool_is_an_error() {
    // Scoring against an empty pool is a distinguishable error, never a
    // silently returned zero score.
    let pool: Vec<Word> = Vec::new();
    let vocab = words(&["crane"]);
    assert_eq!(
        calc_entropy_for_word(&vocab[0], &vocab, &pool, 0),
        Err(SolverError::EmptyCandidatePool)
    );
}

#[test]
fn test_parallel_scores_match_sequential_scores() {
    // The parallel fan-out returns exactly one (word, score) pair per
    // vocabulary word, in input order, each equal to the sequential score.
    let pool = words(&["crane", "slate", "adieu", "audio", "roate"]);
    let vocab = words(&["crane", "slate", "adieu"]);
    let scored = calc_entropy_for_words(&vocab, &pool, 0);
    assert_eq!(scored.len(), vocab.len());
    for (i, (text, score)) in scored.iter().enumerate() {
        assert_eq!(text, &vocab[i].s);
        assert_eq!(*score, calc_entropy_for_word(&vocab[i], &vocab, &pool, 0).unwrap());
    }
}
