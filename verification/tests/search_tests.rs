use wordle_entropy::errors::SolverError;
use wordle_entropy::rank::{get_best_word, rank_order};
use wordle_entropy::search::{calc_entropy_for_word, calc_entropy_for_words};
use wordle_entropy::word::Word;

fn words(ss: &[&str]) -> Vec<Word> {
    ss.iter().map(|s| Word::new(s).unwrap()).collect()
}

fn strings(ss: &[&str]) -> Vec<String> {
    ss.iter().map(|s| s.to_string()).collect()
}

#[test]
fn test_rank_order_sorts_descending() {
    let scores: Vec<i64> = vec![3, 9, 1, 9, 5];
    let perm = rank_order(&scores);
    // Descending by score; the two nines keep their input order.
    assert_eq!(perm, vec![1, 3, 4, 0, 2]);
}

#[test]
fn test_rank_order_is_stable_on_ties() {
    let scores: Vec<i64> = vec![7, 7, 7];
    let perm = rank_order(&scores);
    assert_eq!(perm, vec![0, 1, 2]);
}

#[test]
fn test_rank_first_element_is_max() {
    // Rank at depth 0 is internally consistent: the first element's score is
    // at least every other element's score.
    let pool = words(&[
        "crane", "slate", "adieu", "audio", "roate", "raise", "mamma", "fuzzy",
    ]);
    let vocab = words(&["crane", "slate", "mamma", "fuzzy", "adieu"]);
    let scored = calc_entropy_for_words(&vocab, &pool, 0);
    let scores: Vec<i64> = scored.iter().map(|p| p.1).collect();
    let perm = rank_order(&scores);
    for &i in &perm {
        assert!(scores[perm[0]] >= scores[i]);
    }
}

#[test]
fn test_deep_score_without_splittable_bucket_equals_entropy() {
    // Every bucket is a singleton, so depth-1 lookahead has nothing to
    // recurse into and the net score equals the plain entropy.
    let pool = words(&["aaaaa", "bbbbb"]);
    let vocab = words(&["aaaaa", "bbbbb", "ccccc"]);
    let d0 = calc_entropy_for_word(&vocab[0], &vocab, &pool, 0).unwrap();
    let d1 = calc_entropy_for_word(&vocab[0], &vocab, &pool, 1).unwrap();
    assert_eq!(d0, d1);
}

#[test]
fn test_deep_score_subtracts_average_best_subscore() {
    // The guess "azzzz" splits {aaaaa, aaaab, bbbbb} into one singleton and
    // one bucket of two, so exactly one non-trivial bucket is recursed into:
    // net = entropy - best score any other vocabulary word achieves there.
    let pool = words(&["aaaaa", "aaaab", "bbbbb"]);
    let vocab = words(&["azzzz", "aaaaa", "aaaab"]);
    let guess = &vocab[0];

    // The non-trivial bucket: the two words whose pattern against the guess
    // coincides.
    let bucket = words(&["aaaaa", "aaaab"]);
    assert_eq!(
        wordle_entropy::pattern::make_idx(guess, &bucket[0]),
        wordle_entropy::pattern::make_idx(guess, &bucket[1])
    );

    let vocab_without: Vec<Word> = words(&["aaaaa", "aaaab"]);
    let mut best = i64::MIN;
    for w in &vocab_without {
        let s = calc_entropy_for_word(w, &vocab_without, &bucket, 0).unwrap();
        if s > best {
            best = s;
        }
    }
    let d0 = calc_entropy_for_word(guess, &vocab, &pool, 0).unwrap();
    let d1 = calc_entropy_for_word(guess, &vocab, &pool, 1).unwrap();
    assert_eq!(d1, d0 - best);
}

#[test]
fn test_get_best_word_prefers_splitting_guess() {
    // "abcde" separates all four candidates; "zzzzz" tells nothing. The
    // ranking must put the separating guess first.
    let pool = strings(&["aaaaa", "bbbbb", "ccccc", "ddddd"]);
    let vocab = strings(&["zzzzz", "abcde"]);
    let (best, score) = get_best_word(&pool, &vocab, 2, 0).unwrap();
    assert_eq!(best, "abcde");
    assert_eq!(score, 2 * 65536);
}

#[test]
fn test_get_best_word_depth_one_runs() {
    let pool = strings(&["crane", "slate", "adieu", "audio", "roate", "raise"]);
    let vocab = strings(&["crane", "slate", "adieu"]);
    let r = get_best_word(&pool, &vocab, 10, 1);
    assert!(r.is_ok());
}

#[test]
fn test_get_best_word_rejects_zero_k() {
    let pool = strings(&["crane"]);
    let vocab = strings(&["crane"]);
    assert_eq!(
        get_best_word(&pool, &vocab, 0, 0),
        Err(SolverError::InvalidDepthOrK)
    );
}

#[test]
fn test_get_best_word_rejects_empty_pool() {
    let pool: Vec<String> = Vec::new();
    let vocab = strings(&["crane"]);
    assert_eq!(
        get_best_word(&pool, &vocab, 10, 0),
        Err(SolverError::EmptyCandidatePool)
    );
}

#[test]
fn test_get_best_word_rejects_malformed_word() {
    let pool = strings(&["crane", "toolong"]);
    let vocab = strings(&["crane"]);
    assert_eq!(
        get_best_word(&pool, &vocab, 10, 0),
        Err(SolverError::LengthMismatch)
    );
    let pool2 = strings(&["crane"]);
    let vocab2 = strings(&["cr4ne"]);
    assert_eq!(
        get_best_word(&pool2, &vocab2, 10, 0),
        Err(SolverError::LengthMismatch)
    );
}
