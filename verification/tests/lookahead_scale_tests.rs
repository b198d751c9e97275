use wordle_entropy::search::calc_entropy_for_word;
use wordle_entropy::word::Word;

// Scores carry 16 fractional bits; one-step entropy is below 2^21, and a
// depth-1 net score lies within 2 * 2^21 of zero.
const SCORE_CAP: i64 = 2 * 0x20_0000;

/// All five-letter words over the alphabet {a, b, c, d, e}: 3125 words.
fn synthetic_pool() -> Vec<Word> {
    let letters = ['a', 'b', 'c', 'd', 'e'];
    let mut out = Vec::new();
    for a in letters {
        for b in letters {
            for c in letters {
                for d in letters {
                    for e in letters {
                        let s: String = [a, b, c, d, e].iter().collect();
                        out.push(Word::new(&s).unwrap());
                    }
                }
            }
        }
    }
    out
}

#[test]
fn test_depth_one_lookahead_over_thousands_completes() {
    // Lookahead at depth 1 over a pool of a few thousand words finishes
    // within the harness's time budget: the work is bounded by
    // |vocabulary| * |pool| pattern computations plus one ranking pass, and
    // recursion only enters buckets of two or more words, so an empty pool
    // is never scored.
    let pool = synthetic_pool();
    let vocab: Vec<Word> = pool.iter().map(|w| w.duplicate()).collect();
    let guess = &vocab[0];
    let score = calc_entropy_for_word(guess, &vocab, &pool, 1).unwrap();
    assert!(-SCORE_CAP <= score && score <= SCORE_CAP);
}
