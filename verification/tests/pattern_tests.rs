use wordle_entropy::pattern::{make_idx, Color};
use wordle_entropy::word::Word;
use wordle_entropy::{MASK_SIZE, WORD_LEN};

fn w(s: &str) -> Word {
    Word::new(s).unwrap()
}

fn test_idx(colors: [Color; 5]) -> usize {
    let mut idx = 0;
    let mut mul = 1;

    for i in colors {
        idx += i as usize * mul;
        mul *= 3;
    }

    idx
}

#[test]
fn test_green() {
    let mask = make_idx(&w("rebut"), &w("rebut"));

    assert_eq!(
        mask,
        test_idx([
            Color::Green,
            Color::Green,
            Color::Green,
            Color::Green,
            Color::Green
        ])
    );
}

#[test]
fn test_two_grey_three_yellow() {
    let mask2 = make_idx(&w("rebut"), &w("butch"));

    assert_eq!(
        mask2,
        test_idx([
            Color::Grey,
            Color::Grey,
            Color::Yellow,
            Color::Yellow,
            Color::Yellow
        ])
    );
}

#[test]
fn test_double_letter() {
    let mask3 = make_idx(&w("blood"), &w("proxy"));

    assert_eq!(
        mask3,
        test_idx([
            Color::Grey,
            Color::Grey,
            Color::Green,
            Color::Grey,
            Color::Grey
        ])
    );
}

#[test]
fn test_double_letter2() {
    let mask4 = make_idx(&w("babes"), &w("abbey"));

    assert_eq!(
        mask4,
        test_idx([
            Color::Yellow,
            Color::Yellow,
            Color::Green,
            Color::Green,
            Color::Grey
        ])
    );
}

#[test]
fn test_overflow() {
    let mask4 = make_idx(&w("malax"), &w("knead"));

    assert_eq!(
        mask4,
        test_idx([
            Color::Grey,
            Color::Grey,
            Color::Grey,
            Color::Green,
            Color::Grey
        ])
    );
}

#[test]
fn test_index_oob() {
    let mask4 = make_idx(&w("tepoy"), &w("coyly"));

    assert_eq!(
        mask4,
        test_idx([
            Color::Grey,
            Color::Grey,
            Color::Grey,
            Color::Yellow,
            Color::Green
        ])
    );
}

#[test]
fn test_all_green_code_is_242() {
    assert_eq!(make_idx(&w("query"), &w("query")), MASK_SIZE - 1);
}

#[test]
fn test_every_code_is_below_mask_size() {
    let guesses = ["rebut", "butch", "babes", "abbey", "aaaaa"];
    for g in guesses {
        for s in guesses {
            let gw = w(g);
            let sw = w(s);
            assert_eq!(gw.w.len(), WORD_LEN);
            assert!(make_idx(&gw, &sw) < MASK_SIZE);
        }
    }
}

#[test]
fn test_duplicate_letters_never_exceed_secret_count() {
    // The secret holds a single 'b'; the guess offers three. Only the exact
    // match at position 2 may be marked: the Green consumes the secret's one
    // 'b', so the other two 'b's stay Grey.
    let mask = make_idx(&w("bobby"), &w("cabin"));
    let mut colors = Vec::new();
    let mut m = mask;
    for _ in 0..5 {
        colors.push(m % 3);
        m /= 3;
    }
    assert_eq!(colors, vec![0, 0, 2, 0, 0]);
}

#[test]
fn test_word_rejects_wrong_length() {
    assert!(Word::new("abcd").is_err());
    assert!(Word::new("abcdef").is_err());
    assert!(Word::new("").is_err());
}

#[test]
fn test_word_rejects_non_lowercase() {
    assert!(Word::new("ABCDE").is_err());
    assert!(Word::new("ab1de").is_err());
    assert!(Word::new("abc e").is_err());
}
