use wordle_solver::{FeedbackError, GuessBlock, GuessResult, WordError, WordleWord};

fn word(s: &str) -> WordleWord {
    WordleWord::from_str(s).unwrap()
}

fn pattern(secret: &str, guess: &str) -> String {
    word(secret).guess(&word(guess)).to_string()
}

#[test]
fn duplicate_letter_cap_world_hello() {
    let r = word("world").guess(&word("hello"));
    assert_eq!(
        r.0,
        [
            GuessBlock::Wrong,
            GuessBlock::Wrong,
            GuessBlock::Wrong,
            GuessBlock::Correct,
            GuessBlock::Partial
        ]
    );
    assert_eq!(r.to_string(), "BBBGO");
}

#[test]
fn duplicate_letters_in_guess_capped_by_secret() {
    assert_eq!(pattern("label", "hello"), "BOOOB");
    assert_eq!(pattern("abbey", "babes"), "OOGGB");
    assert_eq!(pattern("speed", "eerie"), "OOBBB");
    assert_eq!(pattern("crane", "trace"), "BGGOG");
}

#[test]
fn self_match_is_all_correct() {
    for s in ["apple", "hello", "world", "zzzzz", "abcde"] {
        let w = word(s);
        let r = w.guess(&w);
        assert!(r.is_solved());
        assert_eq!(r.to_string(), "GGGGG");
    }
}

#[test]
fn feedback_has_five_marks() {
    for (a, b) in [("apple", "angle"), ("extra", "zzzzz"), ("abcde", "edcba")] {
        assert_eq!(word(a).guess(&word(b)).to_string().chars().count(), 5);
    }
    assert_eq!(pattern("abcde", "edcba"), "OOGOO");
    assert_eq!(pattern("abcde", "fghij"), "BBBBB");
}

#[test]
fn word_parse_errors() {
    assert_eq!(WordleWord::from_str("abcd").unwrap_err(), WordError::InvalidLength(4));
    assert_eq!(WordleWord::from_str("abcdef").unwrap_err(), WordError::InvalidLength(6));
    assert_eq!(WordleWord::from_str("").unwrap_err(), WordError::InvalidLength(0));
    assert_eq!(WordleWord::from_str("abCde").unwrap_err(), WordError::InvalidCharacter('C'));
    assert_eq!(WordleWord::from_str("a1c!e").unwrap_err(), WordError::InvalidCharacter('1'));
}

#[test]
fn word_new_and_to_string() {
    let w = WordleWord::new(['c', 'r', 'a', 'n', 'e']);
    assert_eq!(w.to_string(), "crane");
    assert_eq!(word("crane").guess(&w).to_string(), "GGGGG");
}

#[test]
fn feedback_round_trip() {
    for s in ["GGGGG", "BBBBB", "OOOOO", "GOBGO", "BOGBG"] {
        let p = GuessResult::from_str(s).unwrap();
        assert_eq!(p.to_string(), s);
    }
    let p = GuessResult::from_str("GOBBG").unwrap();
    assert_eq!(
        p.0,
        [
            GuessBlock::Correct,
            GuessBlock::Partial,
            GuessBlock::Wrong,
            GuessBlock::Wrong,
            GuessBlock::Correct
        ]
    );
}

#[test]
fn feedback_parse_errors() {
    assert_eq!(GuessResult::from_str("GGGG").unwrap_err(), FeedbackError::InvalidLength(4));
    assert_eq!(GuessResult::from_str("GGGGGG").unwrap_err(), FeedbackError::InvalidLength(6));
    assert_eq!(GuessResult::from_str("").unwrap_err(), FeedbackError::InvalidLength(0));
    assert_eq!(GuessResult::from_str("GGXGG").unwrap_err(), FeedbackError::InvalidCharacter('X'));
    assert_eq!(GuessResult::from_str("ggggg").unwrap_err(), FeedbackError::InvalidCharacter('g'));
    // characters are checked before the length
    assert_eq!(GuessResult::from_str("GGY").unwrap_err(), FeedbackError::InvalidCharacter('Y'));
}

#[test]
fn pattern_equality() {
    let a = GuessResult::from_str("GOBBG").unwrap();
    let b = GuessResult::from_str("GOBBG").unwrap();
    let c = GuessResult::from_str("GOBBB").unwrap();
    assert!(a == b);
    assert!(a != c);
    assert!(a.same_as(&b));
    assert!(!a.same_as(&c));
    assert!(!c.is_solved());
}

#[test]
fn bad_characters_name_the_first_offender() {
    assert_eq!(WordleWord::from_str("HELLO").unwrap_err(), WordError::InvalidCharacter('H'));
    assert_eq!(WordleWord::from_str("h3ll0").unwrap_err(), WordError::InvalidCharacter('3'));
    assert_eq!(GuessResult::from_str("GG GG").unwrap_err(), FeedbackError::InvalidCharacter(' '));
    assert_eq!(GuessResult::from_str("gX").unwrap_err(), FeedbackError::InvalidCharacter('g'));
    assert_eq!(GuessResult::from_str("GGGGGGX").unwrap_err(), FeedbackError::InvalidCharacter('X'));
}

#[test]
fn repeated_letters_are_not_over_counted() {
    let pairs = [("world", "hello"), ("label", "hello"), ("speed", "eerie"), ("abbey", "babes"), ("aaaab", "bbaaa")];
    for (secret, guess) in pairs {
        let r = word(secret).guess(&word(guess));
        for c in 'a'..='z' {
            let in_guess = guess.chars().filter(|&x| x == c).count();
            let in_secret = secret.chars().filter(|&x| x == c).count();
            let marked = guess
                .chars()
                .zip(r.0.iter())
                .filter(|(x, m)| *x == c && **m != GuessBlock::Wrong)
                .count();
            assert_eq!(marked, in_guess.min(in_secret));
        }
    }
}
