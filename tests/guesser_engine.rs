use wordle_solver::loader::{has_short_digit_runs, MAX_DIGIT_RUN};
use wordle_solver::{
    load_wordlist_from_json, top_by_score, words_from_strings, GuessResult, GuesserError,
    LoadError, WordError, WordleGuesser, WordleWord,
};

fn words(list: &[&str]) -> Vec<WordleWord> {
    list.iter().map(|s| WordleWord::from_str(s).unwrap()).collect()
}

fn names(ws: &[WordleWord]) -> Vec<String> {
    ws.iter().map(|w| w.to_string()).collect()
}

fn entropy(groups: &[(GuessResult, usize)], n: usize) -> f64 {
    groups
        .iter()
        .map(|g| {
            let p = g.1 as f64 / n as f64;
            -p * p.log2()
        })
        .fold(0.0, |a, b| a + b)
}

#[test]
fn observe_removes_inconsistent_words() {
    let dict = words(&["abcde", "fghij", "klmno"]);
    let mut g = WordleGuesser::new(&dict);
    let guess = WordleWord::from_str("abcde").unwrap();
    let fb = GuessResult::from_str("BBBBB").unwrap();
    let o = g.update(&guess, &fb).unwrap();
    assert_eq!(names(g.possible()), vec!["fghij", "klmno"]);
    assert_eq!(o.before, 3);
    assert_eq!(o.after, 2);
    let info = -(o.after as f64 / o.before as f64).log2();
    assert!((info - (3.0f64 / 2.0).log2()).abs() < 1e-9);
}

#[test]
fn observe_keeps_only_matching_and_shrinks() {
    let dict = words(&["apple", "angle", "extra", "ample", "maple", "plead"]);
    let mut g = WordleGuesser::new(&dict);
    let guess = WordleWord::from_str("apple").unwrap();
    let fb = GuessResult::from_str("GBGGG").unwrap();
    let o = g.update(&guess, &fb).unwrap();
    assert!(o.after <= o.before);
    for w in g.possible() {
        assert!(w.guess(&guess) == fb);
    }
    for w in &dict {
        let kept = g.possible().iter().any(|k| k.to_string() == w.to_string());
        assert_eq!(kept, w.guess(&guess) == fb);
    }
    assert_eq!(names(g.possible()), vec!["ample"]);
    let info = -(o.after as f64 / o.before as f64).log2();
    assert!((info - 6f64.log2()).abs() < 1e-9);
}

#[test]
fn observe_on_empty_set_fails() {
    let dict = words(&["abcde"]);
    let mut g = WordleGuesser::new(&dict);
    let guess = WordleWord::from_str("abcde").unwrap();
    let fb = GuessResult::from_str("BBBBB").unwrap();
    let o = g.update(&guess, &fb).unwrap();
    assert_eq!(o.after, 0);
    assert_eq!(g.update(&guess, &fb).unwrap_err(), GuesserError::EmptyPossibilitySet);
    assert_eq!(g.suggest(&vec![], 3).unwrap_err(), GuesserError::EmptyPossibilitySet);
}

#[test]
fn groups_count_each_pattern() {
    let cands = words(&["abcde", "fghij", "klmno", "abcdz"]);
    let guess = WordleWord::from_str("abcde").unwrap();
    let groups = guess.feedback_groups(&cands);
    let shown: Vec<(String, usize)> = groups.iter().map(|g| (g.0.to_string(), g.1)).collect();
    assert_eq!(
        shown,
        vec![("GGGGG".to_string(), 1), ("BBBBB".to_string(), 2), ("GGGGB".to_string(), 1)]
    );
    assert_eq!(groups.iter().map(|g| g.1).sum::<usize>(), 4);
}

#[test]
fn entropy_bounds() {
    let cands = words(&["abcde", "fghij", "klmno", "abcdz"]);
    let n = cands.len();
    for w in &cands {
        let h = entropy(&w.feedback_groups(&cands), n);
        assert!(h >= 0.0 && h <= (n as f64).log2() + 1e-12);
    }
    // every candidate gives a different pattern: the upper bound
    let distinct = words(&["abcde", "abcdz", "fghij"]);
    let h = entropy(&distinct[0].feedback_groups(&distinct), 3);
    assert!((h - 3f64.log2()).abs() < 1e-12);
    // every candidate gives the same pattern: zero
    let same = words(&["fghij", "klmno", "pqrst"]);
    let guess = WordleWord::from_str("abcde").unwrap();
    let groups = guess.feedback_groups(&same);
    assert_eq!(groups.len(), 1);
    assert_eq!(entropy(&groups, 3), 0.0);
    // a single candidate: zero
    let one = words(&["abcde"]);
    assert_eq!(entropy(&one[0].feedback_groups(&one), 1), 0.0);
}

#[test]
fn candidate_groups_match_each_word() {
    let dict = words(&["apple", "angle", "extra", "ample"]);
    let g = WordleGuesser::new(&dict);
    let table = g.candidate_groups();
    assert_eq!(table.len(), 4);
    for (i, row) in table.iter().enumerate() {
        let direct = dict[i].feedback_groups(&dict);
        let a: Vec<(String, usize)> = row.iter().map(|x| (x.0.to_string(), x.1)).collect();
        let b: Vec<(String, usize)> = direct.iter().map(|x| (x.0.to_string(), x.1)).collect();
        assert_eq!(a, b);
    }
    assert_eq!(table[2].len(), 2);
}

#[test]
fn suggestion_order_and_length() {
    let dict = words(&["abcde", "fghij", "klmno", "abcdz"]);
    let g = WordleGuesser::new(&dict);
    let r = g.suggest(&vec![5, 9, 9, 1], 3).unwrap();
    assert_eq!(r, vec![1, 2, 0]);
    let r = g.suggest(&vec![5, 9, 9, 1], 10).unwrap();
    assert_eq!(r, vec![1, 2, 0, 3]);
    let r = g.suggest(&vec![5, 9, 9, 1], 0).unwrap();
    assert!(r.is_empty());
}

#[test]
fn top_by_score_is_stable() {
    assert_eq!(top_by_score(&vec![3, 7, 3, 7, 1], 5), vec![1, 3, 0, 2, 4]);
    assert_eq!(top_by_score(&vec![3, 7, 3, 7, 1], 2), vec![1, 3]);
    assert_eq!(top_by_score(&vec![], 2), Vec::<usize>::new());
    assert_eq!(top_by_score(&vec![u64::MAX, 0], 1), vec![0]);
}

#[test]
fn suggest_by_entropy_end_to_end() {
    let dict = words(&["abcde", "abcdf", "abcgh", "vwxyz"]);
    let g = WordleGuesser::new(&dict);
    let n = g.possible().len();
    let keys: Vec<u64> = g
        .candidate_groups()
        .iter()
        .map(|row| entropy(row, n).to_bits())
        .collect();
    let r = g.suggest(&keys, 2).unwrap();
    assert_eq!(r.len(), 2);
    let h: Vec<f64> = r.iter().map(|&i| f64::from_bits(keys[i])).collect();
    assert!(h[0] >= h[1]);
}

#[test]
fn guesser_starts_with_whole_dictionary() {
    let dict = words(&["apple", "angle"]);
    let g = WordleGuesser::new(&dict);
    assert_eq!(names(g.possible()), vec!["apple", "angle"]);
    assert_eq!(g.list.len(), 2);
}

#[test]
fn load_from_json() {
    let ws = load_wordlist_from_json("[\"apple\", \"angle\", \"extra\"]").unwrap();
    assert_eq!(names(&ws), vec!["apple", "angle", "extra"]);
    assert_eq!(load_wordlist_from_json("[").unwrap_err(), LoadError::InvalidJson);
    assert_eq!(load_wordlist_from_json("{\"a\": 1}").unwrap_err(), LoadError::NotAnArray);
    assert_eq!(load_wordlist_from_json("[\"apple\", 3]").unwrap_err(), LoadError::NotAString(1));
    assert_eq!(
        load_wordlist_from_json("[\"apple\", \"toolong\"]").unwrap_err(),
        LoadError::InvalidWord(1, WordError::InvalidLength(7))
    );
    assert!(load_wordlist_from_json("[]").unwrap().is_empty());
    assert_eq!(
        load_wordlist_from_json("[\"apple\", \"Maple\"]").unwrap_err(),
        LoadError::InvalidWord(1, WordError::InvalidCharacter('M'))
    );
    assert_eq!(load_wordlist_from_json("\"apple\"").unwrap_err(), LoadError::NotAnArray);
}

#[test]
fn words_from_strings_checks_each() {
    let items = vec![Some("apple".to_string()), None];
    assert_eq!(words_from_strings(&items).unwrap_err(), LoadError::NotAString(1));
    let items = vec![Some("apPle".to_string())];
    assert_eq!(
        words_from_strings(&items).unwrap_err(),
        LoadError::InvalidWord(0, WordError::InvalidCharacter('P'))
    );
    let items = vec![Some("apple".to_string()), Some("maple".to_string())];
    assert_eq!(names(&words_from_strings(&items).unwrap()), vec!["apple", "maple"]);
}

#[test]
fn long_digit_runs_are_refused_before_parsing() {
    let limit = MAX_DIGIT_RUN as usize;
    let long = format!("[0.{}]", "0".repeat(limit + 1));
    assert!(!has_short_digit_runs(&long));
    assert_eq!(load_wordlist_from_json(&long).unwrap_err(), LoadError::DigitRunTooLong);
    let fits = format!("[0.{}]", "0".repeat(limit));
    assert!(has_short_digit_runs(&fits));
    assert_eq!(load_wordlist_from_json(&fits).unwrap_err(), LoadError::NotAString(0));
    assert!(has_short_digit_runs("[\"apple\", 12, 3]"));
    assert!(has_short_digit_runs(""));
}

#[test]
fn guessed_word_stays_only_when_solved() {
    let dict = words(&["apple", "ample", "apple", "maple"]);
    let guess = WordleWord::from_str("apple").unwrap();
    let mut g = WordleGuesser::new(&dict);
    g.update(&guess, &GuessResult::from_str("GGGGG").unwrap()).unwrap();
    assert_eq!(names(g.possible()), vec!["apple", "apple"]);
    let mut g = WordleGuesser::new(&dict);
    g.update(&guess, &GuessResult::from_str("GBGGG").unwrap()).unwrap();
    assert!(g.possible().iter().all(|w| w.to_string() != "apple"));
    assert_eq!(names(g.possible()), vec!["ample"]);
    let distinct = words(&["abcde", "abcdz", "fghij"]);
    let groups = distinct[0].feedback_groups(&distinct);
    assert_eq!(groups.len(), 3);
    assert!(groups.iter().all(|x| x.1 == 1));
}
