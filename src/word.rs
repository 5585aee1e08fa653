use vstd::prelude::*;
use vstd::string::*;
use crate::feedback::{all_correct, GuessBlock, GuessResult, WORD_LEN};

verus! {

/// A lowercase letter of the alphabet the words are written in.
pub open spec fn is_letter(c: char) -> bool {
    'a' <= c && c <= 'z'
}

/// Position of a letter in the alphabet.
pub open spec fn letter_index(c: char) -> int {
    c as int - 'a' as int
}

/// Occurrences of `c` among the first `n` letters of `s`.
pub open spec fn count_upto(s: Seq<char>, c: char, n: int) -> nat
    decreases n,
{
    if n <= 0 {
        0
    } else {
        count_upto(s, c, n - 1) + if s[n - 1] == c { 1nat } else { 0nat }
    }
}

/// Occurrences of `c` in `s`.
pub open spec fn count_of(s: Seq<char>, c: char) -> nat {
    count_upto(s, c, s.len() as int)
}

/// Positions before `n` where both the guess and the secret hold `c`.
pub open spec fn exact_upto(secret: Seq<char>, guess: Seq<char>, c: char, n: int) -> nat
    decreases n,
{
    if n <= 0 {
        0
    } else {
        exact_upto(secret, guess, c, n - 1) + if guess[n - 1] == c && secret[n - 1] == c {
            1nat
        } else {
            0nat
        }
    }
}

/// Positions before `n` where the guess holds `c` and the secret does not.
pub open spec fn misplaced_upto(secret: Seq<char>, guess: Seq<char>, c: char, n: int) -> nat
    decreases n,
{
    if n <= 0 {
        0
    } else {
        misplaced_upto(secret, guess, c, n - 1) + if guess[n - 1] == c && secret[n - 1] != c {
            1nat
        } else {
            0nat
        }
    }
}

/// Occurrences of `c` in the secret that no exact match of the guess uses up:
/// how many misplaced copies of `c` in the guess are marked present.
pub open spec fn spare_count(secret: Seq<char>, guess: Seq<char>, c: char) -> int {
    count_of(secret, c) - exact_upto(secret, guess, c, guess.len() as int)
}

/// The mark of position `i`: correct where the letters agree; otherwise
/// present while earlier misplaced copies of the same letter have not used up
/// the spare occurrences in the secret, and absent after that.
pub open spec fn mark_at(secret: Seq<char>, guess: Seq<char>, i: int) -> GuessBlock {
    if guess[i] == secret[i] {
        GuessBlock::Correct
    } else if misplaced_upto(secret, guess, guess[i], i) < spare_count(secret, guess, guess[i]) {
        GuessBlock::Partial
    } else {
        GuessBlock::Wrong
    }
}

/// The feedback pattern that `guess` receives when the hidden word is `secret`.
pub open spec fn feedback(secret: Seq<char>, guess: Seq<char>) -> Seq<GuessBlock> {
    Seq::new(guess.len(), |i: int| mark_at(secret, guess, i))
}

pub open spec fn all_letters(s: Seq<char>) -> bool {
    forall|i: int| 0 <= i < s.len() ==> is_letter(#[trigger] s[i])
}

pub proof fn lemma_count_upto_bound(s: Seq<char>, c: char, n: int)
    requires
        0 <= n,
    ensures
        count_upto(s, c, n) <= n,
    decreases n,
{
    if n > 0 {
        lemma_count_upto_bound(s, c, n - 1);
    }
}

pub proof fn lemma_exact_le_count(secret: Seq<char>, guess: Seq<char>, c: char, n: int)
    ensures
        exact_upto(secret, guess, c, n) <= count_upto(secret, c, n),
    decreases n,
{
    if n > 0 {
        lemma_exact_le_count(secret, guess, c, n - 1);
    }
}

/// Why a string is not a word.
#[derive(Copy, Clone, PartialEq, Eq, Structural, Debug)]
pub enum WordError {
    /// The string has this many characters instead of five.
    InvalidLength(usize),
    /// A character that is not a lowercase letter.
    InvalidCharacter(char),
}

/// A five-letter word, with the number of times each letter occurs in it.
#[derive(Copy, Clone, Debug)]
pub struct WordleWord {
    word: [char; 5],
    idx: [u8; 26],
}

impl View for WordleWord {
    type V = Seq<char>;

    closed spec fn view(&self) -> Seq<char> {
        self.word@
    }
}

impl WordleWord {
    #[verifier::type_invariant]
    spec fn inv(&self) -> bool {
        &&& all_letters(self.word@)
        &&& forall|c: char|
            is_letter(c) ==> self.idx@[letter_index(c)] as nat == #[trigger] count_of(
                self.word@,
                c,
            )
    }

    /// Builds a word from its letters.
    pub fn new(word: [char; 5]) -> (r: WordleWord)
        requires
            all_letters(word@),
        ensures
            r@ == word@,
    {
        let mut idx: [u8; 26] = [0u8; 26];
        let mut i: usize = 0;
        while i < WORD_LEN
            invariant
                0 <= i <= WORD_LEN,
                all_letters(word@),
                forall|c: char|
                    is_letter(c) ==> idx@[letter_index(c)] as nat == #[trigger] count_upto(
                        word@,
                        c,
                        i as int,
                    ),
            decreases WORD_LEN - i,
        {
            let c = word[i];
            assert(is_letter(word@[i as int]));
            proof {
                lemma_count_upto_bound(word@, c, i as int);
            }
            let j = (c as u32 - 'a' as u32) as usize;
            idx[j] = idx[j] + 1;
            assert forall|d: char| is_letter(d) implies idx@[letter_index(d)] as nat
                == #[trigger] count_upto(word@, d, i + 1) by {
                assert(count_upto(word@, d, i + 1) == count_upto(word@, d, i as int) + if word@[i as int] == d { 1nat } else { 0nat });
            }
            i = i + 1;
        }
        WordleWord { word, idx }
    }

    /// The feedback that `guessed` receives when `self` is the hidden word.
    pub fn guess(&self, guessed: &Self) -> (r: GuessResult)
        ensures
            r@ == feedback(self@, guessed@),
    {
        proof {
            use_type_invariant(self);
            use_type_invariant(guessed);
        }
        let ghost s = self.word@;
        let ghost g = guessed.word@;
        let mut result: [GuessBlock; 5] = [GuessBlock::Wrong; 5];
        let mut cnt: [u8; 26] = [0u8; 26];
        let mut i: usize = 0;
        while i < WORD_LEN
            invariant
                0 <= i <= WORD_LEN,
                s == self.word@,
                g == guessed.word@,
                all_letters(s),
                forall|k: int|
                    0 <= k < WORD_LEN ==> #[trigger] result@[k] == if k < i && g[k] == s[k] {
                        GuessBlock::Correct
                    } else {
                        GuessBlock::Wrong
                    },
                forall|c: char|
                    is_letter(c) ==> cnt@[letter_index(c)] as nat == #[trigger] exact_upto(
                        s,
                        g,
                        c,
                        i as int,
                    ),
            decreases WORD_LEN - i,
        {
            let cw = self.word[i];
            let gw = guessed.word[i];
            assert(is_letter(s[i as int]));
            proof {
                lemma_exact_le_count(s, g, cw, i as int);
                lemma_count_upto_bound(s, cw, i as int);
            }
            if cw == gw {
                result[i] = GuessBlock::Correct;
                let j = (cw as u32 - 'a' as u32) as usize;
                cnt[j] = cnt[j] + 1;
            }
            assert forall|c: char| is_letter(c) implies cnt@[letter_index(c)] as nat
                == #[trigger] exact_upto(s, g, c, i + 1) by {
                assert(exact_upto(s, g, c, i + 1) == exact_upto(s, g, c, i as int) + if g[i as int] == c && s[i as int] == c { 1nat } else { 0nat });
            }
            i = i + 1;
        }
        assert forall|c: char| is_letter(c) implies cnt@[letter_index(c)] as int == exact_upto(
            s,
            g,
            c,
            WORD_LEN as int,
        ) + min_int(#[trigger] misplaced_upto(s, g, c, 0) as int, spare_count(s, g, c)) by {
            lemma_exact_le_count(s, g, c, WORD_LEN as int);
        }
        let mut i: usize = 0;
        while i < WORD_LEN
            invariant
                0 <= i <= WORD_LEN,
                s == self.word@,
                g == guessed.word@,
                all_letters(g),
                forall|c: char|
                    is_letter(c) ==> self.idx@[letter_index(c)] as nat == #[trigger] count_of(
                        s,
                        c,
                    ),
                forall|k: int|
                    0 <= k < WORD_LEN ==> #[trigger] result@[k] == if k < i {
                        mark_at(s, g, k)
                    } else if g[k] == s[k] {
                        GuessBlock::Correct
                    } else {
                        GuessBlock::Wrong
                    },
                forall|c: char|
                    is_letter(c) ==> cnt@[letter_index(c)] as int == exact_upto(
                        s,
                        g,
                        c,
                        WORD_LEN as int,
                    ) + min_int(
                        #[trigger] misplaced_upto(s, g, c, i as int) as int,
                        spare_count(s, g, c),
                    ),
            decreases WORD_LEN - i,
        {
            let gw = guessed.word[i];
            assert(is_letter(g[i as int]));
            assert forall|c: char| #![trigger misplaced_upto(s, g, c, i + 1)] is_letter(c)
                implies misplaced_upto(s, g, c, i + 1) == misplaced_upto(s, g, c, i as int) + if g[i as int] == c && s[i as int] != c { 1nat } else { 0nat } by {}
            proof {
                lemma_exact_le_count(s, g, gw, WORD_LEN as int);
                lemma_count_upto_bound(s, gw, WORD_LEN as int);
            }
            if result[i] != GuessBlock::Correct {
                let j = (gw as u32 - 'a' as u32) as usize;
                assert(self.idx@[j as int] as nat == count_of(s, gw));
                if cnt[j] < self.idx[j] {
                    cnt[j] = cnt[j] + 1;
                    result[i] = GuessBlock::Partial;
                } else {
                    result[i] = GuessBlock::Wrong;
                }
            }
            i = i + 1;
        }
        let r = GuessResult(result);
        assert(r@ =~= feedback(s, g));
        r
    }

    /// Parses a word of five lowercase letters.
    pub fn from_str(s: &str) -> (r: Result<WordleWord, WordError>)
        ensures
            s@.len() != WORD_LEN <==> r == Err::<WordleWord, WordError>(
                WordError::InvalidLength(s@.len() as usize),
            ),
            r is Ok <==> s@.len() == WORD_LEN && all_letters(s@),
            r matches Ok(w) ==> w@ == s@,
            r matches Err(WordError::InvalidCharacter(c)) ==> s@.len() == WORD_LEN && exists|i: int|
                0 <= i < WORD_LEN && s@[i] == c && !is_letter(c) && forall|j: int|
                    0 <= j < i ==> is_letter(#[trigger] s@[j]),
            s@.len() == WORD_LEN && !all_letters(s@) ==> r is Err && r->Err_0 is InvalidCharacter,
    {
        let n = s.unicode_len();
        if n != WORD_LEN {
            return Err(WordError::InvalidLength(n));
        }
        let mut word: [char; 5] = ['a'; 5];
        let mut i: usize = 0;
        while i < WORD_LEN
            invariant
                0 <= i <= WORD_LEN,
                s@.len() == WORD_LEN,
                forall|j: int| 0 <= j < i ==> is_letter(#[trigger] s@[j]) && word@[j] == s@[j],
            decreases WORD_LEN - i,
        {
            let c = s.get_char(i);
            if !('a' <= c && c <= 'z') {
                return Err(WordError::InvalidCharacter(c));
            }
            word[i] = c;
            i = i + 1;
        }
        assert(word@ =~= s@);
        Ok(WordleWord::new(word))
    }

    /// The word's letters as a string.
    pub fn to_string(&self) -> (r: String)
        ensures
            r@ == self@,
    {
        let mut r = String::new();
        let mut i: usize = 0;
        while i < WORD_LEN
            invariant
                0 <= i <= WORD_LEN,
                r@ == self.word@.take(i as int),
            decreases WORD_LEN - i,
        {
            r.push(self.word[i]);
            assert(self.word@.take(i + 1) =~= self.word@.take(i as int).push(self.word@[i as int]));
            i = i + 1;
        }
        assert(self.word@.take(5) =~= self.word@);
        r
    }
}

/// Feedback between two words has one mark per letter.
pub proof fn lemma_feedback_length(secret: WordleWord, guess: WordleWord)
    ensures
        feedback(secret@, guess@).len() == WORD_LEN,
{
}

/// A word guessed against itself is correct at every position.
pub proof fn lemma_self_match(w: WordleWord)
    ensures
        feedback(w@, w@) == all_correct(),
{
    assert(feedback(w@, w@) =~= all_correct());
}

/// A guess is correct at every position exactly when it is the hidden word.
pub proof fn lemma_all_correct_iff_same(secret: WordleWord, guess: WordleWord)
    ensures
        feedback(secret@, guess@) == all_correct() <==> secret@ == guess@,
{
    if secret@ == guess@ {
        lemma_self_match(secret);
    }
    if feedback(secret@, guess@) == all_correct() {
        assert forall|i: int| 0 <= i < WORD_LEN implies secret@[i] == guess@[i] by {
            assert(feedback(secret@, guess@)[i] == all_correct()[i]);
        }
        assert(secret@ =~= guess@);
    }
}

/// Positions before `n` where the guess holds `c` and the mark is not absent.
pub open spec fn marked_upto(guess: Seq<char>, marks: Seq<GuessBlock>, c: char, n: int) -> nat
    decreases n,
{
    if n <= 0 {
        0
    } else {
        marked_upto(guess, marks, c, n - 1) + if guess[n - 1] == c && marks[n - 1]
            != GuessBlock::Wrong {
            1nat
        } else {
            0nat
        }
    }
}

/// Positions before `n` where the guess holds `c` and the mark is present
/// elsewhere.
pub open spec fn partial_upto(guess: Seq<char>, marks: Seq<GuessBlock>, c: char, n: int) -> nat
    decreases n,
{
    if n <= 0 {
        0
    } else {
        partial_upto(guess, marks, c, n - 1) + if guess[n - 1] == c && marks[n - 1]
            == GuessBlock::Partial {
            1nat
        } else {
            0nat
        }
    }
}

proof fn lemma_marks_upto(secret: Seq<char>, guess: Seq<char>, c: char, n: int)
    requires
        0 <= n <= guess.len(),
        secret.len() == guess.len(),
        spare_count(secret, guess, c) >= 0,
    ensures
        marked_upto(guess, feedback(secret, guess), c, n) == exact_upto(secret, guess, c, n)
            + min_int(misplaced_upto(secret, guess, c, n) as int, spare_count(secret, guess, c)),
        partial_upto(guess, feedback(secret, guess), c, n) == min_int(
            misplaced_upto(secret, guess, c, n) as int,
            spare_count(secret, guess, c),
        ),
        count_upto(guess, c, n) == exact_upto(secret, guess, c, n) + misplaced_upto(
            secret,
            guess,
            c,
            n,
        ),
    decreases n,
{
    if n > 0 {
        lemma_marks_upto(secret, guess, c, n - 1);
        assert(feedback(secret, guess)[n - 1] == mark_at(secret, guess, n - 1));
    }
}

/// Repeated letters are never over-counted: for each letter, the positions of
/// the guess that hold it and are not marked absent number the smaller of its
/// count in the guess and its count in the secret; and the positions marked
/// present elsewhere are at most the occurrences in the secret that exact
/// matches leave over.
pub proof fn lemma_letter_marks(secret: WordleWord, guess: WordleWord, c: char)
    ensures
        marked_upto(guess@, feedback(secret@, guess@), c, WORD_LEN as int) == min_int(
            count_of(guess@, c) as int,
            count_of(secret@, c) as int,
        ),
        partial_upto(guess@, feedback(secret@, guess@), c, WORD_LEN as int) <= count_of(secret@, c)
            - exact_upto(secret@, guess@, c, WORD_LEN as int),
{
    let s = secret@;
    let g = guess@;
    lemma_exact_le_count(s, g, c, WORD_LEN as int);
    lemma_marks_upto(s, g, c, WORD_LEN as int);
}

pub open spec fn min_int(a: int, b: int) -> int {
    if a < b {
        a
    } else {
        b
    }
}

/// Relies on `String::push`: appends one character at the end.
pub assume_specification[ String::push ](s: &mut String, ch: char)
    ensures
        final(s)@ == old(s)@.push(ch),
;

} // verus!
