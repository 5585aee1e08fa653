use vstd::prelude::*;
use vstd::std_specs::iter::IteratorSpec;
use crate::word::{all_letters, is_letter, WordError, WordleWord};
use crate::feedback::WORD_LEN;

verus! {

/// Why a word list could not be read.
#[derive(Copy, Clone, PartialEq, Eq, Structural, Debug)]
pub enum LoadError {
    /// The text is not JSON.
    InvalidJson,
    /// The JSON value is not an array.
    NotAnArray,
    /// The array member at this position is not a string.
    NotAString(usize),
    /// The string at this position is not a word.
    InvalidWord(usize, WordError),
    /// The text holds a run of more than `MAX_DIGIT_RUN` decimal digits.
    DigitRunTooLong,
}

/// The longest run of consecutive decimal digits a word-list text may hold.
pub const MAX_DIGIT_RUN: u32 = 32767;

/// Whether `c` is a decimal digit.
pub open spec fn is_digit(c: char) -> bool {
    '0' <= c && c <= '9'
}

/// Length of the run of decimal digits that ends just before position `n`.
pub open spec fn digit_run(s: Seq<char>, n: int) -> nat
    decreases n,
{
    if n <= 0 {
        0
    } else if is_digit(s[n - 1]) {
        digit_run(s, n - 1) + 1
    } else {
        0
    }
}

/// No run of decimal digits in `s` is longer than `MAX_DIGIT_RUN`.
pub open spec fn short_digit_runs(s: Seq<char>) -> bool {
    forall|n: int| 0 <= n <= s.len() ==> #[trigger] digit_run(s, n) <= MAX_DIGIT_RUN
}

/// Whether no run of decimal digits in `text` is longer than `MAX_DIGIT_RUN`.
pub fn has_short_digit_runs(text: &str) -> (r: bool)
    ensures
        r == short_digit_runs(text@),
{
    broadcast use vstd::string::axiom_spec_iter, vstd::string::next_postcondition;

    let mut chars = text.chars();
    let ghost mut k: int = 0;
    let mut run: u32 = 0;
    loop
        invariant
            0 <= k <= text@.len(),
            chars.remaining() == text@.skip(k),
            chars.obeys_prophetic_iter_laws(),
            run == digit_run(text@, k),
            forall|n: int| 0 <= n <= k ==> #[trigger] digit_run(text@, n) <= MAX_DIGIT_RUN,
        decreases text@.len() - k,
    {
        match chars.next() {
            None => {
                assert(text@.skip(k).len() == 0);
                return true;
            },
            Some(c) => {
                assert(c == text@[k]);
                proof {
                    k = k + 1;
                }
                assert(chars.remaining() =~= text@.skip(k));
                if '0' <= c && c <= '9' {
                    if run == MAX_DIGIT_RUN {
                        assert(digit_run(text@, k) > MAX_DIGIT_RUN);
                        return false;
                    }
                    run = run + 1;
                } else {
                    run = 0;
                }
            },
        }
    }
}

/// Whether `s` spells a word: five lowercase letters.
pub open spec fn is_word(s: Seq<char>) -> bool {
    s.len() == WORD_LEN && all_letters(s)
}

/// Position `i` holds the first character of `s` that is not a letter.
pub open spec fn first_non_letter(s: Seq<char>, i: int) -> bool {
    0 <= i < s.len() && !is_letter(s[i]) && forall|j: int| 0 <= j < i ==> is_letter(#[trigger] s[j])
}

/// The error that parsing `s` as a word gives: a wrong length first, else the
/// first character that is not a letter.
pub open spec fn is_word_error(s: Seq<char>, e: WordError) -> bool {
    if s.len() != WORD_LEN {
        e == WordError::InvalidLength(s.len() as usize)
    } else {
        exists|i: int| first_non_letter(s, i) && e == WordError::InvalidCharacter(s[i])
    }
}

/// The texts of a list of optional strings.
pub open spec fn texts_of(items: Seq<Option<String>>) -> Seq<Option<Seq<char>>> {
    items.map_values(|o: Option<String>| match o {
        Some(t) => Some(t@),
        None => None,
    })
}

/// Member `i` of `items` is a string that spells a word.
pub open spec fn member_ok(items: Seq<Option<Seq<char>>>, i: int) -> bool {
    items[i] matches Some(t) && is_word(t)
}

/// `r` is what reading `items` as words gives: every word, in order, when
/// each member is a string that spells one; else the error of the first
/// member that is not.
pub open spec fn loads_as(items: Seq<Option<Seq<char>>>, r: Result<Vec<WordleWord>, LoadError>) -> bool {
    &&& r is Ok <==> forall|i: int| 0 <= i < items.len() ==> #[trigger] member_ok(items, i)
    &&& r matches Ok(ws) ==> ws@.len() == items.len() && forall|i: int|
        0 <= i < ws@.len() ==> #[trigger] ws@[i]@ == items[i]->Some_0
    &&& r matches Err(e) ==> match e {
        LoadError::NotAString(i) => i < items.len() && items[i as int] is None && forall|j: int|
            0 <= j < i ==> #[trigger] member_ok(items, j),
        LoadError::InvalidWord(i, we) => i < items.len() && items[i as int] is Some
            && !is_word(items[i as int]->Some_0) && is_word_error(items[i as int]->Some_0, we)
            && forall|j: int| 0 <= j < i ==> #[trigger] member_ok(items, j),
        _ => false,
    }
}

/// What `json::parse` makes of a text, seen as a list of strings: nothing
/// when the text is not JSON, `Some(None)` when the value is not an array,
/// and otherwise the text of each member that is a string.
pub uninterp spec fn json_members_of(source: Seq<char>) -> Option<Option<Seq<Option<Seq<char>>>>>;

/// Relies on `json::parse`, on the `Array` variant of `json::JsonValue` and on
/// `json::JsonValue::as_str`: parses the text and hands out the text of each
/// array member that is a string. The parser lowers a 16-bit exponent once per
/// digit of a fraction, which overflows on longer runs of digits; so the text
/// holds none longer than `MAX_DIGIT_RUN`.
#[verifier::external_body]
fn json_string_members(source: &str) -> (r: Option<Option<Vec<Option<String>>>>)
    requires
        short_digit_runs(source@),
    ensures
        match r {
            None => json_members_of(source@) is None,
            Some(None) => json_members_of(source@) == Some(None::<Seq<Option<Seq<char>>>>),
            Some(Some(v)) => json_members_of(source@) == Some(Some(texts_of(v@))),
        },
{
    match json::parse(source) {
        Err(_) => None,
        Ok(json::JsonValue::Array(members)) => Some(
            Some(members.iter().map(|m| m.as_str().map(String::from)).collect()),
        ),
        Ok(_) => Some(None),
    }
}

/// Turns each string into a word, in order. Fails at the first member that is
/// missing or is not a word.
pub fn words_from_strings(items: &Vec<Option<String>>) -> (r: Result<Vec<WordleWord>, LoadError>)
    ensures
        loads_as(texts_of(items@), r),
{
    let ghost ts = texts_of(items@);
    let mut words: Vec<WordleWord> = Vec::new();
    let mut i: usize = 0;
    while i < items.len()
        invariant
            0 <= i <= items@.len(),
            ts == texts_of(items@),
            words@.len() == i,
            forall|j: int| 0 <= j < i ==> #[trigger] member_ok(ts, j),
            forall|j: int| 0 <= j < i ==> #[trigger] words@[j]@ == ts[j]->Some_0,
        decreases items@.len() - i,
    {
        assert(ts[i as int] == match items@[i as int] {
            Some(t) => Some(t@),
            None => None::<Seq<char>>,
        });
        match &items[i] {
            None => {
                let r = Err(LoadError::NotAString(i));
                assert(loads_as(ts, r)) by {
                    assert(!member_ok(ts, i as int));
                }
                return r;
            },
            Some(s) => {
                match WordleWord::from_str(s.as_str()) {
                    Ok(w) => {
                        words.push(w);
                    },
                    Err(e) => {
                        let r = Err(LoadError::InvalidWord(i, e));
                        assert(ts[i as int] == Some(s@));
                        assert(is_word_error(s@, e)) by {
                            if s@.len() == WORD_LEN {
                                let c = e->InvalidCharacter_0;
                                let k = choose|k: int|
                                    0 <= k < WORD_LEN && s@[k] == c && !is_letter(c) && forall|j: int|
                                        0 <= j < k ==> is_letter(#[trigger] s@[j]);
                                assert(first_non_letter(s@, k));
                            }
                        }
                        assert(loads_as(ts, r)) by {
                            assert(!member_ok(ts, i as int));
                        }
                        return r;
                    },
                }
            },
        }
        i = i + 1;
    }
    Ok(words)
}

/// Reads a word list written as a JSON array of strings. A text with a run of
/// digits longer than `MAX_DIGIT_RUN` is refused before parsing.
pub fn load_wordlist_from_json(json: &str) -> (r: Result<Vec<WordleWord>, LoadError>)
    ensures
        !short_digit_runs(json@) ==> r == Err::<Vec<WordleWord>, LoadError>(
            LoadError::DigitRunTooLong,
        ),
        short_digit_runs(json@) && json_members_of(json@) is None ==> r == Err::<Vec<WordleWord>, LoadError>(
            LoadError::InvalidJson,
        ),
        short_digit_runs(json@) && json_members_of(json@) == Some(None::<Seq<Option<Seq<char>>>>) ==> r == Err::<
            Vec<WordleWord>,
            LoadError,
        >(LoadError::NotAnArray),
        short_digit_runs(json@) ==> (json_members_of(json@) matches Some(Some(items)) ==> loads_as(items, r)),
{
    if !has_short_digit_runs(json) {
        return Err(LoadError::DigitRunTooLong);
    }
    match json_string_members(json) {
        None => Err(LoadError::InvalidJson),
        Some(None) => Err(LoadError::NotAnArray),
        Some(Some(items)) => words_from_strings(&items),
    }
}

} // verus!
