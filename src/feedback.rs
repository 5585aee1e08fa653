use vstd::prelude::*;

verus! {

/// Number of letters in a word, and of marks in a feedback pattern.
pub const WORD_LEN: usize = 5;

/// One mark of a feedback pattern.
#[derive(Copy, Clone, PartialEq, Eq, Structural, Debug, Hash)]
pub enum GuessBlock {
    /// The letter does not occur in the secret (or all its occurrences are used up).
    Wrong,
    /// The letter occurs in the secret at another position.
    Partial,
    /// The letter is at this position in the secret.
    Correct,
}

/// A feedback pattern: one mark per position.
#[derive(Copy, Clone, Debug, Hash)]
pub struct GuessResult(pub [GuessBlock; 5]);

/// A feedback string that could not be parsed.
#[derive(Copy, Clone, PartialEq, Eq, Structural, Debug)]
pub enum FeedbackError {
    /// A character other than `G`, `O` or `B`.
    InvalidCharacter(char),
    /// The string has this many characters instead of five.
    InvalidLength(usize),
}

impl View for GuessResult {
    type V = Seq<GuessBlock>;

    open spec fn view(&self) -> Seq<GuessBlock> {
        self.0@
    }
}

/// The character that stands for a mark in a feedback string.
pub open spec fn symbol_of(b: GuessBlock) -> char {
    match b {
        GuessBlock::Correct => 'G',
        GuessBlock::Partial => 'O',
        GuessBlock::Wrong => 'B',
    }
}

/// Whether `c` stands for a mark.
pub open spec fn is_symbol(c: char) -> bool {
    c == 'G' || c == 'O' || c == 'B'
}

/// The mark that a symbol stands for.
pub open spec fn block_of(c: char) -> GuessBlock {
    if c == 'G' {
        GuessBlock::Correct
    } else if c == 'O' {
        GuessBlock::Partial
    } else {
        GuessBlock::Wrong
    }
}

/// The feedback string of a pattern: one symbol per mark.
pub open spec fn encode(p: Seq<GuessBlock>) -> Seq<char> {
    p.map_values(|b: GuessBlock| symbol_of(b))
}

/// The pattern that a string of symbols stands for.
pub open spec fn decode(s: Seq<char>) -> Seq<GuessBlock> {
    s.map_values(|c: char| block_of(c))
}

/// Whether `s` is a feedback string: five symbols.
pub open spec fn is_feedback_string(s: Seq<char>) -> bool {
    s.len() == WORD_LEN && forall|i: int| 0 <= i < s.len() ==> is_symbol(#[trigger] s[i])
}

/// The pattern in which every mark is correct.
pub open spec fn all_correct() -> Seq<GuessBlock> {
    Seq::new(WORD_LEN as nat, |i: int| GuessBlock::Correct)
}

/// Decoding a feedback string and encoding the pattern again gives the same
/// string back.
pub proof fn lemma_round_trip(s: Seq<char>)
    requires
        is_feedback_string(s),
    ensures
        encode(decode(s)) == s,
{
    assert(encode(decode(s)) =~= s);
}

/// Encoding a pattern and decoding the string gives the same pattern back.
pub proof fn lemma_decode_encode(p: Seq<GuessBlock>)
    ensures
        decode(encode(p)) == p,
        p.len() == WORD_LEN ==> is_feedback_string(encode(p)),
{
    assert(decode(encode(p)) =~= p);
}

impl PartialEq for GuessResult {
    fn eq(&self, other: &GuessResult) -> (r: bool) {
        self.same_as(other)
    }
}

impl vstd::std_specs::cmp::PartialEqSpecImpl for GuessResult {
    open spec fn obeys_eq_spec() -> bool {
        true
    }

    open spec fn eq_spec(&self, other: &GuessResult) -> bool {
        self@ == other@
    }
}

impl Eq for GuessResult {

}

impl GuessResult {
    /// Whether two patterns have the same mark at every position.
    pub fn same_as(&self, other: &GuessResult) -> (r: bool)
        ensures
            r == (self@ == other@),
    {
        let mut i: usize = 0;
        while i < WORD_LEN
            invariant
                0 <= i <= WORD_LEN,
                forall|k: int| 0 <= k < i ==> self.0@[k] == other.0@[k],
            decreases WORD_LEN - i,
        {
            if self.0[i] != other.0[i] {
                return false;
            }
            i = i + 1;
        }
        assert(self.0@ =~= other.0@);
        true
    }

    /// Whether every mark is correct.
    pub fn is_solved(&self) -> (r: bool)
        ensures
            r == (self@ == all_correct()),
    {
        let mut i: usize = 0;
        while i < WORD_LEN
            invariant
                0 <= i <= WORD_LEN,
                forall|k: int| 0 <= k < i ==> self.0@[k] == GuessBlock::Correct,
            decreases WORD_LEN - i,
        {
            if self.0[i] != GuessBlock::Correct {
                assert(self@[i as int] != all_correct()[i as int]);
                return false;
            }
            i = i + 1;
        }
        assert(self@ =~= all_correct());
        true
    }

    /// Parses a feedback string: `G` correct, `O` present elsewhere, `B` absent.
    /// Every character is checked before the length.
    pub fn from_str(s: &str) -> (r: Result<GuessResult, FeedbackError>)
        ensures
            r is Ok <==> is_feedback_string(s@),
            r matches Ok(p) ==> p@ == decode(s@),
            r matches Err(FeedbackError::InvalidCharacter(c)) ==> exists|i: int|
                0 <= i < s@.len() && s@[i] == c && !is_symbol(c) && forall|j: int|
                    0 <= j < i ==> is_symbol(#[trigger] s@[j]),
            r matches Err(FeedbackError::InvalidLength(n)) ==> n == s@.len(),
            (forall|i: int| 0 <= i < s@.len() ==> is_symbol(#[trigger] s@[i])) && s@.len()
                != WORD_LEN ==> r is Err && r->Err_0 is InvalidLength,
            (exists|i: int| 0 <= i < s@.len() && !is_symbol(#[trigger] s@[i])) ==> r is Err
                && r->Err_0 is InvalidCharacter,
    {
        let n = s.unicode_len();
        let mut i: usize = 0;
        while i < n
            invariant
                0 <= i <= n,
                n == s@.len(),
                forall|j: int| 0 <= j < i ==> is_symbol(#[trigger] s@[j]),
            decreases n - i,
        {
            let c = s.get_char(i);
            if !(c == 'G' || c == 'O' || c == 'B') {
                return Err(FeedbackError::InvalidCharacter(c));
            }
            i = i + 1;
        }
        if n != WORD_LEN {
            return Err(FeedbackError::InvalidLength(n));
        }
        let mut marks: [GuessBlock; 5] = [GuessBlock::Wrong; 5];
        let mut i: usize = 0;
        while i < WORD_LEN
            invariant
                0 <= i <= WORD_LEN,
                s@.len() == WORD_LEN,
                forall|j: int| 0 <= j < i ==> marks@[j] == block_of(s@[j]),
            decreases WORD_LEN - i,
        {
            let c = s.get_char(i);
            marks[i] = if c == 'G' {
                GuessBlock::Correct
            } else if c == 'O' {
                GuessBlock::Partial
            } else {
                GuessBlock::Wrong
            };
            i = i + 1;
        }
        let r = GuessResult(marks);
        assert(r@ =~= decode(s@));
        Ok(r)
    }

    /// The feedback string of this pattern.
    pub fn to_string(&self) -> (r: String)
        ensures
            r@ == encode(self@),
    {
        let mut r = String::new();
        let mut i: usize = 0;
        while i < WORD_LEN
            invariant
                0 <= i <= WORD_LEN,
                r@ == encode(self@).take(i as int),
            decreases WORD_LEN - i,
        {
            let c = match self.0[i] {
                GuessBlock::Correct => 'G',
                GuessBlock::Partial => 'O',
                GuessBlock::Wrong => 'B',
            };
            r.push(c);
            assert(encode(self@).take(i + 1) =~= encode(self@).take(i as int).push(c));
            i = i + 1;
        }
        assert(encode(self@).take(5) =~= encode(self@));
        r
    }
}

} // verus!
