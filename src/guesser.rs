use vstd::prelude::*;
use rayon::iter::{IntoParallelRefIterator, ParallelIterator};
use crate::feedback::{GuessBlock, GuessResult};
use crate::groups::{consistent, is_grouping, total_size};
use crate::rank::{is_top_ranking, top_by_score};
use crate::feedback::all_correct;
use crate::word::{feedback, lemma_all_correct_iff_same, WordleWord};

verus! {

/// Why the guesser cannot answer.
#[derive(Copy, Clone, PartialEq, Eq, Structural, Debug)]
pub enum GuesserError {
    /// No word is consistent with the feedback observed so far.
    EmptyPossibilitySet,
}

/// What one observation did to the possibility set.
#[derive(Debug)]
pub struct Observation {
    /// The possibility set before filtering, grouped by the pattern that the
    /// guess receives from each word.
    pub groups: Vec<(GuessResult, usize)>,
    /// Size of the possibility set before filtering.
    pub before: usize,
    /// Size of the possibility set after filtering.
    pub after: usize,
}

/// Relies on rayon's `par_iter().map(..).collect()` over a `Vec`: one result
/// per item, in the order of the items, each the value of the closure, here
/// `feedback_groups` of that item against all of them.
#[verifier::external_body]
fn groups_in_parallel(words: &Vec<WordleWord>) -> (r: Vec<Vec<(GuessResult, usize)>>)
    ensures
        r@.len() == words@.len(),
        forall|i: int|
            0 <= i < r@.len() ==> is_grouping(#[trigger] r@[i]@, words@, words@[i]@),
{
    words.par_iter().map(|w| w.feedback_groups(words)).collect()
}

/// Filtering by an observation never adds words, keeps exactly the words
/// that would have produced the observed feedback, and drops the others.
pub proof fn lemma_observe_shrinks(before: Seq<WordleWord>, guess: Seq<char>, p: Seq<GuessBlock>)
    ensures
        consistent(before, guess, p).len() <= before.len(),
        forall|i: int|
            0 <= i < consistent(before, guess, p).len() ==> feedback(
                (#[trigger] consistent(before, guess, p)[i])@,
                guess,
            ) == p,
        forall|w: WordleWord|
            #[trigger] before.contains(w) ==> (consistent(before, guess, p).contains(w) <==> feedback(
                w@,
                guess,
            ) == p),
{
    let pred = |w: WordleWord| feedback(w@, guess) == p;
    before.lemma_filter_len(pred);
    assert forall|i: int| 0 <= i < before.filter(pred).len() implies feedback(
        (#[trigger] before.filter(pred)[i])@,
        guess,
    ) == p by {
        before.lemma_filter_pred(pred, i);
    }
    assert forall|w: WordleWord| #[trigger] before.contains(w) implies (before.filter(pred).contains(w)
        <==> feedback(w@, guess) == p) by {
        if before.filter(pred).contains(w) {
            let i = choose|i: int| 0 <= i < before.filter(pred).len() && before.filter(pred)[i] == w;
            before.lemma_filter_pred(pred, i);
        }
        if feedback(w@, guess) == p {
            let i = choose|i: int| 0 <= i < before.len() && before[i] == w;
            before.lemma_filter_contains(pred, i);
        }
    }
}

/// After an observation, the guessed word stays possible only when it was
/// correct at every position; and then the words left are exactly the copies
/// of the guessed word.
pub proof fn lemma_observe_guess(before: Seq<WordleWord>, guess: WordleWord, p: Seq<GuessBlock>)
    ensures
        p != all_correct() ==> forall|i: int|
            0 <= i < consistent(before, guess@, p).len() ==> (#[trigger] consistent(
                before,
                guess@,
                p,
            )[i])@ != guess@,
        p == all_correct() ==> consistent(before, guess@, p) == before.filter(
            |w: WordleWord| w@ == guess@,
        ),
{
    lemma_observe_shrinks(before, guess@, p);
    if p != all_correct() {
        assert forall|i: int| 0 <= i < consistent(before, guess@, p).len() implies (
        #[trigger] consistent(before, guess@, p)[i])@ != guess@ by {
            lemma_all_correct_iff_same(consistent(before, guess@, p)[i], guess);
        }
    } else {
        let f1 = |w: WordleWord| feedback(w@, guess@) == p;
        let f2 = |w: WordleWord| w@ == guess@;
        assert forall|w: WordleWord| #[trigger] f1(w) == f2(w) by {
            lemma_all_correct_iff_same(w, guess);
        }
        assert(f1 =~= f2);
    }
}

/// Keeps the words of a dictionary that agree with every observed feedback.
pub struct WordleGuesser<'list> {
    /// The dictionary, read only.
    pub list: &'list Vec<WordleWord>,
    possible: Vec<WordleWord>,
}

impl<'list> WordleGuesser<'list> {
    /// The dictionary the guesser was made with.
    pub closed spec fn dictionary(&self) -> Seq<WordleWord> {
        self.list@
    }

    /// The words still possible, in dictionary order.
    pub closed spec fn possible_words(&self) -> Seq<WordleWord> {
        self.possible@
    }

    /// Starts with every word of the dictionary possible.
    pub fn new(list: &'list Vec<WordleWord>) -> (r: Self)
        ensures
            r.dictionary() == list@,
            r.possible_words() == list@,
    {
        let mut possible: Vec<WordleWord> = Vec::new();
        let mut i: usize = 0;
        while i < list.len()
            invariant
                0 <= i <= list@.len(),
                possible@ == list@.take(i as int),
            decreases list@.len() - i,
        {
            possible.push(list[i]);
            assert(list@.take(i + 1) =~= list@.take(i as int).push(list@[i as int]));
            i = i + 1;
        }
        assert(list@.take(i as int) =~= list@);
        WordleGuesser { list, possible }
    }

    /// The words still possible.
    pub fn possible(&self) -> (r: &Vec<WordleWord>)
        ensures
            r@ == self.possible_words(),
    {
        &self.possible
    }

    /// Records that `word` was guessed and received `result`: keeps only the
    /// words that, as the hidden word, would have given that feedback.
    pub fn update(&mut self, word: &WordleWord, result: &GuessResult) -> (r: Result<
        Observation,
        GuesserError,
    >)
        ensures
            final(self).dictionary() == old(self).dictionary(),
            old(self).possible_words().len() == 0 <==> r == Err::<Observation, GuesserError>(
                GuesserError::EmptyPossibilitySet,
            ),
            r is Err ==> final(self).possible_words() == old(self).possible_words(),
            r matches Ok(o) ==> {
                &&& final(self).possible_words() == consistent(
                    old(self).possible_words(),
                    word@,
                    result@,
                )
                &&& is_grouping(o.groups@, old(self).possible_words(), word@)
                &&& total_size(o.groups@) == o.before
                &&& o.before == old(self).possible_words().len()
                &&& o.after == final(self).possible_words().len()
            },
    {
        if self.possible.len() == 0 {
            return Err(GuesserError::EmptyPossibilitySet);
        }
        let groups = word.feedback_groups(&self.possible);
        let before = self.possible.len();
        let ghost old_possible = self.possible@;
        let mut kept: Vec<WordleWord> = Vec::new();
        let mut i: usize = 0;
        while i < self.possible.len()
            invariant
                0 <= i <= self.possible@.len(),
                self.possible@ == old_possible,
                kept@ == consistent(old_possible.take(i as int), word@, result@),
            decreases self.possible@.len() - i,
        {
            let w = self.possible[i];
            let p = w.guess(word);
            proof {
                reveal(Seq::filter);
                assert(old_possible.take(i + 1).drop_last() =~= old_possible.take(i as int));
                assert(old_possible.take(i + 1).last() == w);
            }
            if p.same_as(result) {
                kept.push(w);
            }
            assert(kept@ == consistent(old_possible.take(i + 1), word@, result@));
            i = i + 1;
        }
        assert(old_possible.take(i as int) =~= old_possible);
        self.possible = kept;
        let after = self.possible.len();
        Ok(Observation { groups, before, after })
    }

    /// For each possible word, in order, the possibility set grouped by the
    /// pattern that word would receive.
    pub fn candidate_groups(&self) -> (r: Vec<Vec<(GuessResult, usize)>>)
        ensures
            r@.len() == self.possible_words().len(),
            forall|i: int|
                0 <= i < r@.len() ==> is_grouping(
                    #[trigger] r@[i]@,
                    self.possible_words(),
                    self.possible_words()[i]@,
                ),
    {
        groups_in_parallel(&self.possible)
    }

    /// Ranks the possible words by `scores` (one per possible word, in order,
    /// higher is better) and returns the positions of the best `max_num` of
    /// them in the possibility set, best first, equal scores in set order.
    pub fn suggest(&self, scores: &Vec<u64>, max_num: u32) -> (r: Result<Vec<usize>, GuesserError>)
        requires
            scores@.len() == self.possible_words().len(),
        ensures
            self.possible_words().len() == 0 <==> r == Err::<Vec<usize>, GuesserError>(
                GuesserError::EmptyPossibilitySet,
            ),
            r matches Ok(v) ==> is_top_ranking(v@, scores@, max_num as int),
    {
        if self.possible.len() == 0 {
            return Err(GuesserError::EmptyPossibilitySet);
        }
        Ok(top_by_score(scores, max_num as usize))
    }
}

} // verus!
