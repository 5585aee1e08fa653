use vstd::prelude::*;
use crate::feedback::{GuessBlock, GuessResult};
use crate::word::{feedback, WordleWord};

verus! {

/// The candidates that, taken as the hidden word, give `guess` the pattern `p`.
pub open spec fn consistent(cands: Seq<WordleWord>, guess: Seq<char>, p: Seq<GuessBlock>) -> Seq<
    WordleWord,
> {
    cands.filter(|w: WordleWord| feedback(w@, guess) == p)
}

/// Sum of the group sizes.
pub open spec fn total_size(groups: Seq<(GuessResult, usize)>) -> int
    decreases groups.len(),
{
    if groups.len() == 0 {
        0
    } else {
        total_size(groups.drop_last()) + groups.last().1
    }
}

/// `groups` partitions `cands` by the pattern that `guess` receives from each:
/// one entry per pattern that occurs, with the number of candidates giving it.
pub open spec fn is_grouping(
    groups: Seq<(GuessResult, usize)>,
    cands: Seq<WordleWord>,
    guess: Seq<char>,
) -> bool {
    &&& forall|i: int, j: int|
        0 <= i < j < groups.len() ==> (#[trigger] groups[i]).0@ != (#[trigger] groups[j]).0@
    &&& forall|i: int|
        0 <= i < groups.len() ==> #[trigger] groups[i].1 == consistent(
            cands,
            guess,
            groups[i].0@,
        ).len() && groups[i].1 >= 1
    &&& forall|k: int|
        0 <= k < cands.len() ==> exists|i: int|
            0 <= i < groups.len() && (#[trigger] groups[i]).0@ == feedback(
                (#[trigger] cands[k])@,
                guess,
            )
}

proof fn lemma_total_size_update(groups: Seq<(GuessResult, usize)>, j: int, g: (GuessResult, usize))
    requires
        0 <= j < groups.len(),
    ensures
        total_size(groups.update(j, g)) == total_size(groups) - groups[j].1 + g.1,
    decreases groups.len(),
{
    if j < groups.len() - 1 {
        assert(groups.update(j, g).drop_last() =~= groups.drop_last().update(j, g));
        lemma_total_size_update(groups.drop_last(), j, g);
    } else {
        assert(groups.update(j, g).drop_last() =~= groups.drop_last());
    }
}

proof fn lemma_consistent_push(cands: Seq<WordleWord>, k: int, guess: Seq<char>, p: Seq<GuessBlock>)
    requires
        0 <= k < cands.len(),
    ensures
        consistent(cands.take(k + 1), guess, p).len() == consistent(cands.take(k), guess, p).len()
            + if feedback(cands[k]@, guess) == p {
            1int
        } else {
            0int
        },
{
    reveal(Seq::filter);
    assert(cands.take(k + 1).drop_last() =~= cands.take(k));
}

proof fn lemma_total_size_at_least_len(groups: Seq<(GuessResult, usize)>)
    requires
        forall|i: int| 0 <= i < groups.len() ==> #[trigger] groups[i].1 >= 1,
    ensures
        total_size(groups) >= groups.len(),
        total_size(groups) == groups.len() <==> forall|i: int|
            0 <= i < groups.len() ==> #[trigger] groups[i].1 == 1,
    decreases groups.len(),
{
    if groups.len() > 0 {
        let rest = groups.drop_last();
        assert forall|i: int| 0 <= i < rest.len() implies #[trigger] rest[i].1 >= 1 by {
            assert(rest[i] == groups[i]);
        }
        lemma_total_size_at_least_len(rest);
        if total_size(groups) == groups.len() {
            assert forall|i: int| 0 <= i < groups.len() implies #[trigger] groups[i].1 == 1 by {
                if i < rest.len() {
                    assert(rest[i] == groups[i]);
                }
            }
        }
        if forall|i: int| 0 <= i < groups.len() ==> #[trigger] groups[i].1 == 1 {
            assert forall|i: int| 0 <= i < rest.len() implies #[trigger] rest[i].1 == 1 by {
                assert(rest[i] == groups[i]);
            }
            assert(groups[groups.len() - 1].1 == 1);
        }
    }
}

/// The two extremes of the entropy of a grouping of a non-empty candidate
/// list: there is a single group exactly when every candidate gives the guess
/// the same pattern (entropy zero), and there are as many groups as
/// candidates exactly when every group holds one candidate (entropy the
/// logarithm of the number of candidates). Every group holds at least one
/// candidate, so there are never more groups than candidates.
pub proof fn lemma_grouping_extremes(
    groups: Seq<(GuessResult, usize)>,
    cands: Seq<WordleWord>,
    guess: Seq<char>,
)
    requires
        is_grouping(groups, cands, guess),
        total_size(groups) == cands.len(),
        cands.len() > 0,
    ensures
        groups.len() <= cands.len(),
        groups.len() == 1 <==> forall|i: int, j: int|
            0 <= i < cands.len() && 0 <= j < cands.len() ==> feedback((#[trigger] cands[i])@, guess)
                == feedback((#[trigger] cands[j])@, guess),
        groups.len() == cands.len() <==> forall|i: int|
            0 <= i < groups.len() ==> #[trigger] groups[i].1 == 1,
{
    lemma_total_size_at_least_len(groups);
    let g0 = choose|i: int| 0 <= i < groups.len() && (#[trigger] groups[i]).0@ == feedback(
        (#[trigger] cands[0])@,
        guess,
    );
    if groups.len() == 1 {
        assert forall|i: int, j: int|
            0 <= i < cands.len() && 0 <= j < cands.len() implies feedback(
            (#[trigger] cands[i])@,
            guess,
        ) == feedback((#[trigger] cands[j])@, guess) by {
            let a = choose|a: int| 0 <= a < groups.len() && (#[trigger] groups[a]).0@ == feedback(
                cands[i]@,
                guess,
            );
            let b = choose|b: int| 0 <= b < groups.len() && (#[trigger] groups[b]).0@ == feedback(
                cands[j]@,
                guess,
            );
        }
    }
    if forall|i: int, j: int|
        0 <= i < cands.len() && 0 <= j < cands.len() ==> feedback((#[trigger] cands[i])@, guess)
            == feedback((#[trigger] cands[j])@, guess) {
        let q = feedback(cands[0]@, guess);
        assert forall|i: int| 0 <= i < groups.len() implies (#[trigger] groups[i]).0@ == q by {
            let pred = |w: WordleWord| feedback(w@, guess) == groups[i].0@;
            assert(groups[i].1 >= 1);
            assert(cands.filter(pred).len() >= 1);
            let w = cands.filter(pred)[0];
            cands.lemma_filter_pred(pred, 0);
            assert(cands.filter(pred).contains(w));
            cands.lemma_filter_contains_rev(pred, w);
            let m = choose|m: int| 0 <= m < cands.len() && cands[m] == w;
            assert(feedback(cands[m]@, guess) == q);
        }
        if groups.len() > 1 {
            let other = if g0 == 0 { 1int } else { 0int };
            assert(groups[g0].0@ == q);
            assert(groups[other].0@ == q);
            if g0 < other {
                assert(groups[g0].0@ != groups[other].0@);
            } else {
                assert(groups[other].0@ != groups[g0].0@);
            }
        }
    }
}

/// When every candidate gives the guess a different pattern, there are as
/// many groups as candidates, each of one candidate: the entropy is then the
/// logarithm of the number of candidates.
pub proof fn lemma_distinct_patterns_fill_groups(
    groups: Seq<(GuessResult, usize)>,
    cands: Seq<WordleWord>,
    guess: Seq<char>,
)
    requires
        is_grouping(groups, cands, guess),
        total_size(groups) == cands.len(),
        cands.len() > 0,
        forall|i: int, j: int|
            0 <= i < cands.len() && 0 <= j < cands.len() && i != j ==> feedback(
                (#[trigger] cands[i])@,
                guess,
            ) != feedback((#[trigger] cands[j])@, guess),
    ensures
        groups.len() == cands.len(),
        forall|i: int| 0 <= i < groups.len() ==> #[trigger] groups[i].1 == 1,
{
    lemma_grouping_extremes(groups, cands, guess);
    let ks = Seq::new(
        cands.len(),
        |k: int|
            choose|i: int|
                0 <= i < groups.len() && (#[trigger] groups[i]).0@ == feedback(cands[k]@, guess),
    );
    assert forall|k: int| 0 <= k < ks.len() implies 0 <= #[trigger] ks[k] < groups.len()
        && groups[ks[k]].0@ == feedback(cands[k]@, guess) by {
        let i = choose|i: int|
            0 <= i < groups.len() && (#[trigger] groups[i]).0@ == feedback(
                (#[trigger] cands[k])@,
                guess,
            );
    }
    assert(ks.no_duplicates()) by {
        assert forall|a: int, b: int| 0 <= a < ks.len() && 0 <= b < ks.len() && a != b implies ks[a]
            != ks[b] by {
            assert(0 <= ks[a] < groups.len());
            assert(0 <= ks[b] < groups.len());
        }
    }
    ks.unique_seq_to_set();
    vstd::set_lib::lemma_int_range(0, groups.len() as int);
    assert(ks.to_set().subset_of(vstd::set_lib::set_int_range(0, groups.len() as int))) by {
        assert forall|x: int| ks.to_set().contains(x) implies vstd::set_lib::set_int_range(
            0,
            groups.len() as int,
        ).contains(x) by {
            let k = choose|k: int| 0 <= k < ks.len() && ks[k] == x;
            assert(0 <= ks[k] < groups.len());
        }
    }
    vstd::set_lib::lemma_len_subset(ks.to_set(), vstd::set_lib::set_int_range(0, groups.len() as int));
}

impl WordleWord {
    /// Groups `candidates` by the pattern that `self` receives from each of
    /// them, taken as the hidden word.
    pub fn feedback_groups(&self, candidates: &Vec<WordleWord>) -> (r: Vec<(GuessResult, usize)>)
        ensures
            is_grouping(r@, candidates@, self@),
            total_size(r@) == candidates@.len(),
            r@.len() <= candidates@.len(),
    {
        let mut groups: Vec<(GuessResult, usize)> = Vec::new();
        let mut k: usize = 0;
        while k < candidates.len()
            invariant
                0 <= k <= candidates@.len(),
                is_grouping(groups@, candidates@.take(k as int), self@),
                total_size(groups@) == k,
                groups@.len() <= k,
            decreases candidates@.len() - k,
        {
            let ghost before = groups@;
            let ghost cs = candidates@;
            let p = candidates[k].guess(self);
            let mut j: usize = 0;
            let mut found = false;
            while j < groups.len() && !found
                invariant
                    0 <= j <= groups@.len(),
                    groups@ == before,
                    found ==> j < groups@.len() && groups@[j as int].0@ == p@,
                    forall|i: int| 0 <= i < j ==> (#[trigger] groups@[i]).0@ != p@,
                decreases groups@.len() - j + if found {
                    0int
                } else {
                    1int
                },
            {
                if groups[j].0.same_as(&p) {
                    found = true;
                } else {
                    j = j + 1;
                }
            }
            proof {
                assert forall|i: int| 0 <= i < before.len() implies #[trigger] consistent(
                    cs.take(k + 1),
                    self@,
                    before[i].0@,
                ).len() == consistent(cs.take(k as int), self@, before[i].0@).len() + if before[i].0@ == p@ {
                    1int
                } else {
                    0int
                } by {
                    lemma_consistent_push(cs, k as int, self@, before[i].0@);
                }
                lemma_consistent_push(cs, k as int, self@, p@);
                reveal(Seq::filter);
            }
            if found {
                let c = groups[j].1;
                proof {
                    lemma_total_size_update(groups@, j as int, (p, (c + 1) as usize));
                }
                groups.set(j, (p, c + 1));
                assert forall|kk: int| 0 <= kk < k + 1 implies exists|i: int|
                    0 <= i < groups@.len() && (#[trigger] groups@[i]).0@ == feedback(
                        (#[trigger] cs.take(k + 1)[kk])@,
                        self@,
                    ) by {
                    if kk < k {
                        assert(cs.take(k as int)[kk] == cs.take(k + 1)[kk]);
                        let i = choose|i: int|
                            0 <= i < before.len() && (#[trigger] before[i]).0@ == feedback(
                                cs.take(k as int)[kk]@,
                                self@,
                            );
                        assert(groups@[i].0@ == before[i].0@);
                    } else {
                        assert(groups@[j as int].0@ == feedback(cs.take(k + 1)[kk]@, self@));
                    }
                }
            } else {
                assert(consistent(cs.take(k as int), self@, p@).len() == 0) by {
                    let pred = |w: WordleWord| feedback(w@, self@) == p@;
                    let ts = cs.take(k as int);
                    if ts.filter(pred).len() > 0 {
                        let w = ts.filter(pred)[0];
                        ts.lemma_filter_pred(pred, 0);
                        assert(ts.filter(pred).contains(w));
                        ts.lemma_filter_contains_rev(pred, w);
                        let m = choose|m: int| 0 <= m < ts.len() && ts[m] == w;
                        let i = choose|i: int|
                            0 <= i < before.len() && (#[trigger] before[i]).0@ == feedback(
                                ts[m]@,
                                self@,
                            );
                        assert(before[i].0@ != p@);
                    }
                }
                groups.push((p, 1));
                assert forall|kk: int| 0 <= kk < k + 1 implies exists|i: int|
                    0 <= i < groups@.len() && (#[trigger] groups@[i]).0@ == feedback(
                        (#[trigger] cs.take(k + 1)[kk])@,
                        self@,
                    ) by {
                    if kk < k {
                        assert(cs.take(k as int)[kk] == cs.take(k + 1)[kk]);
                        let i = choose|i: int|
                            0 <= i < before.len() && (#[trigger] before[i]).0@ == feedback(
                                cs.take(k as int)[kk]@,
                                self@,
                            );
                        assert(groups@[i].0@ == before[i].0@);
                    } else {
                        assert(groups@[before.len() as int].0@ == feedback(cs.take(k + 1)[kk]@, self@));
                    }
                }
                assert(groups@.drop_last() =~= before);
            }
            k = k + 1;
        }
        assert(candidates@.take(k as int) =~= candidates@);
        groups
    }
}

} // verus!
