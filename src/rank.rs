use vstd::prelude::*;
use vstd::set_lib::*;

verus! {

/// Position `a` comes before position `b`: a higher score, or the same score
/// and an earlier position.
pub open spec fn ranks_before(scores: Seq<u64>, a: int, b: int) -> bool {
    scores[a] > scores[b] || (scores[a] == scores[b] && a < b)
}

/// `r` lists the best `min(m, |scores|)` positions of `scores`, best first,
/// equal scores in the order they are given.
pub open spec fn is_top_ranking(r: Seq<usize>, scores: Seq<u64>, m: int) -> bool {
    &&& r.len() == if m < scores.len() {
        m
    } else {
        scores.len() as int
    }
    &&& forall|i: int| 0 <= i < r.len() ==> #[trigger] r[i] < scores.len()
    &&& forall|i: int, j: int|
        0 <= i < j < r.len() ==> ranks_before(scores, #[trigger] r[i] as int, #[trigger] r[j] as int)
    &&& forall|x: int, i: int|
        #![trigger r.contains(x as usize), r[i]]
        0 <= x < scores.len() && !r.contains(x as usize) && 0 <= i < r.len() ==> ranks_before(
            scores,
            r[i] as int,
            x,
        )
}

/// A ranking lists scores from highest to lowest, and holds as many
/// positions as asked for, or all of them when fewer exist.
pub proof fn lemma_ranking_sorted(r: Seq<usize>, scores: Seq<u64>, m: int)
    requires
        is_top_ranking(r, scores, m),
    ensures
        forall|i: int, j: int|
            0 <= i < j < r.len() ==> scores[#[trigger] r[i] as int] >= scores[#[trigger] r[j] as int],
        m >= 0 ==> r.len() == if m < scores.len() {
            m
        } else {
            scores.len() as int
        },
{
    assert forall|i: int, j: int| 0 <= i < j < r.len() implies scores[#[trigger] r[i] as int]
        >= scores[#[trigger] r[j] as int] by {
        assert(ranks_before(scores, r[i] as int, r[j] as int));
    }
}

proof fn lemma_room_left(r: Seq<usize>, n: int, scores: Seq<u64>)
    requires
        r.len() < n <= usize::MAX,
        forall|i: int| 0 <= i < r.len() ==> #[trigger] r[i] < n,
        forall|i: int, j: int|
            0 <= i < j < r.len() ==> ranks_before(scores, #[trigger] r[i] as int, #[trigger] r[j] as int),
    ensures
        exists|x: int| 0 <= x < n && !#[trigger] r.contains(x as usize),
{
    let rs = r.map_values(|v: usize| v as int);
    assert(rs.no_duplicates()) by {
        assert forall|i: int, j: int| 0 <= i < rs.len() && 0 <= j < rs.len() && i != j implies rs[i]
            != rs[j] by {
            if i < j {
                assert(ranks_before(scores, r[i] as int, r[j] as int));
            } else {
                assert(ranks_before(scores, r[j] as int, r[i] as int));
            }
        }
    }
    rs.unique_seq_to_set();
    vstd::seq_lib::seq_to_set_is_finite(rs);
    lemma_int_range(0, n);
    if forall|x: int| 0 <= x < n ==> #[trigger] r.contains(x as usize) {
        assert(set_int_range(0, n).subset_of(rs.to_set())) by {
            assert forall|x: int| set_int_range(0, n).contains(x) implies rs.to_set().contains(x) by {
                assert(r.contains(x as usize));
                let i = choose|i: int| 0 <= i < r.len() && r[i] == x as usize;
                assert(rs[i] == x);
            }
        }
        lemma_len_subset(set_int_range(0, n), rs.to_set());
    }
}

/// The positions of the `max_num` highest scores, highest first; equal scores
/// keep their order.
pub fn top_by_score(scores: &Vec<u64>, max_num: usize) -> (r: Vec<usize>)
    ensures
        is_top_ranking(r@, scores@, max_num as int),
{
    let n = scores.len();
    let m = if max_num < n {
        max_num
    } else {
        n
    };
    let mut taken: Vec<bool> = Vec::new();
    while taken.len() < n
        invariant
            taken@.len() <= n,
            forall|x: int| 0 <= x < taken@.len() ==> !taken@[x],
        decreases n - taken@.len(),
    {
        taken.push(false);
    }
    let mut r: Vec<usize> = Vec::new();
    while r.len() < m
        invariant
            n == scores@.len(),
            m <= n,
            r@.len() <= m,
            taken@.len() == n,
            forall|x: int| 0 <= x < n ==> (taken@[x] <==> r@.contains(x as usize)),
            forall|i: int| 0 <= i < r@.len() ==> #[trigger] r@[i] < n,
            forall|i: int, j: int|
                0 <= i < j < r@.len() ==> ranks_before(
                    scores@,
                    #[trigger] r@[i] as int,
                    #[trigger] r@[j] as int,
                ),
            forall|x: int, i: int|
                #![trigger taken@[x], r@[i]]
                0 <= x < n && !taken@[x] && 0 <= i < r@.len() ==> ranks_before(
                    scores@,
                    r@[i] as int,
                    x,
                ),
        decreases m - r@.len(),
    {
        let mut best: usize = n;
        let mut x: usize = 0;
        while x < n
            invariant
                n == scores@.len(),
                taken@.len() == n,
                0 <= x <= n,
                best == n || (best < x && !taken@[best as int]),
                forall|y: int|
                    0 <= y < x && !taken@[y] ==> best != n && (y == best || ranks_before(
                        scores@,
                        best as int,
                        y,
                    )),
            decreases n - x,
        {
            if !taken[x] && (best == n || scores[x] > scores[best]) {
                best = x;
            }
            x = x + 1;
        }
        proof {
            lemma_room_left(r@, n as int, scores@);
            let y = choose|y: int| 0 <= y < n && !#[trigger] r@.contains(y as usize);
            assert(!taken@[y]);
        }
        let ghost old_r = r@;
        r.push(best);
        taken.set(best, true);
        assert forall|y: int| 0 <= y < n implies (taken@[y] <==> r@.contains(y as usize)) by {
            if y != best {
                if r@.contains(y as usize) {
                    let i = choose|i: int| 0 <= i < r@.len() && r@[i] == y as usize;
                    assert(i < old_r.len());
                    assert(old_r.contains(y as usize));
                }
                if old_r.contains(y as usize) {
                    let i = choose|i: int| 0 <= i < old_r.len() && old_r[i] == y as usize;
                    assert(r@[i] == y as usize);
                }
            } else {
                assert(r@[old_r.len() as int] == best);
            }
        }
    }
    assert forall|x: int, i: int|
        #![trigger r@.contains(x as usize), r@[i]]
        0 <= x < n && !r@.contains(x as usize) && 0 <= i < r@.len() implies ranks_before(
            scores@,
            r@[i] as int,
            x,
        ) by {
        assert(!taken@[x]);
    }
    r
}

} // verus!
