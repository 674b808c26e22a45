//! Picking the best of a list of known `(distance, time)` cost pairs by
//! their weighted score.
//!
//! Scores are given by keys that order them: `Some(k)` where the score has
//! rank `k` among all scores (equal scores, equal keys), and `None` where
//! the score is not a number, which is never less than another score nor
//! another score less than it.
use vstd::prelude::*;

verus! {

/// Pair `i` is the one that a scan from the front keeps as best: the first
/// pair, replaced by each later pair whose score is less than the one kept.
/// So it is the first pair where that one has no score; else the first pair
/// of least score.
pub open spec fn is_best_pair(scores: Seq<Option<u64>>, i: int) -> bool {
    &&& 0 <= i < scores.len()
    &&& if scores[0] is None {
        i == 0
    } else {
        &&& scores[i] is Some
        &&& forall|k: int|
            0 <= k < scores.len() && #[trigger] scores[k] is Some ==> scores[i]->0 <= scores[k]->0
        &&& forall|k: int| 0 <= k < i && #[trigger] scores[k] is Some ==> scores[i]->0 < scores[k]->0
    }
}

/// The best pair is the first pair of least score where the first pair has a
/// score: no pair scores less, and every earlier pair with a score scores
/// more.  Where the first pair has none, it stays the best.
pub proof fn lemma_best_pair_is_first_of_least(scores: Seq<Option<u64>>, i: int, k: int)
    requires
        is_best_pair(scores, i),
        0 <= k < scores.len(),
    ensures
        scores[0] is None ==> i == 0,
        scores[0] is Some && scores[k] is Some ==> scores[i] is Some && scores[i]->0 <= scores[k]->0,
        scores[0] is Some && scores[k] is Some && k < i ==> scores[i]->0 < scores[k]->0,
        scores[0] is Some && scores[k] is Some && scores[k]->0 <= scores[i]->0 ==> i <= k,
{
}

/// The best pair is unique: a scan keeps exactly one.
pub proof fn lemma_best_pair_unique(scores: Seq<Option<u64>>, i: int, j: int)
    requires
        is_best_pair(scores, i),
        is_best_pair(scores, j),
    ensures
        i == j,
{
    if scores[0] is Some {
        if i < j {
            assert(scores[i] is Some);
        } else if j < i {
            assert(scores[j] is Some);
        }
    }
}

/// The index of the best pair, by the score keys of the pairs; `None` for
/// an empty list.
pub fn find_best_pair(scores: &Vec<Option<u64>>) -> (best: Option<usize>)
    ensures
        best is None <==> scores.len() == 0,
        best matches Some(i) ==> is_best_pair(scores@, i as int),
{
    if scores.len() == 0 {
        return None;
    }
    let mut best: usize = 0;
    let mut k: usize = 1;
    while k < scores.len()
        invariant
            1 <= k <= scores.len(),
            best < k,
            scores@[0] is None ==> best == 0,
            scores@[0] is Some ==> {
                &&& scores@[best as int] is Some
                &&& forall|m: int|
                    0 <= m < k && #[trigger] scores@[m] is Some ==> scores@[best as int]->0
                        <= scores@[m]->0
                &&& forall|m: int|
                    0 <= m < best && #[trigger] scores@[m] is Some ==> scores@[best as int]->0
                        < scores@[m]->0
            },
        decreases scores.len() - k,
    {
        let less = match (scores[k], scores[best]) {
            (Some(a), Some(b)) => a < b,
            _ => false,
        };
        if less {
            best = k;
        }
        k = k + 1;
    }
    Some(best)
}

} // verus!
