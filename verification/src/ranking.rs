//! Ranking of documents by relevance: the stable "top k" selection used when
//! answering a question and when searching the index.
use vstd::prelude::*;

verus! {

/// Position `i` holds a document that has a relevance score.
pub open spec fn is_candidate(scores: Seq<Option<u32>>, i: int) -> bool {
    0 <= i < scores.len() && scores[i] is Some
}

/// The relevance key of a candidate.
pub open spec fn key_of(scores: Seq<Option<u32>>, i: int) -> u32 {
    scores[i]->0
}

/// Candidate `a` is ranked ahead of candidate `b`: a strictly higher key, or
/// an equal key and an earlier position (the order a stable sort keeps).
pub open spec fn ranks_before(scores: Seq<Option<u32>>, a: int, b: int) -> bool {
    ||| key_of(scores, a) > key_of(scores, b)
    ||| (key_of(scores, a) == key_of(scores, b) && a < b)
}

/// `r` lists candidates strictly in ranking order.
pub open spec fn is_ranked_list(scores: Seq<Option<u32>>, r: Seq<usize>) -> bool {
    &&& forall|i: int| 0 <= i < r.len() ==> #[trigger] is_candidate(scores, r[i] as int)
    &&& forall|i: int, j: int|
        0 <= i < j < r.len() ==> ranks_before(scores, #[trigger] r[i] as int, #[trigger] r[j] as int)
}

/// `r` is the list of the (at most) `k` best-ranked candidates, best first.
/// Every candidate left out was left out because `k` were already taken and
/// each of them ranks ahead of it.
pub open spec fn is_top_k(scores: Seq<Option<u32>>, k: nat, r: Seq<usize>) -> bool {
    &&& r.len() <= k
    &&& is_ranked_list(scores, r)
    &&& forall|x: usize|
        #![trigger is_candidate(scores, x as int)]
        is_candidate(scores, x as int) && !r.contains(x) ==> {
            &&& r.len() == k
            &&& forall|i: int| 0 <= i < r.len() ==> ranks_before(scores, #[trigger] r[i] as int, x as int)
        }
}

/// The top `k` list of the scores (there is exactly one; see
/// `lemma_top_k_unique`).
pub open spec fn top_k_of(scores: Seq<Option<u32>>, k: nat) -> Seq<usize> {
    choose|r: Seq<usize>| is_top_k(scores, k, r)
}

/// Returns the positions of the `top_k` highest-scoring documents, best
/// first; documents without a score (`None`) are skipped, and documents with
/// equal scores keep their original order.
pub fn rank_by_score(scores: &Vec<Option<u32>>, top_k: usize) -> (r: Vec<usize>)
    ensures
        is_top_k(scores@, top_k as nat, r@),
        r@ == top_k_of(scores@, top_k as nat),
        forall|i: int, j: int|
            #![trigger r@[i], r@[j]]
            0 <= i < j < r@.len() ==> {
                ||| scores@[r@[i] as int]->0 > scores@[r@[j] as int]->0
                ||| (scores@[r@[i] as int]->0 == scores@[r@[j] as int]->0 && r@[i] < r@[j])
            },
{
    let n = scores.len();
    let mut sorted: Vec<usize> = Vec::new();
    let mut i: usize = 0;
    while i < n
        invariant
            i <= n,
            n == scores@.len(),
            is_ranked_list(scores@, sorted@),
            forall|j: int| 0 <= j < sorted@.len() ==> #[trigger] sorted@[j] < i,
            forall|x: int|
                #![trigger is_candidate(scores@, x)]
                0 <= x < i && is_candidate(scores@, x) ==> sorted@.contains(x as usize),
        decreases n - i,
    {
        match scores[i] {
            Some(s) => {
                let mut p: usize = 0;
                while p < sorted.len()
                    invariant
                        p <= sorted@.len(),
                        n == scores@.len(),
                        i < n,
                        scores@[i as int] == Some(s),
                        is_ranked_list(scores@, sorted@),
                        forall|j: int| 0 <= j < sorted@.len() ==> #[trigger] sorted@[j] < i,
                        forall|q: int|
                            0 <= q < p ==> ranks_before(scores@, #[trigger] sorted@[q] as int, i as int),
                    ensures
                        p <= sorted@.len(),
                        forall|q: int|
                            0 <= q < p ==> ranks_before(scores@, #[trigger] sorted@[q] as int, i as int),
                        p < sorted@.len() ==> key_of(scores@, sorted@[p as int] as int) < s,
                    decreases sorted@.len() - p,
                {
                    let other = sorted[p];
                    assert(is_candidate(scores@, sorted@[p as int] as int));
                    let ko = match scores[other] {
                        Some(v) => v,
                        None => 0,
                    };
                    if ko < s {
                        break;
                    }
                    p = p + 1;
                }
                proof {
                    assert forall|q: int| p <= q < sorted@.len() implies ranks_before(
                        scores@,
                        i as int,
                        #[trigger] sorted@[q] as int,
                    ) by {
                        if q > p {
                            assert(ranks_before(scores@, sorted@[p as int] as int, sorted@[q] as int));
                        }
                    }
                }
                let ghost old_sorted = sorted@;
                sorted.insert(p, i);
                proof {
                    assert forall|a: int, b: int| 0 <= a < b < sorted@.len() implies ranks_before(
                        scores@,
                        #[trigger] sorted@[a] as int,
                        #[trigger] sorted@[b] as int,
                    ) by {
                        if b < p {
                            assert(sorted@[a] == old_sorted[a] && sorted@[b] == old_sorted[b]);
                        } else if b == p {
                            assert(sorted@[a] == old_sorted[a]);
                        } else if a < p {
                            assert(sorted@[a] == old_sorted[a] && sorted@[b] == old_sorted[b - 1]);
                        } else if a == p {
                            assert(sorted@[b] == old_sorted[b - 1]);
                        } else {
                            assert(sorted@[a] == old_sorted[a - 1] && sorted@[b] == old_sorted[b - 1]);
                        }
                    }
                    assert forall|j: int| 0 <= j < sorted@.len() implies #[trigger] is_candidate(
                        scores@,
                        sorted@[j] as int,
                    ) by {
                        if j < p {
                            assert(sorted@[j] == old_sorted[j]);
                        } else if j > p {
                            assert(sorted@[j] == old_sorted[j - 1]);
                        }
                    }
                    assert forall|j: int| 0 <= j < sorted@.len() implies #[trigger] sorted@[j] < i + 1 by {
                        if j < p {
                            assert(sorted@[j] == old_sorted[j]);
                        } else if j > p {
                            assert(sorted@[j] == old_sorted[j - 1]);
                        }
                    }
                    assert forall|x: int|
                        #![trigger is_candidate(scores@, x)]
                        0 <= x < i + 1 && is_candidate(scores@, x) implies sorted@.contains(x as usize) by {
                        if x == i {
                            assert(sorted@[p as int] == i);
                        } else {
                            assert(old_sorted.contains(x as usize));
                            let k = choose|k: int| 0 <= k < old_sorted.len() && old_sorted[k] == x as usize;
                            if k < p {
                                assert(sorted@[k] == x as usize);
                            } else {
                                assert(sorted@[k + 1] == x as usize);
                            }
                        }
                    }
                }
            },
            None => {
                proof {
                    assert forall|x: int|
                        #![trigger is_candidate(scores@, x)]
                        0 <= x < i + 1 && is_candidate(scores@, x) implies sorted@.contains(x as usize) by {
                        assert(x != i);
                    }
                }
            },
        }
        i = i + 1;
    }
    let ghost full = sorted@;
    sorted.truncate(top_k);
    proof {
        let r = sorted@;
        assert forall|x: usize|
            #![trigger is_candidate(scores@, x as int)]
            is_candidate(scores@, x as int) && !r.contains(x) implies {
                &&& r.len() == top_k as nat
                &&& forall|i: int| 0 <= i < r.len() ==> ranks_before(scores@, #[trigger] r[i] as int, x as int)
            } by {
            assert(full.contains(x));
            let q = choose|q: int| 0 <= q < full.len() && full[q] == x;
            if q < r.len() {
                assert(r[q] == x);
            }
            assert forall|i: int| 0 <= i < r.len() implies ranks_before(scores@, #[trigger] r[i] as int, x as int) by {
                assert(r[i] == full[i]);
                assert(ranks_before(scores@, full[i] as int, full[q] as int));
            }
        }
        assert(is_top_k(scores@, top_k as nat, r));
        lemma_top_k_unique(scores@, top_k as nat, r, top_k_of(scores@, top_k as nat));
        lemma_top_k_by_score(scores@, top_k as nat, r);
    }
    sorted
}

/// Two top lists taken from the same scores agree position by position on
/// their common length.
proof fn lemma_top_lists_agree(
    scores: Seq<Option<u32>>,
    k1: nat,
    r1: Seq<usize>,
    k2: nat,
    r2: Seq<usize>,
    i: int,
)
    requires
        is_top_k(scores, k1, r1),
        is_top_k(scores, k2, r2),
        0 <= i <= r1.len(),
        i <= r2.len(),
    ensures
        forall|j: int| 0 <= j < i ==> r1[j] == r2[j],
    decreases i,
{
    if i > 0 {
        lemma_top_lists_agree(scores, k1, r1, k2, r2, i - 1);
        let m = i - 1;
        let a = r1[m];
        let b = r2[m];
        assert(is_candidate(scores, a as int));
        assert(is_candidate(scores, b as int));
        if a != b {
            if ranks_before(scores, a as int, b as int) {
                if r2.contains(a) {
                    let j = choose|j: int| 0 <= j < r2.len() && r2[j] == a;
                    if j < m {
                        assert(r1[j] == r2[j]);
                        assert(ranks_before(scores, r1[j] as int, r1[m] as int));
                    } else {
                        assert(ranks_before(scores, r2[m] as int, r2[j] as int));
                    }
                } else {
                    assert(ranks_before(scores, r2[m] as int, a as int));
                }
            } else {
                if r1.contains(b) {
                    let j = choose|j: int| 0 <= j < r1.len() && r1[j] == b;
                    if j < m {
                        assert(r1[j] == r2[j]);
                        assert(ranks_before(scores, r2[j] as int, r2[m] as int));
                    } else {
                        assert(ranks_before(scores, r1[m] as int, r1[j] as int));
                    }
                } else {
                    assert(ranks_before(scores, r1[m] as int, b as int));
                }
            }
        }
    }
}

/// Asking for fewer results gives a prefix of what asking for more gives:
/// for `k1 <= k2`, the top `k1` list is the start of the top `k2` list.
pub proof fn lemma_top_k_prefix(
    scores: Seq<Option<u32>>,
    k1: nat,
    r1: Seq<usize>,
    k2: nat,
    r2: Seq<usize>,
)
    requires
        is_top_k(scores, k1, r1),
        is_top_k(scores, k2, r2),
        k1 <= k2,
    ensures
        r1.len() <= r2.len(),
        r1 == r2.take(r1.len() as int),
{
    if r1.len() > r2.len() {
        let m = r2.len() as int;
        lemma_top_lists_agree(scores, k1, r1, k2, r2, m);
        let x = r1[m];
        assert(is_candidate(scores, x as int));
        if r2.contains(x) {
            let j = choose|j: int| 0 <= j < r2.len() && r2[j] == x;
            assert(r1[j] == r2[j]);
            assert(ranks_before(scores, r1[j] as int, r1[m] as int));
        }
        assert(r2.len() == k2);
    }
    lemma_top_lists_agree(scores, k1, r1, k2, r2, r1.len() as int);
    assert(r1 =~= r2.take(r1.len() as int));
}

/// The top `k` list is determined by the scores alone: two lists that both
/// are the top `k` of the same scores are equal.
pub proof fn lemma_top_k_unique(scores: Seq<Option<u32>>, k: nat, r1: Seq<usize>, r2: Seq<usize>)
    requires
        is_top_k(scores, k, r1),
        is_top_k(scores, k, r2),
    ensures
        r1 == r2,
{
    lemma_top_k_prefix(scores, k, r1, k, r2);
    lemma_top_k_prefix(scores, k, r2, k, r1);
    assert(r1 =~= r2);
}

/// A top list is ordered by the scores themselves: every listed document
/// has a score; a listed document has a higher score than every document
/// listed after it, or the same score and an earlier position; and a scored
/// document left out was left out only because `k` documents were listed,
/// each with a higher score, or the same score and an earlier position.
pub proof fn lemma_top_k_by_score(scores: Seq<Option<u32>>, k: nat, r: Seq<usize>)
    requires
        is_top_k(scores, k, r),
    ensures
        forall|i: int| 0 <= i < r.len() ==> r[i] < scores.len() && (#[trigger] scores[r[i] as int]) is Some,
        forall|i: int, j: int|
            #![trigger r[i], r[j]]
            0 <= i < j < r.len() ==> {
                ||| scores[r[i] as int]->0 > scores[r[j] as int]->0
                ||| (scores[r[i] as int]->0 == scores[r[j] as int]->0 && r[i] < r[j])
            },
        forall|x: usize, i: int|
            #![trigger scores[x as int], r[i]]
            x < scores.len() && scores[x as int] is Some && !r.contains(x) && 0 <= i < r.len() ==> {
                &&& r.len() == k
                &&& {
                    ||| scores[r[i] as int]->0 > scores[x as int]->0
                    ||| (scores[r[i] as int]->0 == scores[x as int]->0 && r[i] < x)
                }
            },
{
    assert forall|i: int| 0 <= i < r.len() implies r[i] < scores.len() && (#[trigger] scores[r[i] as int]) is Some by {
        assert(is_candidate(scores, r[i] as int));
    }
    assert forall|i: int, j: int|
        #![trigger r[i], r[j]]
        0 <= i < j < r.len() implies {
            ||| scores[r[i] as int]->0 > scores[r[j] as int]->0
            ||| (scores[r[i] as int]->0 == scores[r[j] as int]->0 && r[i] < r[j])
        } by {
        assert(ranks_before(scores, r[i] as int, r[j] as int));
    }
    assert forall|x: usize, i: int|
        #![trigger scores[x as int], r[i]]
        x < scores.len() && scores[x as int] is Some && !r.contains(x) && 0 <= i < r.len() implies {
            &&& r.len() == k
            &&& {
                ||| scores[r[i] as int]->0 > scores[x as int]->0
                ||| (scores[r[i] as int]->0 == scores[x as int]->0 && r[i] < x)
            }
        } by {
        assert(is_candidate(scores, x as int));
        assert(ranks_before(scores, r[i] as int, x as int));
    }
}

/// The first of a top list holds the highest score of all scored documents.
pub proof fn lemma_top_first_is_best(scores: Seq<Option<u32>>, k: nat, r: Seq<usize>, x: usize)
    requires
        is_top_k(scores, k, r),
        r.len() > 0,
        is_candidate(scores, x as int),
    ensures
        key_of(scores, r[0] as int) >= key_of(scores, x as int),
{
    if r.contains(x) {
        let j = choose|j: int| 0 <= j < r.len() && r[j] == x;
        if j > 0 {
            assert(ranks_before(scores, r[0] as int, r[j] as int));
        }
    } else {
        assert(ranks_before(scores, r[0] as int, x as int));
    }
}

} // verus!
