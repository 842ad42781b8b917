//! Retrieval: choosing the context documents of a question and the prompt
//! that presents them.
use vstd::prelude::*;

use crate::llm::{pair_views, rag_prompt, LlmClient};
use crate::ranking::{rank_by_score, top_k_of};

verus! {

/// The (content, relevance) pairs of the documents at positions `r`, in
/// that order.
pub open spec fn context_of(
    contents: Seq<String>,
    relevance: Seq<String>,
    r: Seq<usize>,
) -> Seq<(Seq<char>, Seq<char>)> {
    r.map_values(|i: usize| (contents[i as int]@, relevance[i as int]@))
}

/// The context of a question: the content and the relevance text of the
/// `top_k` best-scoring documents, best first. `scores[i]` is the score key
/// of document `i`, `None` for a document without an embedding.
pub fn select_context(
    contents: &[String],
    relevance: &[String],
    scores: &Vec<Option<u32>>,
    top_k: usize,
) -> (r: Vec<(String, String)>)
    requires
        contents@.len() == scores@.len(),
        relevance@.len() == scores@.len(),
    ensures
        pair_views(r@) == context_of(contents@, relevance@, top_k_of(scores@, top_k as nat)),
{
    let ranked = rank_by_score(scores, top_k);
    let mut out: Vec<(String, String)> = Vec::new();
    let mut i: usize = 0;
    while i < ranked.len()
        invariant
            i <= ranked@.len(),
            ranked@ == top_k_of(scores@, top_k as nat),
            crate::ranking::is_ranked_list(scores@, ranked@),
            contents@.len() == scores@.len(),
            relevance@.len() == scores@.len(),
            pair_views(out@) == context_of(contents@, relevance@, ranked@.take(i as int)),
        decreases ranked@.len() - i,
    {
        let d = ranked[i];
        assert(crate::ranking::is_candidate(scores@, ranked@[i as int] as int));
        let c = contents[d].clone();
        let s = relevance[d].clone();
        let ghost before = pair_views(out@);
        let ghost entry = (c@, s@);
        assert(entry == (contents@[d as int]@, relevance@[d as int]@));
        out.push((c, s));
        proof {
            assert(pair_views(out@) =~= before.push(entry));
            assert(ranked@.take(i + 1) =~= ranked@.take(i as int).push(d));
            assert(context_of(contents@, relevance@, ranked@.take(i + 1)) =~= context_of(
                contents@,
                relevance@,
                ranked@.take(i as int),
            ).push(entry));
        }
        i = i + 1;
    }
    proof {
        assert(ranked@.take(ranked@.len() as int) =~= ranked@);
    }
    out
}

/// The prompt of a query: `question` asked about the `top_k` best-scoring
/// documents, best first, each with its relevance text.
pub fn query_prompt(
    llm: &LlmClient,
    question: &str,
    contents: &[String],
    relevance: &[String],
    scores: &Vec<Option<u32>>,
    top_k: usize,
) -> (p: String)
    requires
        contents@.len() == scores@.len(),
        relevance@.len() == scores@.len(),
    ensures
        p@ == rag_prompt(
            question@,
            context_of(contents@, relevance@, top_k_of(scores@, top_k as nat)),
        ),
{
    let context = select_context(contents, relevance, scores, top_k);
    llm.build_rag_prompt(question, context.as_slice())
}

/// A search and a query over the same scores and `k` show the same
/// documents in the same order: the context of the query is, entry by
/// entry, the content and relevance of the documents that the search ranks.
pub proof fn lemma_search_and_query_agree(
    contents: Seq<String>,
    relevance: Seq<String>,
    scores: Seq<Option<u32>>,
    k: nat,
)
    ensures
        context_of(contents, relevance, top_k_of(scores, k)).len() == top_k_of(scores, k).len(),
        forall|i: int|
            0 <= i < top_k_of(scores, k).len() ==> #[trigger] context_of(
                contents,
                relevance,
                top_k_of(scores, k),
            )[i] == (contents[top_k_of(scores, k)[i] as int]@, relevance[top_k_of(
                scores,
                k,
            )[i] as int]@),
{
}

} // verus!
