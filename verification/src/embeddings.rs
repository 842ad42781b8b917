//! Local bag-of-words embeddings: which of the embedding's dimensions each
//! word and each character trigram of a text feeds.
use std::collections::hash_map::DefaultHasher;
use std::hash::{Hash, Hasher};
use vstd::prelude::*;
use vstd::utf8::encode_utf8;

use crate::llm::new_http_client;
use crate::text::{ascii_lower, eq_ignore_ascii_case, split_words, string_chars, words};

verus! {

/// Number of dimensions of an embedding.
pub const EMBEDDING_DIM: usize = 384;

/// What `str::to_lowercase` returns for a text (Unicode lower case mapping).
pub uninterp spec fn lowercase(s: Seq<char>) -> Seq<char>;

/// Every character of the text is ASCII.
pub open spec fn is_ascii_text(s: Seq<char>) -> bool {
    forall|i: int| 0 <= i < s.len() ==> (#[trigger] s[i] as u32) < 128
}

/// The text with `A`-`Z` turned into `a`-`z`, all else unchanged.
pub open spec fn ascii_lowercase(s: Seq<char>) -> Seq<char> {
    s.map_values(|c: char| ascii_lower(c))
}

/// The lower-case form of a text: the Unicode lower case mapping of
/// `str::to_lowercase`.
pub open spec fn lower_form(s: Seq<char>) -> Seq<char> {
    lowercase(s)
}

/// Calls `str::to_lowercase`. The contract names the result as the lower
/// case form of the argument (a function of the text alone) and states the
/// ASCII part of the Unicode mapping: on ASCII text, `A`-`Z` become `a`-`z`
/// and every other character stays. The rest of the mapping is left unsaid.
#[verifier::external_body]
fn to_lowercase(s: &str) -> (r: String)
    ensures
        r@ == lowercase(s@),
        is_ascii_text(s@) ==> r@ == ascii_lowercase(s@),
{
    s.to_lowercase()
}

/// The 64-bit hash that std's `DefaultHasher::new()` gives for a string
/// (`str`'s `Hash`, which `String` shares).
pub uninterp spec fn text_hash(s: Seq<char>) -> u64;

/// Hashes the string made of `chars` with a fresh `DefaultHasher` (std's
/// `DefaultHasher::new`, `Hash::hash`, `Hasher::finish`). The contract names
/// the result as a function of the characters alone: std documents that all
/// hashers made by `DefaultHasher::new` are the same, so equal texts hash
/// equally; which number comes out is left unsaid (std does not fix the
/// algorithm across its releases).
#[verifier::external_body]
fn hash_text(chars: &[char]) -> (h: u64)
    ensures
        h == text_hash(chars@),
{
    let s: String = chars.iter().collect();
    let mut hasher = DefaultHasher::new();
    s.hash(&mut hasher);
    hasher.finish()
}

/// The dimension that hash `h`, moved on by `offset`, selects.
pub open spec fn slot(h: u64, offset: u64) -> usize {
    (h.wrapping_add(offset) as usize) % EMBEDDING_DIM
}

/// Three dimensions per word, in word order: the word's hash moved on by
/// 0, 1 and 2.
pub open spec fn word_slots(ws: Seq<Seq<char>>) -> Seq<usize> {
    Seq::new(3 * ws.len(), |j: int| slot(text_hash(ws[j / 3]), (j % 3) as u64))
}

/// One dimension per character trigram of the text, in order.
pub open spec fn ngram_slots(s: Seq<char>) -> Seq<usize> {
    let n: int = if s.len() >= 3 {
        s.len() - 2
    } else {
        0
    };
    Seq::new(n as nat, |j: int| slot(text_hash(s.subrange(j, j + 3)), 0))
}

/// How the embedding of a text is put together: each word adds
/// `1 / word_count` to each of its three dimensions (in `word_slots` order),
/// then each trigram adds `0.5 / text_bytes` to its dimension (in
/// `ngram_slots` order); the sum is scaled to unit length when it is not zero.
pub struct EmbeddingPlan {
    /// Number of words of the lower-cased text.
    pub word_count: usize,
    /// Length in UTF-8 bytes of the lower-cased text.
    pub text_bytes: usize,
    /// Dimensions fed by the words.
    pub word_slots: Vec<usize>,
    /// Dimensions fed by the character trigrams.
    pub ngram_slots: Vec<usize>,
}

/// `p` is the plan of the embedding of `text`. A text without words has the
/// zero embedding: nothing is added at all.
pub open spec fn is_plan_of(text: Seq<char>, p: EmbeddingPlan) -> bool {
    let lower = lower_form(text);
    let ws = words(lower);
    &&& is_ascii_text(text) ==> lower == ascii_lowercase(text)
    &&& p.word_count == ws.len()
    &&& p.text_bytes == encode_utf8(lower).len() as usize
    &&& ws.len() == 0 ==> p.word_slots@ == Seq::<usize>::empty() && p.ngram_slots@ == Seq::<
        usize,
    >::empty()
    &&& ws.len() > 0 ==> p.word_slots@ == word_slots(ws) && p.ngram_slots@ == ngram_slots(lower)
}

/// The embedding of a text depends only on its lower-cased form: texts
/// that differ only in letter case get the same plan.
pub proof fn lemma_plan_ignores_case(t1: Seq<char>, p1: EmbeddingPlan, t2: Seq<char>, p2: EmbeddingPlan)
    requires
        is_plan_of(t1, p1),
        is_plan_of(t2, p2),
        lower_form(t1) == lower_form(t2),
    ensures
        p1.word_count == p2.word_count,
        p1.text_bytes == p2.text_bytes,
        p1.word_slots@ == p2.word_slots@,
        p1.ngram_slots@ == p2.ngram_slots@,
{
}

/// Every dimension that a plan names is a dimension of the embedding, and
/// each word feeds exactly three of them.
pub proof fn lemma_plan_slots_in_range(t: Seq<char>, p: EmbeddingPlan)
    requires
        is_plan_of(t, p),
    ensures
        forall|j: int| 0 <= j < p.word_slots@.len() ==> #[trigger] p.word_slots@[j] < EMBEDDING_DIM,
        forall|j: int| 0 <= j < p.ngram_slots@.len() ==> #[trigger] p.ngram_slots@[j] < EMBEDDING_DIM,
        p.word_slots@.len() == 3 * p.word_count,
{
}

/// ASCII texts that are equal up to letter case get the same plan, e.g.
/// `Rust Ownership` and `rust ownership`.
pub proof fn lemma_plan_ignores_ascii_case(
    t1: Seq<char>,
    p1: EmbeddingPlan,
    t2: Seq<char>,
    p2: EmbeddingPlan,
)
    requires
        is_plan_of(t1, p1),
        is_plan_of(t2, p2),
        is_ascii_text(t1),
        is_ascii_text(t2),
        eq_ignore_ascii_case(t1, t2),
    ensures
        p1.word_count == p2.word_count,
        p1.text_bytes == p2.text_bytes,
        p1.word_slots@ == p2.word_slots@,
        p1.ngram_slots@ == p2.ngram_slots@,
{
    assert(ascii_lowercase(t1) =~= ascii_lowercase(t2));
    lemma_plan_ignores_case(t1, p1, t2, p2);
}

/// Texts with the same lower case (`str::to_lowercase`) get the same plan,
/// whatever their letters: `Über Rust` and `über rust` embed alike.
pub proof fn lemma_plan_follows_to_lowercase(
    t1: Seq<char>,
    p1: EmbeddingPlan,
    t2: Seq<char>,
    p2: EmbeddingPlan,
)
    requires
        is_plan_of(t1, p1),
        is_plan_of(t2, p2),
        lowercase(t1) == lowercase(t2),
    ensures
        p1.word_count == p2.word_count,
        p1.text_bytes == p2.text_bytes,
        p1.word_slots@ == p2.word_slots@,
        p1.ngram_slots@ == p2.ngram_slots@,
{
    lemma_plan_ignores_case(t1, p1, t2, p2);
}

/// How the embedding of a text is obtained.
pub enum EmbeddingJob {
    /// The local embedding, made by this plan.
    Local(EmbeddingPlan),
    /// The embedding that the Ollama embeddings API returns for this prompt.
    Ollama(String),
}

/// `job` is how a generator that uses the local embeddings (or not) gets the
/// embedding of `text`.
pub open spec fn is_job_of(use_simple: bool, text: Seq<char>, job: EmbeddingJob) -> bool {
    if use_simple {
        job matches EmbeddingJob::Local(p) && is_plan_of(text, p)
    } else {
        job matches EmbeddingJob::Ollama(prompt) && prompt@ == text
    }
}

/// Produces embeddings for texts.
pub struct EmbeddingGenerator {
    client: reqwest::Client,
    use_simple: bool,
}

impl EmbeddingGenerator {
    /// Whether the local embeddings are used.
    pub closed spec fn uses_simple(&self) -> bool {
        self.use_simple
    }

    /// A generator that uses the local embeddings when `use_simple` holds.
    pub fn new(use_simple: bool) -> (g: Self)
        ensures
            g.uses_simple() == use_simple,
    {
        EmbeddingGenerator { client: new_http_client(), use_simple }
    }

    /// The HTTP client of the generator: the one it was made with.
    pub fn client(&self) -> (c: &reqwest::Client)
        ensures
            *c == self.http_client(),
    {
        &self.client
    }

    /// The HTTP client that the generator was made with.
    pub closed spec fn http_client(&self) -> reqwest::Client {
        self.client
    }

    /// How to get the embedding of a text: the local plan when local
    /// embeddings are used, else a request to the Ollama embeddings API with
    /// the text as its prompt.
    pub fn generate_embedding(&self, text: &str) -> (r: EmbeddingJob)
        ensures
            is_job_of(self.uses_simple(), text@, r),
    {
        if self.use_simple {
            EmbeddingJob::Local(self.simple_embedding(text))
        } else {
            EmbeddingJob::Ollama(String::from_str(text))
        }
    }

    /// How to get the embeddings of several texts, in order.
    pub fn generate_embeddings(&self, texts: &[String]) -> (r: Vec<EmbeddingJob>)
        ensures
            r.len() == texts@.len(),
            forall|i: int| 0 <= i < texts@.len() ==> is_job_of(self.uses_simple(), #[trigger] texts@[i]@, r@[i]),
    {
        let mut out: Vec<EmbeddingJob> = Vec::new();
        let mut i: usize = 0;
        while i < texts.len()
            invariant
                i <= texts@.len(),
                out.len() == i,
                forall|j: int| 0 <= j < i ==> is_job_of(self.uses_simple(), #[trigger] texts@[j]@, out@[j]),
            decreases texts@.len() - i,
        {
            let job = self.generate_embedding(texts[i].as_str());
            out.push(job);
            i = i + 1;
        }
        out
    }

    /// The local embedding plan of a text.
    pub fn simple_embedding(&self, text: &str) -> (p: EmbeddingPlan)
        ensures
            is_plan_of(text@, p),
    {
        simple_embedding_plan(text)
    }
}

/// The local embedding plan of a text: lower-case it, split it into words,
/// and hash each word and each character trigram to dimensions.
pub fn simple_embedding_plan(text: &str) -> (p: EmbeddingPlan)
    ensures
        is_plan_of(text@, p),
{
    let lower = to_lowercase(text);
    assert(lower@ == lower_form(text@));
    let text_bytes = lower.as_str().len();
    let chars = string_chars(lower.as_str());
    let ws = split_words(&chars);
    let mut word_slots_v: Vec<usize> = Vec::new();
    let mut ngram_slots_v: Vec<usize> = Vec::new();
    if ws.len() == 0 {
        return EmbeddingPlan {
            word_count: 0,
            text_bytes,
            word_slots: word_slots_v,
            ngram_slots: ngram_slots_v,
        };
    }
    let ghost wv = crate::text::views(ws@);
    let mut i: usize = 0;
    while i < ws.len()
        invariant
            i <= ws@.len(),
            wv == crate::text::views(ws@),
            word_slots_v@.len() == 3 * i,
            forall|j: int|
                0 <= j < 3 * i ==> #[trigger] word_slots_v@[j] == slot(
                    text_hash(wv[j / 3]),
                    (j % 3) as u64,
                ),
        decreases ws@.len() - i,
    {
        let h = hash_text(ws[i].as_slice());
        assert(wv[i as int] == ws@[i as int]@);
        let mut t: u64 = 0;
        while t < 3
            invariant
                t <= 3,
                i < ws@.len(),
                h == text_hash(wv[i as int]),
                word_slots_v@.len() == 3 * i + t,
                forall|j: int|
                    0 <= j < 3 * i + t ==> #[trigger] word_slots_v@[j] == slot(
                        text_hash(wv[j / 3]),
                        (j % 3) as u64,
                    ),
            decreases 3 - t,
        {
            word_slots_v.push((h.wrapping_add(t) as usize) % EMBEDDING_DIM);
            assert((3 * i + t) / 3 == i && (3 * i + t) % 3 == t) by (nonlinear_arith)
                requires
                    t < 3,
            ;
            t = t + 1;
        }
        i = i + 1;
    }
    let n = chars.len();
    if n >= 3 {
        let mut k: usize = 0;
        while k + 2 < n
            invariant
                n == chars@.len(),
                n >= 3,
                k + 2 <= n,
                ngram_slots_v@.len() == k,
                forall|j: int|
                    0 <= j < k ==> #[trigger] ngram_slots_v@[j] == slot(
                        text_hash(chars@.subrange(j, j + 3)),
                        0,
                    ),
            decreases n - k,
        {
            let h = hash_text(&chars.as_slice()[k..k + 3]);
            ngram_slots_v.push((h.wrapping_add(0) as usize) % EMBEDDING_DIM);
            k = k + 1;
        }
    }
    let p = EmbeddingPlan {
        word_count: ws.len(),
        text_bytes,
        word_slots: word_slots_v,
        ngram_slots: ngram_slots_v,
    };
    assert(p.word_slots@ =~= word_slots(wv));
    assert(p.ngram_slots@ =~= ngram_slots(chars@));
    p
}

} // verus!
