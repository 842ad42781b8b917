//! The chat model client: prompt building and reading the chat API's reply.
use vstd::prelude::*;

use crate::text::{decimal, decimal_string};

verus! {

/// reqwest's HTTP client, carried by the clients of this crate.
#[verifier::external_type_specification]
#[verifier::external_body]
pub struct ExHttpClient(reqwest::Client);

/// Calls `reqwest::Client::new`. Nothing is claimed of the client. With
/// reqwest built without TLS (as here), building the default client has no
/// failing case, so the call does not panic.
#[verifier::external_body]
pub(crate) fn new_http_client() -> reqwest::Client {
    reqwest::Client::new()
}

} // verus!

verus! {

/// The opening of every prompt.
pub open spec fn prompt_header() -> Seq<char> {
    "You are a helpful AI assistant. Answer the question based on the provided context.\n\n"@
}

/// The block of the prompt that presents the `i`-th context document
/// (counted from 0) with its relevance text.
pub open spec fn context_entry(i: nat, doc: Seq<char>, relevance: Seq<char>) -> Seq<char> {
    "Document "@ + decimal(i + 1) + " (relevance: "@ + relevance + "):\n"@ + doc + "\n\n"@
}

/// The blocks of all context documents, in order.
pub open spec fn context_entries(docs: Seq<(Seq<char>, Seq<char>)>) -> Seq<char>
    decreases docs.len(),
{
    if docs.len() == 0 {
        seq![]
    } else {
        context_entries(docs.drop_last()) + context_entry(
            (docs.len() - 1) as nat,
            docs.last().0,
            docs.last().1,
        )
    }
}

/// The prompt that asks `question` about the context documents.
pub open spec fn rag_prompt(question: Seq<char>, docs: Seq<(Seq<char>, Seq<char>)>) -> Seq<char> {
    prompt_header() + "Context:\n"@ + context_entries(docs) + "Question: "@ + question
        + "\n\nAnswer based on the context above:"@
}

proof fn lemma_context_entries_prefix(docs: Seq<(Seq<char>, Seq<char>)>, m: int)
    requires
        0 <= m <= docs.len(),
    ensures
        context_entries(docs) == context_entries(docs.take(m)) + context_entries(docs).skip(
            context_entries(docs.take(m)).len() as int,
        ),
    decreases docs.len(),
{
    if m == docs.len() {
        assert(docs.take(m) =~= docs);
        assert(context_entries(docs).skip(context_entries(docs).len() as int) =~= Seq::<char>::empty());
        assert(context_entries(docs) + Seq::<char>::empty() =~= context_entries(docs));
    } else {
        lemma_context_entries_prefix(docs.drop_last(), m);
        assert(docs.drop_last().take(m) =~= docs.take(m));
        let a = context_entries(docs.take(m));
        let b = context_entries(docs.drop_last());
        let c = context_entry((docs.len() - 1) as nat, docs.last().0, docs.last().1);
        assert(context_entries(docs) == b + c);
        assert(b == a + b.skip(a.len() as int));
        assert((b + c).skip(a.len() as int) =~= b.skip(a.len() as int) + c);
        assert(b + c =~= a + (b + c).skip(a.len() as int));
    }
}

/// `b` occurs in `p` starting at position `o`.
pub open spec fn occurs_at(p: Seq<char>, b: Seq<char>, o: int) -> bool {
    0 <= o && o + b.len() <= p.len() && p.subrange(o, o + b.len()) == b
}

/// `b` occurs somewhere in `p`.
pub open spec fn occurs_in(p: Seq<char>, b: Seq<char>) -> bool {
    exists|o: int| #[trigger] occurs_at(p, b, o)
}

/// Where the block of the `i`-th context document starts in the prompt.
proof fn lemma_block_at(question: Seq<char>, docs: Seq<(Seq<char>, Seq<char>)>, i: int) -> (o: int)
    requires
        0 <= i < docs.len(),
    ensures
        occurs_at(
            rag_prompt(question, docs),
            "Document "@ + decimal((i + 1) as nat) + " (relevance: "@ + docs[i].1 + "):\n"@
                + docs[i].0 + "\n\n"@,
            o,
        ),
        o == (prompt_header() + "Context:\n"@ + context_entries(docs.take(i))).len(),
{
    let p = rag_prompt(question, docs);
    let block = "Document "@ + decimal((i + 1) as nat) + " (relevance: "@ + docs[i].1 + "):\n"@
        + docs[i].0 + "\n\n"@;
    lemma_context_entries_prefix(docs, i + 1);
    let t = docs.take(i + 1);
    assert(t.drop_last() =~= docs.take(i));
    assert(t.last() == docs[i]);
    assert(block == context_entry(i as nat, docs[i].0, docs[i].1));
    let before = prompt_header() + "Context:\n"@ + context_entries(docs.take(i));
    let all = context_entries(docs);
    let rest = all.skip(context_entries(t).len() as int);
    let after = rest + "Question: "@ + question + "\n\nAnswer based on the context above:"@;
    assert(context_entries(t) == context_entries(docs.take(i)) + block);
    assert(p =~= before + block + after);
    let o = before.len() as int;
    assert(p.subrange(o, o + block.len()) =~= block);
    o
}

/// Every context document appears in the prompt whole and unchanged, in
/// the block `Document <i + 1> (relevance: <relevance>):\n<document>\n\n`,
/// and the prompt ends with the question and the closing instruction.
pub proof fn lemma_prompt_holds_documents(question: Seq<char>, docs: Seq<(Seq<char>, Seq<char>)>)
    ensures
        forall|i: int|
            0 <= i < docs.len() ==> occurs_in(
                rag_prompt(question, docs),
                "Document "@ + decimal((i + 1) as nat) + " (relevance: "@ + (#[trigger] docs[i]).1
                    + "):\n"@ + docs[i].0 + "\n\n"@,
            ),
        rag_prompt(question, docs).len() >= question.len() + "\n\nAnswer based on the context above:"@.len(),
        rag_prompt(question, docs).skip(
            rag_prompt(question, docs).len() - question.len()
                - "\n\nAnswer based on the context above:"@.len(),
        ) == question + "\n\nAnswer based on the context above:"@,
{
    let p = rag_prompt(question, docs);
    assert forall|i: int| 0 <= i < docs.len() implies occurs_in(
        p,
        "Document "@ + decimal((i + 1) as nat) + " (relevance: "@ + (#[trigger] docs[i]).1 + "):\n"@
            + docs[i].0 + "\n\n"@,
    ) by {
        let o = lemma_block_at(question, docs, i);
    }
    let tail = question + "\n\nAnswer based on the context above:"@;
    let head = prompt_header() + "Context:\n"@ + context_entries(docs) + "Question: "@;
    assert(p =~= head + tail);
    assert(p.skip(p.len() - tail.len()) =~= tail);
}

/// The blocks of the context documents come in the documents' order: the
/// block of document `i` ends before the block of a later document `j`
/// starts.
pub proof fn lemma_prompt_blocks_in_order(
    question: Seq<char>,
    docs: Seq<(Seq<char>, Seq<char>)>,
    i: int,
    j: int,
)
    requires
        0 <= i < j < docs.len(),
    ensures
        exists|o1: int, o2: int|
            #[trigger] occurs_at(
                rag_prompt(question, docs),
                "Document "@ + decimal((i + 1) as nat) + " (relevance: "@ + docs[i].1 + "):\n"@
                    + docs[i].0 + "\n\n"@,
                o1,
            ) && #[trigger] occurs_at(
                rag_prompt(question, docs),
                "Document "@ + decimal((j + 1) as nat) + " (relevance: "@ + docs[j].1 + "):\n"@
                    + docs[j].0 + "\n\n"@,
                o2,
            ) && o1 + ("Document "@ + decimal((i + 1) as nat) + " (relevance: "@ + docs[i].1
                + "):\n"@ + docs[i].0 + "\n\n"@).len() <= o2,
{
    let o1 = lemma_block_at(question, docs, i);
    let o2 = lemma_block_at(question, docs, j);
    let dj = docs.take(j);
    lemma_context_entries_prefix(dj, i + 1);
    assert(dj.take(i + 1) =~= docs.take(i + 1));
    let t = docs.take(i + 1);
    assert(t.drop_last() =~= docs.take(i));
    assert(t.last() == docs[i]);
    assert(context_entries(t) == context_entries(docs.take(i)) + context_entry(
        i as nat,
        docs[i].0,
        docs[i].1,
    ));
    assert(o1 + context_entry(i as nat, docs[i].0, docs[i].1).len() <= o2);
}

/// The views of (document, relevance) pairs.
pub open spec fn pair_views(docs: Seq<(String, String)>) -> Seq<(Seq<char>, Seq<char>)> {
    docs.map_values(|p: (String, String)| (p.0@, p.1@))
}

/// An HTTP status in the success class 200-299 (what `StatusCode::is_success`
/// tests).
pub open spec fn is_success(status: u16) -> bool {
    200 <= status < 300
}

/// Tests whether an HTTP status is in the success class.
pub fn is_success_status(status: u16) -> (r: bool)
    ensures
        r == is_success(status),
{
    200 <= status && status < 300
}

/// Errors of the chat client.
#[derive(Debug, PartialEq, Eq)]
pub enum LlmError {
    /// The API answered with a status outside the success class.
    Api { status: u16, body: String },
    /// The API answered, but every text field was empty.
    EmptyResponse,
}

/// The fields that the chat API may answer with.
pub struct ChatResponse {
    pub response: String,
    pub text: String,
    pub content: String,
}

/// The text of a reply: the first of `response`, `text`, `content` that is
/// not empty, if any.
pub open spec fn reply_text(r: ChatResponse) -> Option<Seq<char>> {
    if r.response@.len() > 0 {
        Some(r.response@)
    } else if r.text@.len() > 0 {
        Some(r.text@)
    } else if r.content@.len() > 0 {
        Some(r.content@)
    } else {
        None
    }
}

impl ChatResponse {
    /// The answer held by a reply; `EmptyResponse` when all fields are empty.
    pub fn into_text(self) -> (r: Result<String, LlmError>)
        ensures
            match reply_text(self) {
                Some(t) => r matches Ok(s) && s@ == t,
                None => r == Err::<String, LlmError>(LlmError::EmptyResponse),
            },
    {
        if !self.response.as_str().is_empty() {
            Ok(self.response)
        } else if !self.text.as_str().is_empty() {
            Ok(self.text)
        } else if !self.content.as_str().is_empty() {
            Ok(self.content)
        } else {
            Err(LlmError::EmptyResponse)
        }
    }
}

/// The answer to a chat request from the reply's status and, for a success,
/// its decoded body; for any other status, the API error with the text of
/// the reply's body.
pub fn chat_answer(status: u16, error_text: String, body: Option<ChatResponse>) -> (r: Result<
    String,
    LlmError,
>)
    requires
        is_success(status) ==> body is Some,
    ensures
        !is_success(status) ==> r == Err::<String, LlmError>(
            LlmError::Api { status, body: error_text },
        ),
        is_success(status) ==> match reply_text(body->0) {
            Some(t) => r matches Ok(s) && s@ == t,
            None => r == Err::<String, LlmError>(LlmError::EmptyResponse),
        },
{
    if !is_success_status(status) {
        return Err(LlmError::Api { status, body: error_text });
    }
    match body {
        Some(b) => b.into_text(),
        None => Err(LlmError::EmptyResponse),
    }
}

/// Client of the chat model's HTTP API.
pub struct LlmClient {
    client: reqwest::Client,
    chat_url: String,
}

impl LlmClient {
    /// The URL that chat requests are posted to.
    pub closed spec fn url(&self) -> Seq<char> {
        self.chat_url@
    }

    /// A client that posts to `chat_url`.
    pub fn new(chat_url: String) -> (c: Self)
        ensures
            c.url() == chat_url@,
    {
        LlmClient { client: new_http_client(), chat_url }
    }

    /// The URL that chat requests are posted to.
    pub fn chat_url(&self) -> (u: &str)
        ensures
            u@ == self.url(),
    {
        self.chat_url.as_str()
    }

    /// The HTTP client of the chat client: the one it was made with.
    pub fn client(&self) -> (c: &reqwest::Client)
        ensures
            *c == self.http_client(),
    {
        &self.client
    }

    /// The HTTP client that the chat client was made with.
    pub closed spec fn http_client(&self) -> reqwest::Client {
        self.client
    }

    /// The prompt that asks `question` about the context documents, each
    /// given as its text and its relevance already written out.
    pub fn build_rag_prompt(&self, question: &str, context_documents: &[(String, String)]) -> (p:
        String)
        ensures
            p@ == rag_prompt(question@, pair_views(context_documents@)),
    {
        let mut prompt = String::from_str(
            "You are a helpful AI assistant. Answer the question based on the provided context.\n\n",
        );
        prompt.append("Context:\n");
        let n = context_documents.len();
        let ghost docs = pair_views(context_documents@);
        let mut i: usize = 0;
        while i < n
            invariant
                i <= n == context_documents@.len(),
                docs == pair_views(context_documents@),
                prompt@ == prompt_header() + "Context:\n"@ + context_entries(docs.take(i as int)),
            decreases n - i,
        {
            let (doc, score) = &context_documents[i];
            prompt.append("Document ");
            let number = decimal_string(i + 1);
            prompt.append(number.as_str());
            prompt.append(" (relevance: ");
            prompt.append(score.as_str());
            prompt.append("):\n");
            prompt.append(doc.as_str());
            prompt.append("\n\n");
            proof {
                assert(docs.take(i + 1).drop_last() =~= docs.take(i as int));
                assert(docs.take(i + 1).last() == (doc@, score@));
            }
            i = i + 1;
        }
        prompt.append("Question: ");
        prompt.append(question);
        prompt.append("\n\nAnswer based on the context above:");
        proof {
            assert(docs.take(n as int) =~= docs);
        }
        prompt
    }
}

} // verus!
