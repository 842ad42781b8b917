//! Documents of the index: turning a JSON file into documents, and the
//! figures and look-ups over the indexed documents.
use vstd::prelude::*;

use crate::embeddings::{is_job_of, EmbeddingGenerator, EmbeddingJob};
use crate::text::{decimal, decimal_string, is_numeral, lemma_decimal_is_numeral, numeral_value};

verus! {

/// serde_json's JSON value; opaque to the proofs.
#[verifier::external_type_specification]
#[verifier::external_body]
pub struct ExJsonValue(serde_json::Value);

/// serde_json's error.
#[verifier::external_type_specification]
#[verifier::external_body]
pub struct ExJsonError(serde_json::Error);

/// The text that `serde_json::to_string_pretty` writes for a JSON value.
pub uninterp spec fn json_pretty(v: serde_json::Value) -> Seq<char>;

/// Calls `serde_json::to_string_pretty` on a JSON value. The contract names
/// the text as a function of the value and claims success: serde_json's
/// `Serialize for Value` writes into a `Vec` and has no failing case (its
/// numbers are finite and its map keys are strings).
#[verifier::external_body]
fn pretty_json(v: &serde_json::Value) -> (r: Result<String, serde_json::Error>)
    ensures
        r is Ok,
        r matches Ok(s) ==> s@ == json_pretty(*v),
{
    serde_json::to_string_pretty(v)
}

/// `Clone` of a JSON value (derived by serde_json): the copy is the same
/// value.
pub assume_specification[ <serde_json::Value as Clone>::clone ](v: &serde_json::Value) -> (r: serde_json::Value)
    ensures
        r == *v,
;

/// The top level of a JSON file.
pub enum JsonLayout {
    /// An array: each item is a document.
    Array(Vec<serde_json::Value>),
    /// An object: the whole value is one document.
    Object(serde_json::Value),
    /// A string, number, boolean or null, which is not indexed.
    Other,
}

/// What `serde_json::from_str::<serde_json::Value>` makes of a text: `None`
/// when it fails, else the top-level value laid out as `JsonLayout`.
pub uninterp spec fn json_parse(text: Seq<char>) -> Option<JsonLayout>;

/// Calls `serde_json::from_str::<serde_json::Value>` and tells apart the
/// variants of the value that matter for indexing (an array's items, an
/// object, or any of the four other variants). The contract names the
/// outcome as a function of the text.
#[verifier::external_body]
fn parse_json_layout(text: &str) -> (r: Result<JsonLayout, serde_json::Error>)
    ensures
        r is Err <==> json_parse(text@) is None,
        r matches Ok(l) ==> json_parse(text@) == Some(l),
{
    let value: serde_json::Value = serde_json::from_str(text)?;
    Ok(
        match value {
            serde_json::Value::Array(items) => JsonLayout::Array(items),
            serde_json::Value::Object(map) => JsonLayout::Object(serde_json::Value::Object(map)),
            serde_json::Value::Null => JsonLayout::Other,
            serde_json::Value::Bool(_) => JsonLayout::Other,
            serde_json::Value::Number(_) => JsonLayout::Other,
            serde_json::Value::String(_) => JsonLayout::Other,
        },
    )
}

/// Errors of reading a JSON file into documents.
#[derive(Debug)]
pub enum LoadError {
    /// The text is not JSON.
    Json(serde_json::Error),
    /// The top level is neither an array nor an object.
    Unsupported,
}

/// A document ready for the index.
pub struct IndexedDocument {
    /// Where it comes from: the file, and for an array its position.
    pub id: String,
    /// The pretty-printed JSON of the document.
    pub content: String,
    /// The document's JSON value.
    pub metadata: serde_json::Value,
    /// How the document's embedding is obtained from its content.
    pub embedding: EmbeddingJob,
}

/// The id of the `idx`-th item of an array file.
pub open spec fn item_id(source: Seq<char>, idx: nat) -> Seq<char> {
    source + "#"@ + decimal(idx)
}

/// The id of an array item is the file's name, `#`, and the item's
/// position written as a decimal numeral, which reads back as the position.
pub proof fn lemma_item_id_reads_back(source: Seq<char>, idx: nat)
    ensures
        item_id(source, idx).len() > source.len() + 1,
        item_id(source, idx).take((source.len() + 1) as int) == source.push('#'),
        is_numeral(item_id(source, idx).skip((source.len() + 1) as int)),
        numeral_value(item_id(source, idx).skip((source.len() + 1) as int)) == idx,
{
    reveal_strlit("#");
    lemma_decimal_is_numeral(idx);
    let id = item_id(source, idx);
    assert(id.take((source.len() + 1) as int) =~= source.push('#'));
    assert(id.skip((source.len() + 1) as int) =~= decimal(idx));
}

/// Distinct items of one file get distinct ids.
pub proof fn lemma_item_ids_distinct(source: Seq<char>, i: nat, j: nat)
    requires
        i != j,
    ensures
        item_id(source, i) != item_id(source, j),
{
    lemma_item_id_reads_back(source, i);
    lemma_item_id_reads_back(source, j);
}

/// `d` is the document with id `id` made from the JSON value `v`: its
/// content is the pretty-printed value, its metadata the value, and its
/// embedding is obtained from its content.
pub open spec fn is_document_of(
    use_simple: bool,
    id: Seq<char>,
    v: serde_json::Value,
    d: IndexedDocument,
) -> bool {
    &&& d.id@ == id
    &&& d.content@ == json_pretty(v)
    &&& d.metadata == v
    &&& is_job_of(use_simple, d.content@, d.embedding)
}

/// The document with the given id made from one JSON value.
pub fn create_document_from_json(
    embedder: &EmbeddingGenerator,
    id: &str,
    json: &serde_json::Value,
) -> (d: IndexedDocument)
    ensures
        is_document_of(embedder.uses_simple(), id@, *json, d),
{
    let content = match pretty_json(json) {
        Ok(c) => c,
        Err(_) => String::new(),
    };
    let embedding = embedder.generate_embedding(content.as_str());
    IndexedDocument { id: String::from_str(id), content, metadata: json.clone(), embedding }
}

/// The documents of a JSON file whose text is `text` and whose name is
/// `source`: one per item of a top-level array, in order, with ids
/// `source#0`, `source#1`, ..., or one for a top-level object, with id
/// `source`. Any other JSON value is `Unsupported`; a text that is not JSON
/// is a `Json` error.
pub fn load_json_documents(embedder: &EmbeddingGenerator, source: &str, text: &str) -> (r: Result<
    Vec<IndexedDocument>,
    LoadError,
>)
    ensures
        match json_parse(text@) {
            None => r matches Err(LoadError::Json(_)),
            Some(JsonLayout::Other) => r matches Err(LoadError::Unsupported),
            Some(JsonLayout::Array(items)) => r matches Ok(docs) && docs.len() == items.len()
                && forall|i: int|
                0 <= i < docs.len() ==> is_document_of(
                    embedder.uses_simple(),
                    item_id(source@, i as nat),
                    items@[i],
                    #[trigger] docs@[i],
                ),
            Some(JsonLayout::Object(v)) => r matches Ok(docs) && docs.len() == 1 && is_document_of(
                embedder.uses_simple(),
                source@,
                v,
                docs@[0],
            ),
        },
{
    let layout = match parse_json_layout(text) {
        Ok(l) => l,
        Err(e) => {
            return Err(LoadError::Json(e));
        },
    };
    let mut documents: Vec<IndexedDocument> = Vec::new();
    match layout {
        JsonLayout::Array(items) => {
            let mut idx: usize = 0;
            while idx < items.len()
                invariant
                    idx <= items@.len(),
                    json_parse(text@) == Some(JsonLayout::Array(items)),
                    documents.len() == idx,
                    forall|i: int|
                        0 <= i < documents.len() ==> is_document_of(
                            embedder.uses_simple(),
                            item_id(source@, i as nat),
                            items@[i],
                            #[trigger] documents@[i],
                        ),
                decreases items@.len() - idx,
            {
                let mut id = String::from_str(source);
                id.append("#");
                let number = decimal_string(idx);
                id.append(number.as_str());
                let doc = create_document_from_json(embedder, id.as_str(), &items[idx]);
                documents.push(doc);
                idx = idx + 1;
            }
        },
        JsonLayout::Object(object) => {
            let doc = create_document_from_json(embedder, source, &object);
            documents.push(doc);
        },
        JsonLayout::Other => {
            return Err(LoadError::Unsupported);
        },
    }
    Ok(documents)
}

/// A file name whose extension is `json`: some characters, a dot, `json`
/// (what `Path::extension` yields for a file name: the part after the last
/// dot, when the dot is not the name's first character).
pub open spec fn is_json_file_name(name: Seq<char>) -> bool {
    &&& name.len() > 5
    &&& name.subrange(name.len() - 5, name.len() as int) == ".json"@
}

/// Whether a file with this name is read when indexing a directory.
pub fn has_json_extension(name: &str) -> (r: bool)
    ensures
        r == is_json_file_name(name@),
{
    let chars = crate::text::string_chars(name);
    let suffix = crate::text::string_chars(".json");
    proof {
        reveal_strlit(".json");
    }
    let n = chars.len();
    if n <= 5 {
        return false;
    }
    let mut i: usize = 0;
    while i < 5
        invariant
            i <= 5,
            n == chars@.len(),
            chars@ == name@,
            n > 5,
            suffix@ == ".json"@,
            suffix@.len() == 5,
            forall|j: int| 0 <= j < i ==> chars@[n - 5 + j] == #[trigger] suffix@[j],
        decreases 5 - i,
    {
        if chars[n - 5 + i] != suffix[i] {
            assert(chars@.subrange(n - 5, n as int)[i as int] != suffix@[i as int]);
            return false;
        }
        i = i + 1;
    }
    assert(chars@.subrange(n - 5, n as int) =~= suffix@);
    true
}

/// What the statistics read of an indexed document.
#[derive(Debug, Clone, Copy, PartialEq, Eq)]
pub struct DocumentSummary {
    /// Length of the content in bytes.
    pub content_len: usize,
    /// Dimension of the embedding, if the document has one.
    pub embedding_dim: Option<usize>,
}

/// Figures about the indexed documents.
#[derive(Debug, Clone, Copy, PartialEq, Eq)]
pub struct DocumentStats {
    pub total_docs: usize,
    pub total_chars: usize,
    pub avg_chars: usize,
    pub with_embeddings: usize,
    pub embedding_dim: usize,
}

/// Total content length of the documents.
pub open spec fn total_len(docs: Seq<DocumentSummary>) -> nat
    decreases docs.len(),
{
    if docs.len() == 0 {
        0
    } else {
        total_len(docs.drop_last()) + docs.last().content_len as nat
    }
}

/// Number of documents that have an embedding.
pub open spec fn embedded_count(docs: Seq<DocumentSummary>) -> nat
    decreases docs.len(),
{
    if docs.len() == 0 {
        0
    } else {
        embedded_count(docs.drop_last()) + if docs.last().embedding_dim is Some {
            1nat
        } else {
            0nat
        }
    }
}

/// No more documents have an embedding than there are documents.
pub proof fn lemma_embedded_count_bound(docs: Seq<DocumentSummary>)
    ensures
        embedded_count(docs) <= docs.len(),
    decreases docs.len(),
{
    if docs.len() > 0 {
        lemma_embedded_count_bound(docs.drop_last());
    }
}

/// The statistics of the indexed documents; none when there is no document.
/// The average is the total length divided by the number of documents,
/// rounded down; the embedding dimension is that of the first document
/// (0 when it has no embedding).
pub fn document_stats(docs: &[DocumentSummary]) -> (r: Option<DocumentStats>)
    requires
        total_len(docs@) <= usize::MAX,
    ensures
        docs@.len() == 0 <==> r is None,
        r matches Some(st) ==> {
            &&& st.total_docs == docs@.len()
            &&& st.total_chars == total_len(docs@)
            &&& st.avg_chars == total_len(docs@) / docs@.len()
            &&& st.with_embeddings == embedded_count(docs@)
            &&& st.embedding_dim == match docs@[0].embedding_dim {
                Some(d) => d,
                None => 0,
            }
        },
{
    let n = docs.len();
    if n == 0 {
        return None;
    }
    let mut total: usize = 0;
    let mut with: usize = 0;
    let mut i: usize = 0;
    while i < n
        invariant
            i <= n == docs@.len(),
            total_len(docs@) <= usize::MAX,
            total == total_len(docs@.take(i as int)),
            with == embedded_count(docs@.take(i as int)),
        decreases n - i,
    {
        proof {
            assert(docs@.take(i + 1).drop_last() =~= docs@.take(i as int));
            lemma_total_len_prefix(docs@, i + 1);
            lemma_embedded_count_bound(docs@.take(i + 1));
        }
        total = total + docs[i].content_len;
        if docs[i].embedding_dim.is_some() {
            with = with + 1;
        }
        i = i + 1;
    }
    proof {
        assert(docs@.take(n as int) =~= docs@);
    }
    let dim = match docs[0].embedding_dim {
        Some(d) => d,
        None => 0,
    };
    Some(DocumentStats {
        total_docs: n,
        total_chars: total,
        avg_chars: total / n,
        with_embeddings: with,
        embedding_dim: dim,
    })
}

proof fn lemma_total_len_prefix(docs: Seq<DocumentSummary>, k: int)
    requires
        0 <= k <= docs.len(),
    ensures
        total_len(docs.take(k)) <= total_len(docs),
    decreases docs.len(),
{
    if k < docs.len() {
        assert(docs.drop_last().take(k) =~= docs.take(k));
        lemma_total_len_prefix(docs.drop_last(), k);
    } else {
        assert(docs.take(k) =~= docs);
    }
}

/// The position of the first document whose id is `id`.
pub fn find_document(ids: &[String], id: &str) -> (r: Option<usize>)
    ensures
        r matches Some(i) ==> i < ids@.len() && ids@[i as int]@ == id@ && forall|j: int|
            0 <= j < i ==> #[trigger] ids@[j]@ != id@,
        r is None ==> forall|j: int| 0 <= j < ids@.len() ==> #[trigger] ids@[j]@ != id@,
{
    let wanted = String::from_str(id);
    let mut i: usize = 0;
    while i < ids.len()
        invariant
            i <= ids@.len(),
            wanted@ == id@,
            forall|j: int| 0 <= j < i ==> #[trigger] ids@[j]@ != id@,
        decreases ids@.len() - i,
    {
        if ids[i] == wanted {
            return Some(i);
        }
        i = i + 1;
    }
    None
}

} // verus!
