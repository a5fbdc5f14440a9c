//! Retrieval-augmented answers: which models a workspace query uses, and
//! the prompt built from the retrieved chunks with numbered citations.

use vstd::prelude::*;
use vstd::string::StringExecFns;
use crate::strutil::{decimal, push_decimal};
use crate::vector_store::ChunkMetadata;
use crate::workspace::WorkspaceSettings;

verus! {

/// Number of chunks retrieved when a request does not say.
pub const DEFAULT_TOP_K: usize = 5;

/// A retrieved chunk with its metadata (its similarity score is kept by
/// the caller, beside it).
#[derive(Debug, Clone)]
pub struct SearchResult {
    pub id: String,
    pub chunk_text: String,
    pub metadata: ChunkMetadata,
}

/// A citation of a retrieved chunk (its similarity score is kept by the
/// caller, beside it).
#[derive(Debug)]
pub struct Citation {
    /// The label used in the prompt, such as `[1]`.
    pub id: String,
    pub document_id: String,
    pub document_name: String,
    /// Page of the chunk, for paged documents.
    pub page_number: Option<u32>,
    /// Character range in the document (not tracked: always `(0, 0)`).
    pub char_range: (usize, usize),
    pub text: String,
}

/// The label of the chunk at index `i`: `[i+1]`.
pub open spec fn citation_label(i: nat) -> Seq<char> {
    "["@ + decimal(i + 1) + "]"@
}

/// `, page <n>` for a known page, else nothing.
pub open spec fn page_note(page: Option<u32>) -> Seq<char> {
    match page {
        Some(p) => ", page "@ + decimal(p as nat),
        None => Seq::empty(),
    }
}

/// The context entry of the chunk at index `i`.
pub open spec fn context_entry(i: nat, r: SearchResult) -> Seq<char> {
    "\n"@ + citation_label(i) + " (Source: "@ + r.metadata.document_name@ + page_note(r.metadata.page_number)
        + "):\n"@ + r.chunk_text@ + "\n"@
}

/// The context entries of all chunks, in order.
pub open spec fn context_text(results: Seq<SearchResult>) -> Seq<char>
    decreases results.len(),
{
    if results.len() == 0 {
        Seq::empty()
    } else {
        context_text(results.drop_last()) + context_entry((results.len() - 1) as nat, results.last())
    }
}

/// The system prompt used when a workspace sets none.
pub open spec fn default_system_prompt() -> Seq<char> {
    "You are a helpful AI assistant. Answer questions based on the provided context. Always cite your sources using the citation IDs (e.g., [1], [2]) when referencing information. If the context doesn't contain relevant information, say so clearly."@
}

/// The prompt: the system prompt, the context section when there are
/// chunks, then the user's question and the assistant's turn.
pub open spec fn rag_prompt(query: Seq<char>, results: Seq<SearchResult>, system_prompt: Option<Seq<char>>) -> Seq<char> {
    let system = match system_prompt {
        Some(s) => s,
        None => default_system_prompt(),
    };
    if results.len() == 0 {
        system + "\n\nUser: "@ + query + "\n\nAssistant:"@
    } else {
        system + "\n\nContext:\n"@ + context_text(results) + "\n\nUser: "@ + query + "\n\nAssistant:"@
    }
}

/// Whether `c` cites the chunk `r` at index `i`.
pub open spec fn cites(c: Citation, i: nat, r: SearchResult) -> bool {
    &&& c.id@ == citation_label(i)
    &&& c.document_id@ == r.metadata.document_id@
    &&& c.document_name@ == r.metadata.document_name@
    &&& c.page_number == r.metadata.page_number
    &&& c.char_range == (0usize, 0usize)
    &&& c.text@ == r.chunk_text@
}

fn label_for(i: usize) -> (s: String)
    requires
        i < usize::MAX,
    ensures
        s@ == citation_label(i as nat),
{
    let mut s = "[".to_owned();
    push_decimal(&mut s, (i + 1) as u128);
    s.append("]");
    s
}

/// Builds the prompt for a question from the retrieved chunks, and one
/// citation per chunk in the same order.
pub fn build_prompt(query: &str, context_chunks: &[SearchResult], system_prompt: Option<&str>) -> (r: (String, Vec<Citation>))
    ensures
        r.0@ == rag_prompt(query@, context_chunks@, match system_prompt { Some(s) => Some(s@), None => None }),
        r.1@.len() == context_chunks@.len(),
        forall|i: int| 0 <= i < context_chunks@.len() ==> cites(#[trigger] r.1@[i], i as nat, context_chunks@[i]),
{
    let mut citations: Vec<Citation> = Vec::new();
    let mut context = String::new();
    let mut i: usize = 0;
    while i < context_chunks.len()
        invariant
            i <= context_chunks@.len(),
            context@ == context_text(context_chunks@.take(i as int)),
            citations@.len() == i,
            forall|k: int| 0 <= k < i ==> cites(#[trigger] citations@[k], k as nat, context_chunks@[k]),
        decreases context_chunks@.len() - i,
    {
        let result = &context_chunks[i];
        let label = label_for(i);
        citations.push(Citation {
            id: label.clone(),
            document_id: result.metadata.document_id.clone(),
            document_name: result.metadata.document_name.clone(),
            page_number: result.metadata.page_number,
            char_range: (0, 0),
            text: result.chunk_text.clone(),
        });
        let ghost before = context@;
        context.append("\n");
        context.append(label.as_str());
        context.append(" (Source: ");
        context.append(result.metadata.document_name.as_str());
        let ghost mid = context@;
        if let Some(p) = result.metadata.page_number {
            context.append(", page ");
            push_decimal(&mut context, p as u128);
        }
        assert(context@ =~= mid + page_note(result.metadata.page_number));
        context.append("):\n");
        context.append(result.chunk_text.as_str());
        context.append("\n");
        proof {
            let t = context_chunks@.take(i + 1);
            assert(t.drop_last() =~= context_chunks@.take(i as int));
            assert(t.last() == context_chunks@[i as int]);
            assert(context@ =~= before + context_entry(i as nat, context_chunks@[i as int]));
        }
        i = i + 1;
    }
    assert(context_chunks@.take(context_chunks@.len() as int) =~= context_chunks@);
    let mut prompt = match system_prompt {
        Some(s) => s.to_owned(),
        None => "You are a helpful AI assistant. Answer questions based on the provided context. Always cite your sources using the citation IDs (e.g., [1], [2]) when referencing information. If the context doesn't contain relevant information, say so clearly.".to_owned(),
    };
    if context_chunks.len() == 0 {
        prompt.append("\n\nUser: ");
        prompt.append(query);
        prompt.append("\n\nAssistant:");
    } else {
        prompt.append("\n\nContext:\n");
        prompt.append(context.as_str());
        prompt.append("\n\nUser: ");
        prompt.append(query);
        prompt.append("\n\nAssistant:");
    }
    (prompt, citations)
}

/// `part` stands, whole and contiguous, somewhere in `whole`.
pub open spec fn stands_in(part: Seq<char>, whole: Seq<char>) -> bool {
    exists|pre: Seq<char>, post: Seq<char>| whole == #[trigger] (pre + part + post)
}

/// Each chunk's context entry stands in the context text.
proof fn lemma_entry_in_context(results: Seq<SearchResult>, i: int)
    requires
        0 <= i < results.len(),
    ensures
        stands_in(context_entry(i as nat, results[i]), context_text(results)),
    decreases results.len(),
{
    let prev = results.drop_last();
    let last = context_entry((results.len() - 1) as nat, results.last());
    let e = context_entry(i as nat, results[i]);
    if i == results.len() - 1 {
        assert(context_text(results) == context_text(prev) + e + Seq::<char>::empty());
    } else {
        lemma_entry_in_context(prev, i);
        assert(prev[i] == results[i]);
        let (pre, post) = choose|pre: Seq<char>, post: Seq<char>| context_text(prev) == #[trigger] (pre + e + post);
        assert(context_text(results) == pre + e + (post + last));
    }
}

/// The prompt holds every chunk with its citation label, source and text
/// (its context entry, whole), and ends with the question followed by the
/// assistant's turn.
pub proof fn prompt_cites_every_chunk(query: Seq<char>, results: Seq<SearchResult>, system_prompt: Option<Seq<char>>)
    ensures
        forall|i: int| 0 <= i < results.len() ==> stands_in(
            #[trigger] context_entry(i as nat, results[i]), rag_prompt(query, results, system_prompt)),
        exists|pre: Seq<char>| rag_prompt(query, results, system_prompt) == pre + "\n\nUser: "@ + query + "\n\nAssistant:"@,
{
    let system = match system_prompt {
        Some(s) => s,
        None => default_system_prompt(),
    };
    let head = system + "\n\nContext:\n"@;
    let tail = "\n\nUser: "@ + query + "\n\nAssistant:"@;
    let whole = rag_prompt(query, results, system_prompt);
    assert forall|i: int| 0 <= i < results.len() implies stands_in(
        #[trigger] context_entry(i as nat, results[i]), whole) by {
        let e = context_entry(i as nat, results[i]);
        lemma_entry_in_context(results, i);
        let (pre, post) = choose|pre: Seq<char>, post: Seq<char>| context_text(results) == #[trigger] (pre + e + post);
        assert(whole =~= (head + pre) + e + (post + tail));
        assert(whole == (head + pre) + e + (post + tail));
    }
    if results.len() == 0 {
        assert(whole =~= system + tail);
    } else {
        assert(whole =~= (head + context_text(results)) + tail);
    }
}

/// `needle` stands in `hay` from index `i` on.
pub open spec fn occurs_at(hay: Seq<char>, needle: Seq<char>, i: int) -> bool {
    &&& 0 <= i
    &&& i + needle.len() <= hay.len()
    &&& hay.subrange(i, i + needle.len()) == needle
}

/// Whether `needle` stands somewhere in `hay`.
pub open spec fn contains_text(hay: Seq<char>, needle: Seq<char>) -> bool {
    exists|i: int| #[trigger] occurs_at(hay, needle, i)
}

/// An occurrence lying inside the `len` characters from `start` of `hay`,
/// which are `part`, is an occurrence in `part`.
proof fn lemma_occurs_inside(hay: Seq<char>, needle: Seq<char>, i: int, part: Seq<char>, start: int)
    requires
        occurs_at(hay, needle, i),
        0 <= start <= i,
        i + needle.len() <= start + part.len(),
        start + part.len() <= hay.len(),
        hay.subrange(start, start + part.len()) == part,
    ensures
        occurs_at(part, needle, i - start),
{
    assert(part.subrange(i - start, i - start + needle.len()) =~= needle) by {
        assert forall|k: int| 0 <= k < needle.len() implies part.subrange(i - start, i - start + needle.len())[k] == needle[k] by {
            assert(hay.subrange(start, start + part.len())[i - start + k] == hay[i + k]);
            assert(hay.subrange(i, i + needle.len())[k] == hay[i + k]);
        }
    }
}

/// The prompt has a `Context:` section exactly when chunks are given,
/// provided neither the system prompt nor the question holds `Context:`.
pub proof fn prompt_context_law(query: Seq<char>, results: Seq<SearchResult>, system_prompt: Option<Seq<char>>)
    requires
        !contains_text(query, "Context:"@),
        system_prompt matches Some(sp) ==> !contains_text(sp, "Context:"@),
    ensures
        contains_text(rag_prompt(query, results, system_prompt), "Context:"@) <==> results.len() > 0,
{
    reveal_strlit("Context:");
    reveal_strlit("\n\nContext:\n");
    reveal_strlit("\n\nUser: ");
    reveal_strlit("\n\nAssistant:");
    reveal_strlit("You are a helpful AI assistant. Answer questions based on the provided context. Always cite your sources using the citation IDs (e.g., [1], [2]) when referencing information. If the context doesn't contain relevant information, say so clearly.");
    let needle = "Context:"@;
    let system = match system_prompt {
        Some(s) => s,
        None => default_system_prompt(),
    };
    let whole = rag_prompt(query, results, system_prompt);
    if system_prompt is None {
        assert(!contains_text(system, needle)) by {
            if contains_text(system, needle) {
                let i = choose|i: int| #[trigger] occurs_at(system, needle, i);
                assert(system.subrange(i, i + 8)[0] == system[i]);
                assert(system[i] == 'C');
                assert(false);
            }
        }
    }
    if results.len() > 0 {
        let a = system.len() as int;
        assert(occurs_at(whole, needle, a + 2)) by {
            assert(whole.subrange(a + 2, a + 10) =~= needle);
        }
    } else {
        let l1 = "\n\nUser: "@;
        let l2 = "\n\nAssistant:"@;
        assert(whole =~= system + l1 + query + l2);
        let a = system.len() as int;
        let b = a + 8;
        let c = b + query.len();
        if contains_text(whole, needle) {
            let i = choose|i: int| #[trigger] occurs_at(whole, needle, i);
            assert(whole.subrange(i, i + 8)[0] == whole[i]);
            assert(whole[i] == 'C');
            if i + 8 <= a {
                assert(whole.subrange(0, a) =~= system);
                lemma_occurs_inside(whole, needle, i, system, 0);
            } else if i < a {
                assert(whole.subrange(i, i + 8)[a - i] == whole[a]);
                assert(whole[a] == '\n');
            } else if i < b {
                assert(whole[i] == l1[i - a]);
            } else if i + 8 <= c {
                assert(whole.subrange(b, c) =~= query);
                lemma_occurs_inside(whole, needle, i, query, b);
            } else if i < c {
                assert(whole.subrange(i, i + 8)[c - i] == whole[c]);
                assert(whole[c] == '\n');
            } else {
                assert(whole[i] == l2[i - c]);
            }
        }
    }
}

/// What a workspace query runs with.
#[derive(Debug, Clone)]
pub struct RagPlan {
    /// Model that embeds the question.
    pub embedding_model: String,
    /// Model that writes the answer.
    pub chat_model: String,
    /// Number of chunks to retrieve.
    pub top_k: usize,
    /// Largest number of tokens in the answer.
    pub max_tokens: i32,
    /// The workspace's system prompt, if it sets one.
    pub system_prompt: Option<String>,
}

/// Why a workspace query cannot run.
#[derive(Debug, Clone, PartialEq, Eq)]
pub enum RagError {
    /// No workspace has the id.
    WorkspaceNotFound(String),
    /// The workspace names no embedding model.
    NoEmbeddingModel,
    /// The workspace names no chat model.
    NoChatModel,
}

impl RagError {
    /// The error's message.
    pub fn message(&self) -> (m: String)
        ensures
            m@ == match *self {
                RagError::WorkspaceNotFound(id) => "Workspace not found: "@ + id@,
                RagError::NoEmbeddingModel => "No embedding model configured for workspace"@,
                RagError::NoChatModel => "No chat model configured for workspace"@,
            },
    {
        match self {
            RagError::WorkspaceNotFound(id) => {
                let mut m = "Workspace not found: ".to_owned();
                m.append(id.as_str());
                m
            },
            RagError::NoEmbeddingModel => "No embedding model configured for workspace".to_owned(),
            RagError::NoChatModel => "No chat model configured for workspace".to_owned(),
        }
    }
}

/// Decides what a workspace query runs with. A missing workspace, then a
/// missing embedding model, then a missing chat model are errors; the
/// number of chunks defaults to `DEFAULT_TOP_K` and the answer length to
/// the workspace's.
pub fn plan_rag(workspace_id: &str, workspace: Option<&WorkspaceSettings>, top_k: Option<usize>, max_tokens: Option<i32>) -> (r: Result<RagPlan, RagError>)
    ensures
        workspace is None ==> (r matches Err(RagError::WorkspaceNotFound(id)) && id@ == workspace_id@),
        workspace matches Some(w) ==> {
            &&& w.embedding_model_id is None ==> r == Err::<RagPlan, RagError>(RagError::NoEmbeddingModel)
            &&& w.embedding_model_id is Some && w.model_id is None ==> r == Err::<RagPlan, RagError>(RagError::NoChatModel)
            &&& w.embedding_model_id is Some && w.model_id is Some ==> (r matches Ok(p)
                && p.embedding_model@ == w.embedding_model_id->Some_0@
                && p.chat_model@ == w.model_id->Some_0@
                && p.top_k == (match top_k { Some(k) => k, None => DEFAULT_TOP_K })
                && p.max_tokens == (match max_tokens { Some(m) => m, None => w.max_tokens })
                && (match p.system_prompt { Some(s) => Some(s@), None => None })
                    == (match w.system_prompt { Some(s) => Some(s@), None => None }))
        },
{
    let w = match workspace {
        Some(w) => w,
        None => return Err(RagError::WorkspaceNotFound(workspace_id.to_owned())),
    };
    let embedding_model = match &w.embedding_model_id {
        Some(m) => m.clone(),
        None => return Err(RagError::NoEmbeddingModel),
    };
    let chat_model = match &w.model_id {
        Some(m) => m.clone(),
        None => return Err(RagError::NoChatModel),
    };
    let system_prompt = match &w.system_prompt {
        Some(s) => Some(s.clone()),
        None => None,
    };
    Ok(RagPlan {
        embedding_model,
        chat_model,
        top_k: match top_k { Some(k) => k, None => DEFAULT_TOP_K },
        max_tokens: match max_tokens { Some(m) => m, None => w.max_tokens },
        system_prompt,
    })
}

} // verus!
