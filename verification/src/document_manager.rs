//! Document uploads: records, the file type of an upload, where its text is
//! stored, and the vector-store metadata of its chunks.

use vstd::prelude::*;
use vstd::string::StringExecFns;
use crate::documents::{page_for_position, page_holds, page_holds_law, ParsedDocument, TextChunk};
use crate::metrics::str_eq;
use crate::paths::{split_chars, split_on};
use crate::strutil::{chars_of, decimal, lowercase, push_decimal, string_from_chars, to_lowercase};
use crate::vector_store::ChunkMetadata;

verus! {

/// Document record in the database.
#[derive(Debug, Clone)]
pub struct DocumentRecord {
    pub id: String,
    pub workspace_id: String,
    pub filename: String,
    pub file_path: String,
    pub file_type: String,
    pub file_size: i64,
    pub page_count: Option<i32>,
    pub chunk_count: i32,
    pub status: String,
    pub error_message: Option<String>,
    pub created_at: String,
}

/// Document chunk record in the database.
#[derive(Debug, Clone)]
pub struct DocumentChunk {
    pub id: String,
    pub document_id: String,
    pub chunk_index: i32,
    pub chunk_text: String,
    pub page_number: Option<i32>,
    pub char_start: i32,
    pub char_end: i32,
    pub token_count: Option<i32>,
    pub vector_id: Option<String>,
    pub created_at: String,
}

/// Request to upload a document.
#[derive(Debug, Clone)]
pub struct UploadDocumentRequest {
    pub filename: String,
    /// Base64 for binary files, plain text for text files.
    pub content: String,
    pub file_type: Option<String>,
}

/// Response to an upload.
#[derive(Debug, Clone)]
pub struct UploadDocumentResponse {
    pub document_id: String,
    pub chunks_created: usize,
    pub status: String,
}

/// The file type of a file name: the text after its last `.`, in lower
/// case, when there is a `.` and the text after it is not empty; else
/// `txt`.
pub open spec fn file_type_of(filename: Seq<char>) -> Seq<char> {
    let ext = split_on(filename, '.').last();
    if ext != filename && ext.len() > 0 {
        lowercase(ext)
    } else {
        "txt"@
    }
}

/// Detects the file type of a file name.
pub fn detect_file_type(filename: &str) -> (t: String)
    ensures
        t@ == file_type_of(filename@),
{
    let cs = chars_of(filename);
    let parts = split_chars(&cs, '.');
    proof {
        crate::paths::lemma_split_on(filename@, '.');
    }
    let n = parts.len();
    let ext = string_from_chars(parts[n - 1].as_slice());
    assert(ext@ == split_on(filename@, '.').last());
    if !str_eq(ext.as_str(), filename) && parts[n - 1].len() > 0 {
        to_lowercase(ext.as_str())
    } else {
        "txt".to_owned()
    }
}

/// The file type of an upload: the one given with the request, else the
/// one detected from the file name.
pub fn upload_file_type(requested: Option<String>, filename: &str) -> (t: String)
    ensures
        t@ == match requested {
            Some(r) => r@,
            None => file_type_of(filename@),
        },
{
    match requested {
        Some(r) => r,
        None => detect_file_type(filename),
    }
}

/// The name under which a document's content is stored: `<id>.txt`.
pub fn stored_file_name(document_id: &str) -> (n: String)
    ensures
        n@ == document_id@ + ".txt"@,
{
    let mut n = document_id.to_owned();
    n.append(".txt");
    n
}

/// The response to an upload whose chunks were all stored.
pub fn ready_response(document_id: String, chunks_created: usize) -> (r: UploadDocumentResponse)
    ensures
        r.document_id == document_id,
        r.chunks_created == chunks_created,
        r.status@ == "ready"@,
{
    UploadDocumentResponse { document_id, chunks_created, status: "ready".to_owned() }
}

/// Whether `m` is the vector-store metadata of chunk `c` of a document.
pub open spec fn chunk_metadata_of(
    m: ChunkMetadata,
    c: TextChunk,
    boundaries: Seq<usize>,
    workspace_id: Seq<char>,
    document_id: Seq<char>,
    filename: Seq<char>,
    file_type: Seq<char>,
    created_at: Seq<char>,
) -> bool {
    &&& m.workspace_id@ == workspace_id
    &&& m.document_id@ == document_id
    &&& m.document_name@ == filename
    &&& m.chunk_index == c.index
    &&& m.page_number == page_for_position(boundaries, c.start_pos as nat)
    &&& m.file_type@ == file_type
    &&& m.created_at@ == created_at
}

/// The message for embeddings that do not match the chunks one for one.
pub open spec fn count_mismatch_message(expected: nat, got: nat) -> Seq<char> {
    "Embedding count mismatch: expected "@ + decimal(expected) + ", got "@ + decimal(got)
}

/// The vector-store metadata of each chunk of a parsed document, in chunk
/// order, once one embedding per chunk came back; the page of a chunk is
/// the page of its start.
pub fn vector_chunk_metadata(
    parsed: &ParsedDocument,
    chunks: &[TextChunk],
    embedding_count: usize,
    workspace_id: &str,
    document_id: &str,
    filename: &str,
    file_type: &str,
    created_at: &str,
) -> (r: Result<Vec<ChunkMetadata>, String>)
    ensures
        r is Err <==> embedding_count != chunks@.len(),
        r matches Err(m) ==> m@ == count_mismatch_message(chunks@.len(), embedding_count as nat),
        r matches Ok(v) ==> v@.len() == chunks@.len() && forall|i: int| 0 <= i < chunks@.len()
            ==> chunk_metadata_of(#[trigger] v@[i], chunks@[i], parsed.page_boundaries@, workspace_id@,
                document_id@, filename@, file_type@, created_at@),
        r matches Ok(v) ==> forall|i: int| 0 <= i < chunks@.len() ==> (#[trigger] v@[i]).page_number
            == page_for_position(parsed.page_boundaries@, chunks@[i].start_pos as nat),
        r matches Ok(v) ==> forall|i: int| 0 <= i < chunks@.len() ==> {
            &&& parsed.page_boundaries@.len() == 0 ==> (#[trigger] v@[i]).page_number is None
            &&& 0 < parsed.page_boundaries@.len() <= u32::MAX ==> (v@[i].page_number matches Some(k)
                && page_holds(parsed.page_boundaries@, k as int, chunks@[i].start_pos as nat))
        },
{
    if embedding_count != chunks.len() {
        let mut m = "Embedding count mismatch: expected ".to_owned();
        push_decimal(&mut m, chunks.len() as u128);
        m.append(", got ");
        push_decimal(&mut m, embedding_count as u128);
        return Err(m);
    }
    let mut v: Vec<ChunkMetadata> = Vec::new();
    let mut i: usize = 0;
    while i < chunks.len()
        invariant
            i <= chunks@.len(),
            v@.len() == i,
            forall|k: int| 0 <= k < i ==> chunk_metadata_of(#[trigger] v@[k], chunks@[k], parsed.page_boundaries@,
                workspace_id@, document_id@, filename@, file_type@, created_at@),
        decreases chunks@.len() - i,
    {
        let c = &chunks[i];
        v.push(ChunkMetadata {
            workspace_id: workspace_id.to_owned(),
            document_id: document_id.to_owned(),
            document_name: filename.to_owned(),
            chunk_index: c.index,
            page_number: parsed.get_page_for_position(c.start_pos),
            file_type: file_type.to_owned(),
            created_at: created_at.to_owned(),
        });
        i = i + 1;
    }
    proof {
        assert forall|i: int| 0 <= i < chunks@.len() implies {
            &&& parsed.page_boundaries@.len() == 0 ==> (#[trigger] v@[i]).page_number is None
            &&& 0 < parsed.page_boundaries@.len() <= u32::MAX ==> (v@[i].page_number matches Some(k)
                && page_holds(parsed.page_boundaries@, k as int, chunks@[i].start_pos as nat))
        } by {
            assert(chunk_metadata_of(v@[i], chunks@[i], parsed.page_boundaries@, workspace_id@,
                document_id@, filename@, file_type@, created_at@));
            if 0 < parsed.page_boundaries@.len() <= u32::MAX {
                page_holds_law(parsed.page_boundaries@, chunks@[i].start_pos as nat, 0);
            }
        }
    }
    Ok(v)
}

/// The page stored for a chunk is the page that holds the chunk's first
/// byte.
pub proof fn chunk_page_law(
    m: ChunkMetadata,
    c: TextChunk,
    boundaries: Seq<usize>,
    workspace_id: Seq<char>,
    document_id: Seq<char>,
    filename: Seq<char>,
    file_type: Seq<char>,
    created_at: Seq<char>,
)
    requires
        chunk_metadata_of(m, c, boundaries, workspace_id, document_id, filename, file_type, created_at),
        0 < boundaries.len() <= u32::MAX,
    ensures
        m.page_number matches Some(k) && page_holds(boundaries, k as int, c.start_pos as nat),
{
    page_holds_law(boundaries, c.start_pos as nat, 0);
}

} // verus!
