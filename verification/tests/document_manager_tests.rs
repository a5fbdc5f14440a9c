use lms_server::document_manager::{detect_file_type, ready_response, stored_file_name, upload_file_type, vector_chunk_metadata};
use lms_server::documents::{DocumentMetadata, ParsedDocument, TextChunk};

#[test]
fn test_detect_file_type() {
    assert_eq!(detect_file_type("test.txt"), "txt");
    assert_eq!(detect_file_type("test.pdf"), "pdf");
    assert_eq!(detect_file_type("test.docx"), "docx");
    assert_eq!(detect_file_type("test.md"), "md");
    assert_eq!(detect_file_type("noextension"), "txt");
}

#[test]
fn detect_file_type_edge_cases() {
    assert_eq!(detect_file_type("Archive.TAR.GZ"), "gz");
    assert_eq!(detect_file_type("trailing."), "txt");
    assert_eq!(detect_file_type(".env"), "env");
    assert_eq!(detect_file_type(""), "txt");
}

#[test]
fn upload_type_prefers_the_request() {
    assert_eq!(upload_file_type(Some("pdf".to_string()), "a.txt"), "pdf");
    assert_eq!(upload_file_type(None, "a.DOCX"), "docx");
    assert_eq!(stored_file_name("test-doc-123"), "test-doc-123.txt");
    let r = ready_response("d".to_string(), 4);
    assert_eq!(r.status, "ready");
    assert_eq!(r.chunks_created, 4);
}

fn chunk(text: &str, start: usize, index: usize) -> TextChunk {
    TextChunk { text: text.to_string(), start_pos: start, end_pos: start + text.len(), index }
}

#[test]
fn chunk_metadata_follows_chunks_and_pages() {
    let parsed = ParsedDocument {
        text: "x".repeat(20),
        page_count: Some(2),
        metadata: DocumentMetadata::default(),
        page_boundaries: vec![10, 20],
    };
    let chunks = vec![chunk("aaaa", 0, 0), chunk("bbbb", 12, 1)];
    let v = vector_chunk_metadata(&parsed, &chunks, 2, "ws", "doc", "f.pdf", "pdf", "now").unwrap();
    assert_eq!(v.len(), 2);
    assert_eq!(v[0].page_number, Some(1));
    assert_eq!(v[1].page_number, Some(2));
    assert_eq!(v[1].chunk_index, 1);
    assert_eq!(v[0].document_name, "f.pdf");
    assert_eq!(v[0].workspace_id, "ws");
    assert_eq!(v[1].created_at, "now");
    let err = vector_chunk_metadata(&parsed, &chunks, 3, "ws", "doc", "f.pdf", "pdf", "now").unwrap_err();
    assert_eq!(err, "Embedding count mismatch: expected 2, got 3");
}
