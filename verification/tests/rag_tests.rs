use lms_server::rag::{build_prompt, plan_rag, RagError, SearchResult};
use lms_server::vector_store::ChunkMetadata;
use lms_server::workspace::new_workspace_settings;

fn hit(id: &str, text: &str, doc: &str, name: &str, index: usize, page: Option<u32>, file_type: &str) -> SearchResult {
    SearchResult {
        id: id.to_string(),
        chunk_text: text.to_string(),
        metadata: ChunkMetadata {
            workspace_id: "ws-1".to_string(),
            document_id: doc.to_string(),
            document_name: name.to_string(),
            chunk_index: index,
            page_number: page,
            file_type: file_type.to_string(),
            created_at: "2024-11-05T00:00:00Z".to_string(),
        },
    }
}

#[test]
fn test_build_prompt_with_context() {
    let context_chunks = vec![
        hit("chunk-1", "The capital of France is Paris.", "doc1", "geography.txt", 0, Some(1), "txt"),
        hit("chunk-2", "Paris is known for the Eiffel Tower.", "doc1", "geography.txt", 1, Some(1), "txt"),
    ];

    let (prompt, citations) = build_prompt(
        "What is the capital of France?",
        &context_chunks,
        Some("You are a helpful assistant."),
    );

    assert!(prompt.contains("The capital of France is Paris"));
    assert!(prompt.contains("Paris is known for the Eiffel Tower"));
    assert!(prompt.contains("[1]"));
    assert!(prompt.contains("[2]"));
    assert!(prompt.contains("What is the capital of France?"));

    assert_eq!(citations.len(), 2);
    assert_eq!(citations[0].id, "[1]");
    assert_eq!(citations[0].document_name, "geography.txt");
    assert_eq!(citations[0].page_number, Some(1));
    assert_eq!(citations[1].id, "[2]");
}

#[test]
fn test_build_prompt_without_context() {
    let (prompt, citations) = build_prompt("What is the meaning of life?", &[], Some("You are a helpful assistant."));
    assert!(prompt.contains("What is the meaning of life?"));
    assert!(!prompt.contains("Context:"));
    assert!(citations.is_empty());
    assert_eq!(prompt, "You are a helpful assistant.\n\nUser: What is the meaning of life?\n\nAssistant:");
}

#[test]
fn test_citation_metadata() {
    let context_chunks = vec![hit("chunk-1", "Test content", "test-doc", "test.pdf", 0, Some(42), "pdf")];
    let (_, citations) = build_prompt("test query", &context_chunks, None);

    assert_eq!(citations.len(), 1);
    let citation = &citations[0];
    assert_eq!(citation.document_id, "test-doc");
    assert_eq!(citation.document_name, "test.pdf");
    assert_eq!(citation.page_number, Some(42));
    assert_eq!(citation.text, "Test content");
    assert_eq!(citation.char_range, (0, 0));
}

#[test]
fn prompt_text_is_exact() {
    let chunks = vec![
        hit("c1", "alpha", "d", "a.pdf", 0, Some(3), "pdf"),
        hit("c2", "beta", "d", "b.txt", 1, None, "txt"),
    ];
    let (prompt, _) = build_prompt("Q?", &chunks, None);
    let expected = "You are a helpful AI assistant. Answer questions based on the provided context. Always cite your sources using the citation IDs (e.g., [1], [2]) when referencing information. If the context doesn't contain relevant information, say so clearly.\n\nContext:\n\n[1] (Source: a.pdf, page 3):\nalpha\n\n[2] (Source: b.txt):\nbeta\n\n\nUser: Q?\n\nAssistant:";
    assert_eq!(prompt, expected);
}

#[test]
fn rag_plans() {
    assert_eq!(plan_rag("w", None, None, None).unwrap_err(), RagError::WorkspaceNotFound("w".to_string()));
    assert_eq!(RagError::WorkspaceNotFound("w".to_string()).message(), "Workspace not found: w");
    let no_embed = new_workspace_settings("W".to_string(), None, None, Some("chat".to_string()), None, None);
    assert_eq!(plan_rag("w", Some(&no_embed), None, None).unwrap_err(), RagError::NoEmbeddingModel);
    assert_eq!(RagError::NoEmbeddingModel.message(), "No embedding model configured for workspace");
    let no_chat = new_workspace_settings("W".to_string(), None, None, None, Some("emb".to_string()), None);
    assert_eq!(plan_rag("w", Some(&no_chat), None, None).unwrap_err(), RagError::NoChatModel);
    assert_eq!(RagError::NoChatModel.message(), "No chat model configured for workspace");
    let full = new_workspace_settings("W".to_string(), None, Some("sys".to_string()), Some("chat".to_string()), Some("emb".to_string()), Some(100));
    let p = plan_rag("w", Some(&full), None, None).unwrap();
    assert_eq!(p.embedding_model, "emb");
    assert_eq!(p.chat_model, "chat");
    assert_eq!(p.top_k, 5);
    assert_eq!(p.max_tokens, 100);
    assert_eq!(p.system_prompt.as_deref(), Some("sys"));
    let q = plan_rag("w", Some(&full), Some(2), Some(7)).unwrap();
    assert_eq!((q.top_k, q.max_tokens), (2, 7));
}

#[test]
fn prompt_holds_each_entry_and_ends_with_the_question() {
    let chunks = vec![
        hit("a", "Alpha text.", "d1", "one.pdf", 0, Some(3), "pdf"),
        hit("b", "Beta text.", "d2", "two.txt", 0, None, "txt"),
    ];
    let (prompt, _) = build_prompt("Why?", &chunks, None);
    assert!(prompt.contains("\n[1] (Source: one.pdf, page 3):\nAlpha text.\n"));
    assert!(prompt.contains("\n[2] (Source: two.txt):\nBeta text.\n"));
    assert!(prompt.ends_with("\n\nUser: Why?\n\nAssistant:"));
}

#[test]
fn context_section_only_with_chunks() {
    let (without, c0) = build_prompt("Why?", &[], Some("Be brief."));
    assert!(!without.contains("Context:"));
    assert!(c0.is_empty());
    assert_eq!(without, "Be brief.\n\nUser: Why?\n\nAssistant:");
    let chunks = vec![hit("a", "Alpha.", "d1", "one.txt", 0, None, "txt")];
    let (with, c1) = build_prompt("Why?", &chunks, Some("Be brief."));
    assert!(with.starts_with("Be brief.\n\nContext:\n"));
    assert_eq!(c1.len(), 1);
}
