//! Records of the unified database layer.

use vstd::prelude::*;

verus! {

/// Chat session record.
#[derive(Debug, Clone)]
pub struct ChatSession {
    pub id: String,
    pub workspace_id: String,
    pub title: Option<String>,
    pub created_at: String,
    pub updated_at: String,
}

/// Message in a chat session.
#[derive(Debug, Clone)]
pub struct Message {
    pub id: String,
    pub session_id: String,
    pub role: String,
    pub content: String,
    pub model_id: Option<String>,
    pub citations: Option<String>,
    pub tokens_used: Option<i32>,
    pub created_at: String,
}

/// Document record.
#[derive(Debug, Clone)]
pub struct DocumentRecord {
    pub id: String,
    pub workspace_id: String,
    pub filename: String,
    pub file_path: String,
    pub file_type: String,
    pub file_size: i64,
    pub page_count: Option<i32>,
    pub chunk_count: i32,
    pub status: String,
    pub error_message: Option<String>,
    pub created_at: String,
}

/// Document chunk record.
#[derive(Debug, Clone)]
pub struct DocumentChunk {
    pub id: String,
    pub document_id: String,
    pub chunk_index: i32,
    pub chunk_text: String,
    pub page_number: Option<i32>,
    pub char_start: i32,
    pub char_end: i32,
    pub token_count: Option<i32>,
    pub vector_id: Option<String>,
    pub created_at: String,
}

/// Workspace statistics.
#[derive(Debug, Clone)]
pub struct WorkspaceStats {
    pub documents: i32,
    pub chunks: i32,
    pub sessions: i32,
    pub messages: i32,
}

/// Request to create a chat session.
#[derive(Debug, Clone)]
pub struct CreateSessionRequest {
    pub title: Option<String>,
}

} // verus!
