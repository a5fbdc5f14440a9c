//! Chat session and message records.

use vstd::prelude::*;

verus! {

/// Chat session record.
#[derive(Debug, Clone)]
pub struct ChatSession {
    pub id: String,
    pub workspace_id: String,
    pub title: Option<String>,
    pub created_at: String,
    pub updated_at: String,
}

/// Message in a chat session.
#[derive(Debug, Clone)]
pub struct Message {
    pub id: String,
    pub session_id: String,
    /// `user`, `assistant` or `system`.
    pub role: String,
    pub content: String,
    pub model_id: Option<String>,
    /// Citations as JSON text.
    pub citations: Option<String>,
    pub tokens_used: Option<i32>,
    pub created_at: String,
}

/// Request to create a chat session.
#[derive(Debug, Clone)]
pub struct CreateSessionRequest {
    pub title: Option<String>,
}

} // verus!
