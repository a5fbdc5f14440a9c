//! Core logic of a local LLM server: document chunking and parsing,
//! request metrics, rate limiting, API-key checks and prompt assembly.

pub mod strutil;
pub mod assoc;
pub mod chunk_spec;
pub mod documents;
pub mod clock;
pub mod rate_limit;
pub mod paths;
pub mod metrics;
pub mod auth;
pub mod types;
pub mod api;
pub mod models;
pub mod inference;
pub mod vector_store;
pub mod workspace;
pub mod rag;
pub mod document_manager;
pub mod chat_sessions;
pub mod repository;
pub mod db;
pub mod config;
