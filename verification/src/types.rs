//! OpenAI-compatible API types and model management types.

use vstd::prelude::*;

verus! {

#[derive(Debug, Clone)]
pub struct ChatMessage {
    pub role: String,
    pub content: String,
}

#[derive(Debug, Clone)]
pub struct ChatCompletionResponse {
    pub id: String,
    pub object: String,
    pub created: i64,
    pub model: String,
    pub choices: Vec<ChatChoice>,
    pub usage: Option<Usage>,
}

#[derive(Debug, Clone)]
pub struct ChatChoice {
    pub index: usize,
    pub message: Option<ChatMessage>,
    pub delta: Option<ChatMessage>,
    pub finish_reason: Option<String>,
}

#[derive(Debug, Clone, Copy)]
pub struct Usage {
    pub prompt_tokens: usize,
    pub completion_tokens: usize,
    pub total_tokens: usize,
}

#[derive(Debug, Clone)]
pub struct EmbeddingRequest {
    pub model: String,
    pub input: StringOrArray,
}

/// A single text or a list of texts.
#[derive(Debug, Clone)]
pub enum StringOrArray {
    String(String),
    Array(Vec<String>),
}

#[derive(Debug, Clone)]
pub struct Model {
    pub id: String,
    pub name: String,
    pub path: String,
    pub size: u64,
    pub quantization: Option<String>,
    pub loaded: bool,
    pub format: ModelFormat,
}

#[derive(Debug, Clone, Copy, PartialEq, Eq, Structural)]
pub enum ModelFormat {
    GGUF,
    GGML,
    SafeTensors,
}

#[derive(Debug, Clone)]
pub struct LoadModelRequest {
    pub model_id: String,
    pub config: Option<ModelConfig>,
}

#[derive(Debug, Clone, Copy)]
pub struct ModelConfig {
    pub context_size: usize,
    pub gpu_layers: u32,
    pub threads: u32,
    pub batch_size: usize,
}

pub fn default_context_size() -> (n: usize)
    ensures
        n == 4096,
{
    4096
}

pub fn default_gpu_layers() -> (n: u32)
    ensures
        n == 32,
{
    32
}

pub fn default_threads() -> (n: u32)
    ensures
        n == 4,
{
    4
}

pub fn default_batch_size() -> (n: usize)
    ensures
        n == 512,
{
    512
}

impl Default for ModelConfig {
    fn default() -> (c: Self)
        ensures
            c.context_size == 4096,
            c.gpu_layers == 32,
            c.threads == 4,
            c.batch_size == 512,
    {
        ModelConfig {
            context_size: default_context_size(),
            gpu_layers: default_gpu_layers(),
            threads: default_threads(),
            batch_size: default_batch_size(),
        }
    }
}

#[derive(Debug, Clone)]
pub struct DownloadModelRequest {
    pub repo: String,
    pub filename: Option<String>,
    pub quantization: Option<String>,
}

#[derive(Debug, Clone)]
pub struct ServerStatus {
    pub running: bool,
    pub loaded_models: Vec<String>,
    pub uptime: u64,
    pub version: String,
}

#[derive(Debug, Clone)]
pub struct ApiError {
    pub error: ErrorDetail,
}

/// Error body: message, error type (serialized as `type`) and status code.
#[derive(Debug, Clone)]
pub struct ErrorDetail {
    pub message: String,
    pub error_type: String,
    pub code: u16,
}

impl ApiError {
    pub fn new(message: &str, error_type: &str, code: u16) -> (e: Self)
        ensures
            e.error.message@ == message@,
            e.error.error_type@ == error_type@,
            e.error.code == code,
    {
        ApiError {
            error: ErrorDetail {
                message: message.to_owned(),
                error_type: error_type.to_owned(),
                code,
            },
        }
    }
}

} // verus!
