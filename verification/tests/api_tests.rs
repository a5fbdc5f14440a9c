use lms_server::api::{
    chat_completion_chunk, chat_completion_reply, chat_prompt, completion_max_tokens, count_words, current_timestamp,
    embedding_inputs, embedding_token_count, ensure_model_loaded, AppError,
};
use lms_server::models::ModelManager;
use lms_server::types::{ChatMessage, Model, ModelFormat, StringOrArray};

#[test]
fn test_current_timestamp() {
    let ts = current_timestamp();
    assert!(ts > 0);
    assert!(ts > 1577836800);
}

#[test]
fn test_app_error_into_response() {
    let error = AppError::ModelNotFound("test-model".to_string());
    assert_eq!(error.status_code(), 404);

    let error = AppError::InvalidRequest("bad request".to_string());
    assert_eq!(error.status_code(), 400);

    let error = AppError::InferenceError("inference failed".to_string());
    assert_eq!(error.status_code(), 500);
}

#[test]
fn app_error_body_carries_type_and_message() {
    let (status, body) = AppError::ModelLoadError("boom".to_string()).to_api_error();
    assert_eq!(status, 500);
    assert_eq!(body.error.code, 500);
    assert_eq!(body.error.message, "boom");
    assert_eq!(body.error.error_type, "load_error");
    assert_eq!(AppError::ModelUnloadError(String::new()).error_type(), "unload_error");
    assert_eq!(AppError::DownloadError(String::new()).error_type(), "download_error");
    assert_eq!(AppError::InferenceError(String::new()).error_type(), "inference_error");
    assert_eq!(AppError::InvalidRequest(String::new()).error_type(), "invalid_request");
    assert_eq!(AppError::ModelNotFound("m".to_string()).error_type(), "model_not_found");
    assert_eq!(AppError::ModelNotFound("m".to_string()).message(), "m");
}

#[test]
fn chat_prompt_joins_messages_with_blank_lines() {
    let msgs = vec![
        ChatMessage { role: "system".to_string(), content: "Be brief.".to_string() },
        ChatMessage { role: "user".to_string(), content: "Hi".to_string() },
    ];
    assert_eq!(chat_prompt(&msgs), "system: Be brief.\n\nuser: Hi");
    assert_eq!(chat_prompt(&[]), "");
}

#[test]
fn chat_reply_shape() {
    let r = chat_completion_reply("id-1".to_string(), 7, "m".to_string(), "hello".to_string());
    assert_eq!(r.object, "chat.completion");
    assert_eq!(r.choices.len(), 1);
    let msg = r.choices[0].message.as_ref().unwrap();
    assert_eq!(msg.role, "assistant");
    assert_eq!(msg.content, "hello");
    assert!(r.choices[0].delta.is_none());
    assert_eq!(r.choices[0].finish_reason.as_deref(), Some("stop"));
    let u = r.usage.unwrap();
    assert_eq!(u.total_tokens, 0);

    let c = chat_completion_chunk("id-2".to_string(), 8, "m".to_string(), "tok".to_string());
    assert_eq!(c.object, "chat.completion.chunk");
    assert!(c.choices[0].message.is_none());
    assert_eq!(c.choices[0].delta.as_ref().unwrap().content, "tok");
    assert!(c.choices[0].finish_reason.is_none());
    assert!(c.usage.is_none());
}

#[test]
fn completion_tokens_default() {
    assert_eq!(completion_max_tokens(None), 2048);
    assert_eq!(completion_max_tokens(Some(17)), 17);
}

#[test]
fn embedding_inputs_and_token_count() {
    let one = embedding_inputs(StringOrArray::String("a b".to_string()));
    assert_eq!(one, vec!["a b".to_string()]);
    let many = embedding_inputs(StringOrArray::Array(vec!["x".to_string(), "  y  z ".to_string()]));
    assert_eq!(many.len(), 2);
    assert_eq!(embedding_token_count(&many), 3);
    assert_eq!(count_words(""), 0);
    assert_eq!(count_words("  \t\n "), 0);
    assert_eq!(count_words("one\u{3000}two  three"), 3);
}

fn model(id: &str) -> Model {
    Model {
        id: id.to_string(),
        name: id.to_string(),
        path: format!("/models/{}.gguf", id),
        size: 1,
        quantization: None,
        loaded: false,
        format: ModelFormat::GGUF,
    }
}

#[test]
fn ensure_model_loaded_loads_known_models_only() {
    let mut mm = ModelManager::new();
    mm.insert_model(model("a"));
    assert!(ensure_model_loaded(&mut mm, "a").is_ok());
    assert!(mm.is_loaded("a"));
    assert!(ensure_model_loaded(&mut mm, "a").is_ok());
    match ensure_model_loaded(&mut mm, "zzz") {
        Err(AppError::ModelNotFound(m)) => assert_eq!(m, "Model not found: zzz"),
        _ => panic!("expected a missing model"),
    }
    assert!(!mm.is_loaded("zzz"));
}
