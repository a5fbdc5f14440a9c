use lms_server::types::{default_batch_size, default_context_size, default_gpu_layers, default_threads, ApiError, ModelConfig};

#[test]
fn test_model_config_defaults() {
    let config = ModelConfig::default();
    assert_eq!(config.context_size, 4096);
    assert_eq!(config.gpu_layers, 32);
    assert_eq!(config.threads, 4);
    assert_eq!(config.batch_size, 512);
}

#[test]
fn test_api_error_creation() {
    let error = ApiError::new("Test error", "validation_error", 400);
    assert_eq!(error.error.message, "Test error");
    assert_eq!(error.error.error_type, "validation_error");
    assert_eq!(error.error.code, 400);
}

#[test]
fn model_config_default_helpers() {
    assert_eq!(default_context_size(), 4096);
    assert_eq!(default_gpu_layers(), 32);
    assert_eq!(default_threads(), 4);
    assert_eq!(default_batch_size(), 512);
}
