use lms_server::models::{extract_quantization, lowercase_quantization_tag, model_from_file, model_record, ModelError, ModelManager};
use lms_server::types::{DownloadModelRequest, ModelConfig, ModelFormat};

#[test]
fn quantization_tags() {
    assert_eq!(extract_quantization("llama-2-7b.Q4_K_M.gguf"), Some("Q4_K_M".to_string()));
    assert_eq!(extract_quantization("mistral-q5_k_s-v2"), Some("Q5_K_S".to_string()));
    assert_eq!(extract_quantization("model"), None);
    assert_eq!(extract_quantization("llama-q8_0"), Some("Q8_0".to_string()));
    assert_eq!(extract_quantization("llama-2-7b.Q4_K_M"), Some("Q4_K_M".to_string()));
}

#[test]
fn model_records_from_files() {
    let m = model_from_file("llama.Q4_K_M", "llama", "GGUF", "/m/llama/llama.Q4_K_M.gguf", 42).unwrap();
    assert_eq!(m.id, "llama.Q4_K_M-llama");
    assert_eq!(m.name, "llama.Q4_K_M");
    assert_eq!(m.path, "/m/llama/llama.Q4_K_M.gguf");
    assert_eq!(m.size, 42);
    assert!(!m.loaded);
    assert_eq!(m.format, ModelFormat::GGUF);
    assert_eq!(m.quantization, Some("Q4_K_M".to_string()));
    let b = model_from_file("x-q4_0-y", "dir", "bin", "/p", 1).unwrap();
    assert_eq!(b.format, ModelFormat::GGML);
    assert_eq!(b.quantization, Some("Q4_0".to_string()));
    assert!(model_from_file("readme", "dir", "txt", "/p", 1).is_none());
}

#[test]
fn load_and_unload_models() {
    let mut mm = ModelManager::new();
    mm.insert_model(model_from_file("a", "d", "gguf", "/a.gguf", 1).unwrap());
    assert_eq!(mm.list_models().len(), 1);
    assert!(mm.get_model("a-d").is_some());
    assert!(!mm.is_loaded("a-d"));
    assert!(mm.load_model("a-d", ModelConfig::default()).is_ok());
    assert!(mm.is_loaded("a-d"));
    assert!(mm.get_model("a-d").unwrap().loaded);
    assert_eq!(mm.get_loaded_models(), vec!["a-d".to_string()]);
    assert!(mm.unload_model("a-d").is_ok());
    assert!(!mm.is_loaded("a-d"));
    assert!(!mm.get_model("a-d").unwrap().loaded);
    assert!(mm.get_loaded_models().is_empty());
    match mm.load_model("missing", ModelConfig::default()) {
        Err(e) => assert_eq!(e.message(), "Model not found: missing"),
        Ok(()) => panic!("unknown model loaded"),
    }
    assert!(matches!(mm.load_model("missing", ModelConfig::default()), Err(ModelError::NotFound(_))));
    assert!(mm.unload_model("missing").is_ok());
    let req = DownloadModelRequest { repo: "TheBloke/Llama-2-7B-GGUF".to_string(), filename: None, quantization: Some("Q4_K_M".to_string()) };
    assert!(mm.download_model(req).is_ok());
}

#[test]
fn inserting_a_known_id_replaces_it() {
    let mut mm = ModelManager::new();
    mm.insert_model(model_from_file("a", "d", "gguf", "/one", 1).unwrap());
    mm.insert_model(model_from_file("a", "d", "gguf", "/two", 2).unwrap());
    assert_eq!(mm.list_models().len(), 1);
    assert_eq!(mm.get_model("a-d").unwrap().path, "/two");
}

#[test]
fn lowercase_tag_is_taken_as_is() {
    assert_eq!(lowercase_quantization_tag("llama-2-7b.q4_k_m"), Some("q4_k_m".to_string()));
    assert_eq!(lowercase_quantization_tag("mistral.q5_0.extra"), Some("q5_0".to_string()));
    assert_eq!(lowercase_quantization_tag("phi-2"), None);
}

#[test]
fn model_record_keeps_the_given_tag() {
    let m = model_record("llama", "models", "gguf", "/m/llama.gguf", 7, Some("Q8_0".to_string())).unwrap();
    assert_eq!(m.id, "llama-models");
    assert_eq!(m.name, "llama");
    assert_eq!(m.path, "/m/llama.gguf");
    assert_eq!(m.size, 7);
    assert_eq!(m.quantization, Some("Q8_0".to_string()));
    assert!(!m.loaded);
    assert_eq!(m.format, ModelFormat::GGUF);
    let b = model_record("x", "d", "bin", "p", 1, None).unwrap();
    assert_eq!(b.format, ModelFormat::GGML);
    assert!(model_record("x", "d", "GGUF", "p", 1, None).is_none());
    assert!(model_record("x", "d", "txt", "p", 1, None).is_none());
}
