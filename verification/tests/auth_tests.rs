use lms_server::auth::{trim_chars, auth_outcome, extract_api_key, init_api_keys, is_auth_enabled, validate_api_key, ApiKeys, AuthOutcome};

#[test]
fn test_is_auth_enabled_when_no_keys() {
    let slot: Option<ApiKeys> = None;
    assert!(!is_auth_enabled(&slot) || slot.as_ref().map_or(true, |k| k.is_empty()));
}

#[test]
fn keys_from_both_settings_are_trimmed_and_kept() {
    let mut slot: Option<ApiKeys> = None;
    assert!(init_api_keys(&mut slot, Some("main"), Some(" k1 , ,k2")));
    assert!(is_auth_enabled(&slot));
    assert!(validate_api_key(&slot, "main"));
    assert!(validate_api_key(&slot, "k1"));
    assert!(validate_api_key(&slot, "k2"));
    assert!(!validate_api_key(&slot, ""));
    assert!(!validate_api_key(&slot, "k3"));
}

#[test]
fn no_keys_leave_auth_disabled() {
    let mut slot: Option<ApiKeys> = None;
    assert!(!init_api_keys(&mut slot, None, Some(" , ")));
    assert!(!is_auth_enabled(&slot));
    assert_eq!(auth_outcome(&slot, "/v1/models", None, None), AuthOutcome::Allow);
}

#[test]
fn key_extraction_prefers_bearer() {
    assert_eq!(extract_api_key(Some("Bearer abc"), Some("xyz")), Some("abc".to_string()));
    assert_eq!(extract_api_key(Some("Basic abc"), Some("xyz")), Some("xyz".to_string()));
    assert_eq!(extract_api_key(None, Some("xyz")), Some("xyz".to_string()));
    assert_eq!(extract_api_key(Some("Basic abc"), None), None);
}

#[test]
fn auth_decisions() {
    let mut slot: Option<ApiKeys> = None;
    init_api_keys(&mut slot, Some("secret"), None);
    assert_eq!(auth_outcome(&slot, "/health", None, None), AuthOutcome::Allow);
    assert_eq!(auth_outcome(&slot, "/v1/models", Some("Bearer secret"), None), AuthOutcome::Allow);
    assert_eq!(auth_outcome(&slot, "/v1/models", None, Some("secret")), AuthOutcome::Allow);
    assert_eq!(auth_outcome(&slot, "/v1/models", Some("Bearer wrong"), None), AuthOutcome::InvalidKey);
    assert_eq!(auth_outcome(&slot, "/v1/models", None, None), AuthOutcome::MissingKey);
    let invalid = AuthOutcome::InvalidKey.rejection().unwrap();
    assert_eq!(invalid.error.code, 401);
    assert_eq!(invalid.error.message, "Invalid API key");
    assert_eq!(invalid.error.error_type, "invalid_api_key");
    let missing = AuthOutcome::MissingKey.rejection().unwrap();
    assert_eq!(missing.error.error_type, "missing_api_key");
    assert!(AuthOutcome::Allow.rejection().is_none());
}

#[test]
fn trimming_agrees_with_std_whitespace() {
    for n in 0u32..0x3100 {
        if let Some(c) = char::from_u32(n) {
            let v = vec![c, 'k', c];
            let t = trim_chars(&v);
            if c.is_whitespace() {
                assert_eq!(t, vec!['k'], "U+{:04X}", n);
            } else {
                assert_eq!(t, v, "U+{:04X}", n);
            }
        }
    }
}
