use lms_server::workspace::{apply_workspace_changes, new_workspace_settings, workspace_not_found, workspace_stats, WorkspaceChanges};

#[test]
fn new_settings_default_answer_length() {
    let s = new_workspace_settings("Test".to_string(), None, Some("You are helpful".to_string()), None, None, None);
    assert_eq!(s.name, "Test");
    assert_eq!(s.max_tokens, 2048);
    assert_eq!(s.system_prompt.as_deref(), Some("You are helpful"));
    let t = new_workspace_settings("T".to_string(), None, None, None, None, Some(1024));
    assert_eq!(t.max_tokens, 1024);
}

#[test]
fn test_update_workspace() {
    let current = new_workspace_settings(
        "Original".to_string(),
        Some("Original description".to_string()),
        None,
        None,
        None,
        None,
    );
    let changes = WorkspaceChanges {
        name: Some("Updated".to_string()),
        description: None,
        system_prompt: Some("New prompt".to_string()),
        model_id: None,
        embedding_model_id: None,
        max_tokens: None,
    };
    let updated = apply_workspace_changes(current, changes);
    assert_eq!(updated.name, "Updated");
    assert_eq!(updated.description.as_deref(), Some("Original description"));
    assert_eq!(updated.system_prompt.as_deref(), Some("New prompt"));
    assert_eq!(updated.max_tokens, 2048);
}

#[test]
fn empty_update_changes_nothing_and_updates_are_idempotent() {
    let current = new_workspace_settings("W".to_string(), Some("d".to_string()), None, Some("m".to_string()), None, Some(5));
    let none = WorkspaceChanges { name: None, description: None, system_prompt: None, model_id: None, embedding_model_id: None, max_tokens: None };
    let same = apply_workspace_changes(current.clone(), none);
    assert_eq!(same.name, current.name);
    assert_eq!(same.description, current.description);
    assert_eq!(same.model_id, current.model_id);
    assert_eq!(same.max_tokens, current.max_tokens);
    let ch = WorkspaceChanges { name: None, description: None, system_prompt: None, model_id: None, embedding_model_id: Some("e".to_string()), max_tokens: Some(9) };
    let once = apply_workspace_changes(current, ch.clone());
    let twice = apply_workspace_changes(once.clone(), ch);
    assert_eq!(once.embedding_model_id, twice.embedding_model_id);
    assert_eq!(once.max_tokens, twice.max_tokens);
    assert_eq!(twice.max_tokens, 9);
}

#[test]
fn stats_and_messages() {
    let s = workspace_stats(1, 2, 3, 4);
    assert_eq!((s.documents, s.chunks, s.sessions, s.messages), (1, 2, 3, 4));
    assert_eq!(workspace_not_found("abc"), "Workspace not found: abc");
}
