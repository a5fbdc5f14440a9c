//! Workspace settings: defaults of a new workspace, how an update request
//! changes them, and workspace statistics.

use vstd::prelude::*;
use vstd::string::StringExecFns;

verus! {

/// Largest number of tokens generated per answer when a workspace does not
/// set one.
pub const DEFAULT_MAX_TOKENS: i32 = 2048;

/// Statistics of a workspace.
#[derive(Debug, Clone)]
pub struct WorkspaceStats {
    pub documents: usize,
    pub chunks: usize,
    pub sessions: usize,
    pub messages: usize,
}

/// Statistics from the counted rows.
pub fn workspace_stats(documents: i64, chunks: i64, sessions: i64, messages: i64) -> (s: WorkspaceStats)
    ensures
        s.documents == documents as usize,
        s.chunks == chunks as usize,
        s.sessions == sessions as usize,
        s.messages == messages as usize,
{
    WorkspaceStats {
        documents: documents as usize,
        chunks: chunks as usize,
        sessions: sessions as usize,
        messages: messages as usize,
    }
}

/// The settings of a workspace other than its sampling temperature.
#[derive(Debug, Clone)]
pub struct WorkspaceSettings {
    pub name: String,
    pub description: Option<String>,
    pub system_prompt: Option<String>,
    pub model_id: Option<String>,
    pub embedding_model_id: Option<String>,
    pub max_tokens: i32,
}

/// The requested changes to those settings; `None` keeps a setting.
#[derive(Debug, Clone)]
pub struct WorkspaceChanges {
    pub name: Option<String>,
    pub description: Option<String>,
    pub system_prompt: Option<String>,
    pub model_id: Option<String>,
    pub embedding_model_id: Option<String>,
    pub max_tokens: Option<i32>,
}

/// A requested value where there is one, else the current one.
pub open spec fn or_current<T>(requested: Option<T>, current: Option<T>) -> Option<T> {
    match requested {
        Some(v) => Some(v),
        None => current,
    }
}

/// The settings after an update.
pub open spec fn settings_after(current: WorkspaceSettings, changes: WorkspaceChanges) -> WorkspaceSettings {
    WorkspaceSettings {
        name: match changes.name { Some(n) => n, None => current.name },
        description: or_current(changes.description, current.description),
        system_prompt: or_current(changes.system_prompt, current.system_prompt),
        model_id: or_current(changes.model_id, current.model_id),
        embedding_model_id: or_current(changes.embedding_model_id, current.embedding_model_id),
        max_tokens: match changes.max_tokens { Some(m) => m, None => current.max_tokens },
    }
}

fn keep_or_replace(requested: Option<String>, current: Option<String>) -> (r: Option<String>)
    ensures
        r == or_current(requested, current),
{
    match requested {
        Some(v) => Some(v),
        None => current,
    }
}

/// Applies an update request to the current settings.
pub fn apply_workspace_changes(current: WorkspaceSettings, changes: WorkspaceChanges) -> (r: WorkspaceSettings)
    ensures
        r == settings_after(current, changes),
        (changes.name matches Some(v) ==> r.name == v) && (changes.name is None ==> r.name == current.name),
        (changes.description matches Some(v) ==> r.description == Some(v)) && (changes.description is None ==> r.description == current.description),
        (changes.system_prompt matches Some(v) ==> r.system_prompt == Some(v)) && (changes.system_prompt is None ==> r.system_prompt == current.system_prompt),
        (changes.model_id matches Some(v) ==> r.model_id == Some(v)) && (changes.model_id is None ==> r.model_id == current.model_id),
        (changes.embedding_model_id matches Some(v) ==> r.embedding_model_id == Some(v)) && (changes.embedding_model_id is None ==> r.embedding_model_id == current.embedding_model_id),
        (changes.max_tokens matches Some(v) ==> r.max_tokens == v) && (changes.max_tokens is None ==> r.max_tokens == current.max_tokens),
{
    WorkspaceSettings {
        name: match changes.name { Some(n) => n, None => current.name },
        description: keep_or_replace(changes.description, current.description),
        system_prompt: keep_or_replace(changes.system_prompt, current.system_prompt),
        model_id: keep_or_replace(changes.model_id, current.model_id),
        embedding_model_id: keep_or_replace(changes.embedding_model_id, current.embedding_model_id),
        max_tokens: match changes.max_tokens { Some(m) => m, None => current.max_tokens },
    }
}

/// An update sets every setting it requests to the requested value and
/// leaves every other setting as it was.
pub proof fn workspace_field_law(current: WorkspaceSettings, changes: WorkspaceChanges)
    ensures
        (changes.name matches Some(v) ==> settings_after(current, changes).name == v) && (changes.name is None ==> settings_after(current, changes).name == current.name),
        (changes.description matches Some(v) ==> settings_after(current, changes).description == Some(v)) && (changes.description is None ==> settings_after(current, changes).description == current.description),
        (changes.system_prompt matches Some(v) ==> settings_after(current, changes).system_prompt == Some(v)) && (changes.system_prompt is None ==> settings_after(current, changes).system_prompt == current.system_prompt),
        (changes.model_id matches Some(v) ==> settings_after(current, changes).model_id == Some(v)) && (changes.model_id is None ==> settings_after(current, changes).model_id == current.model_id),
        (changes.embedding_model_id matches Some(v) ==> settings_after(current, changes).embedding_model_id == Some(v)) && (changes.embedding_model_id is None ==> settings_after(current, changes).embedding_model_id == current.embedding_model_id),
        (changes.max_tokens matches Some(v) ==> settings_after(current, changes).max_tokens == v) && (changes.max_tokens is None ==> settings_after(current, changes).max_tokens == current.max_tokens),
{
}

/// The settings of a new workspace; the answer length defaults to
/// `DEFAULT_MAX_TOKENS`.
pub fn new_workspace_settings(
    name: String,
    description: Option<String>,
    system_prompt: Option<String>,
    model_id: Option<String>,
    embedding_model_id: Option<String>,
    max_tokens: Option<i32>,
) -> (r: WorkspaceSettings)
    ensures
        r.name == name,
        r.description == description,
        r.system_prompt == system_prompt,
        r.model_id == model_id,
        r.embedding_model_id == embedding_model_id,
        r.max_tokens == match max_tokens { Some(m) => m, None => DEFAULT_MAX_TOKENS },
{
    WorkspaceSettings {
        name,
        description,
        system_prompt,
        model_id,
        embedding_model_id,
        max_tokens: match max_tokens { Some(m) => m, None => DEFAULT_MAX_TOKENS },
    }
}

/// The message for an unknown workspace: `Workspace not found: <id>`.
pub fn workspace_not_found(id: &str) -> (m: String)
    ensures
        m@ == "Workspace not found: "@ + id@,
{
    let mut m = "Workspace not found: ".to_owned();
    m.append(id);
    m
}

/// An update that requests nothing leaves the settings as they are, and
/// applying the same update twice is the same as applying it once.
pub proof fn workspace_update_law(current: WorkspaceSettings, changes: WorkspaceChanges)
    ensures
        settings_after(current, WorkspaceChanges {
            name: None,
            description: None,
            system_prompt: None,
            model_id: None,
            embedding_model_id: None,
            max_tokens: None,
        }) == current,
        settings_after(settings_after(current, changes), changes) == settings_after(current, changes),
{
}

} // verus!
