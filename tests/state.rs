use codex_sdd::state::{ChangeState, State, StateError, SCHEMA_VERSION, TOOL_VERSION};

#[test]
fn fresh_state_has_no_changes() {
    let s = State::new();
    assert_eq!(s.schema_version, SCHEMA_VERSION);
    assert_eq!(s.tool_version, TOOL_VERSION);
    assert!(s.active_change_id.is_none());
    assert!(s.changes.entries.is_empty());
}

#[test]
fn require_approved_unknown_and_unapproved_fail() {
    let mut s = State::new();
    assert!(matches!(s.require_approved("c1"), Err(StateError::UnknownChange(ref id)) if id == "c1"));
    s.change_state_mut("c1");
    assert!(matches!(s.require_approved("c1"), Err(StateError::ApprovalRequired(ref id)) if id == "c1"));
    s.record_thread("c1", "review", "review");
    assert!(s.require_approved("c1").is_err());
    s.approve_change("c2", "bob");
    assert!(s.require_approved("c1").is_err());
}

#[test]
fn approve_then_require_succeeds() {
    let mut s = State::new();
    s.approve_change("c1", "alice");
    assert!(s.require_approved("c1").is_ok());
    let c = s.change_state("c1").unwrap();
    assert!(c.approved);
    assert_eq!(c.approved_by.as_deref(), Some("alice"));
    assert!(!c.approved_at.as_deref().unwrap_or("").is_empty());
    s.approve_change_at("c1", "carol", "2024-01-01T00:00:00+00:00");
    let c = s.change_state("c1").unwrap();
    assert_eq!(c.approved_by.as_deref(), Some("carol"));
    assert_eq!(c.approved_at.as_deref(), Some("2024-01-01T00:00:00+00:00"));
}

#[test]
fn change_state_mut_is_idempotent() {
    let mut s = State::new();
    s.change_state_mut("a").approved = false;
    s.change_state_mut("a");
    s.change_state_mut("b");
    assert_eq!(s.changes.entries.len(), 2);
    assert!(s.change_state("a").is_some());
    assert!(s.change_state("zzz").is_none());
}

#[test]
fn record_thread_appends() {
    let mut s = State::new();
    s.record_thread_at("c", "review", "t1", "T1");
    s.record_thread_at("c", "tasks", "t2", "T2");
    let c = s.change_state("c").unwrap();
    let log: Vec<(&str, &str, &str)> = c
        .codex_threads
        .iter()
        .map(|t| (t.purpose.as_str(), t.thread_id.as_str(), t.started_at.as_str()))
        .collect();
    assert_eq!(log, vec![("review", "t1", "T1"), ("tasks", "t2", "T2")]);
}

#[test]
fn loaded_document_schema_rules() {
    let mut zero = State::new();
    zero.schema_version = 0;
    assert!(matches!(State::from_document(zero), Err(StateError::UnsupportedSchema(0))));
    let mut doc = State::new();
    doc.tool_version = String::new();
    let s = State::from_document(doc).ok().unwrap();
    assert_eq!(s.schema_version, 1);
    assert_eq!(s.tool_version, TOOL_VERSION);
    let mut bad = State::new();
    bad.schema_version = 2;
    assert!(matches!(State::from_document(bad), Err(StateError::UnsupportedSchema(2))));
    let mut kept = State::new();
    kept.tool_version = "9.9.9".to_string();
    assert_eq!(State::from_document(kept).ok().unwrap().tool_version, "9.9.9");
}

#[test]
fn record_index_and_base_commit() {
    let mut s = State::new();
    let mut t = codex_sdd::table::Table::new();
    t.insert("a.rs".to_string(), "h".to_string());
    s.record_index_at("c", t, "agg", "T");
    s.set_base_commit("c", "abc123");
    let c: &ChangeState = s.change_state("c").unwrap();
    assert_eq!(c.file_index_hash.as_deref(), Some("agg"));
    assert_eq!(c.file_index_generated_at.as_deref(), Some("T"));
    assert_eq!(c.file_hashes.get("a.rs").map(|s| s.as_str()), Some("h"));
    assert_eq!(c.base_commit.as_deref(), Some("abc123"));
}

#[test]
fn table_insert_replaces() {
    let mut t = codex_sdd::table::Table::new();
    t.insert("k".to_string(), 1u32);
    t.insert("j".to_string(), 2u32);
    t.insert("k".to_string(), 3u32);
    assert_eq!(t.entries.len(), 2);
    assert_eq!(t.get("k"), Some(&3));
    assert!(t.contains_key("j"));
    assert!(!t.contains_key("x"));
}
