use codex_sdd::workflow::{agent_name, test_plan_section, test_plan_summary, worktree_branch};
use codex_sdd::index::FileEntry;
use codex_sdd::state::State;
use codex_sdd::workflow::{
    compose_repo_digest, count_matches, detect_risk, mentions_risk, numbered_change_id,
    render_reader_prompt, render_review_prompt, render_tasks_prompt, render_test_plan_prompt,
    resolve_base_ref, resolve_change_id, slugify, task_counts, WorkflowError,
};

#[test]
fn slugs() {
    assert_eq!(slugify("Add Login Page"), "add-login-page");
    assert_eq!(slugify("  --Hello, World!! "), "hello-world");
    assert_eq!(slugify("!!!"), "change");
    assert_eq!(slugify(""), "change");
    assert_eq!(slugify("日本語 v2"), "v2");
}

#[test]
fn change_id_resolution() {
    let mut s = State::new();
    assert!(matches!(resolve_change_id(&s, None), Err(WorkflowError::NoChangeSelected)));
    assert_eq!(resolve_change_id(&s, Some("x")).ok().unwrap(), "x");
    s.active_change_id = Some("act".to_string());
    assert_eq!(resolve_change_id(&s, None).ok().unwrap(), "act");
    assert_eq!(resolve_change_id(&s, Some("y")).ok().unwrap(), "y");
}

#[test]
fn numbered_ids() {
    assert_eq!(numbered_change_id("feat", 2), "feat-2");
    assert_eq!(numbered_change_id("feat", 10), "feat-10");
}

#[test]
fn base_refs() {
    assert_eq!(resolve_base_ref(Some("v1"), true), "v1");
    assert_eq!(resolve_base_ref(None, true), "origin/main");
    assert_eq!(resolve_base_ref(None, false), "HEAD~1");
}

#[test]
fn digest_sections() {
    let sections = vec![Some("one".to_string()), None, Some("three".to_string())];
    assert_eq!(compose_repo_digest(&sections), "# Repo Digest\n\n## Shard 0\n\none\n## Shard 2\n\nthree\n");
    assert_eq!(compose_repo_digest(&Vec::new()), "# Repo Digest\n\n");
}

#[test]
fn reader_prompt_lists_shard() {
    let shard = vec![
        FileEntry { path: "a.rs".to_string(), hash: "h".to_string(), size: 1 },
        FileEntry { path: "b.rs".to_string(), hash: "h".to_string(), size: 1 },
    ];
    let p = render_reader_prompt("c1", 0, 2, &shard);
    assert!(p.starts_with("# Reader\n\nchange_id: c1\nshard: 1/2\n\n対象ファイル:\n- a.rs\n- b.rs\n"));
    assert!(p.ends_with("- テスト観点\n"));
}

#[test]
fn other_prompts() {
    assert!(render_review_prompt("/d", "c").contains("- /d/10_repo_digest.md"));
    let t = render_tasks_prompt("/d", "c");
    assert!(t.contains("- /d/10_repo_digest.md\n- /d/20_review.md"));
    assert_eq!(
        render_test_plan_prompt("c", "agent1"),
        "# Test Plan\n\nchange_id: c\nagent: agent1\n\n対象ブランチのテスト計画を日本語で整理してください。\n"
    );
}

#[test]
fn task_counting() {
    assert_eq!(task_counts("- [x] a\n- [ ] b\n- [x] c\n"), (2, 3));
    assert_eq!(task_counts("no tasks"), (0, 0));
    assert_eq!(count_matches("aaaa", "aa"), 2);
    assert_eq!(count_matches("abc", ""), 0);
}

#[test]
fn risk_detection() {
    assert!(detect_risk("Severity: HIGH"));
    assert!(detect_risk("重大な問題"));
    assert!(detect_risk("Critical path"));
    assert!(!detect_risk("all fine"));
    assert!(!mentions_risk("HIGH"));
    assert!(mentions_risk("high"));
}

#[test]
fn decision_and_archive_texts() {
    assert_eq!(
        codex_sdd::workflow::render_decision("T", "alice"),
        "# Decision\n\n- approved: true\n- approved_at: T\n- approved_by: alice\n"
    );
    assert_eq!(codex_sdd::workflow::archive_name("2024-05-01", "c1_feat"), "2024-05-01-c1_feat");
}

#[test]
fn worktree_and_test_plan_texts() {
    assert_eq!(agent_name(3), "agent3");
    assert_eq!(worktree_branch("c1", "agent2"), "sdd/c1/agent2");
    let a = test_plan_section("agent1", "plan A");
    assert_eq!(a, "## agent1\n\nplan A\n");
    let b = test_plan_section("agent2", "plan B");
    assert_eq!(test_plan_summary(&vec![a.clone(), b.clone()]), format!("# Test Plan\n\n{}", [a, b].join("\n")));
    assert_eq!(test_plan_summary(&Vec::new()), "# Test Plan\n\n");
}
