use codex_sdd::exec::{run_args_of, ExecSpec};
use codex_sdd::paths::{codex_home_from, is_change_dir_of, join, output_paths, GlobalPaths, RepoPaths};
use codex_sdd::quality::{ensure_coverage_success, ensure_success, QualityError, TestResult};
use codex_sdd::templates::{
    render_agents_md, render_change_placeholders, render_context_placeholders, render_docs_readme,
    render_prompt_plans, AGENTS_MD,
};

#[test]
fn joining() {
    assert_eq!(join("/r", "docs"), "/r/docs");
    assert_eq!(join("/r/", "docs"), "/r/docs");
    assert_eq!(join("", "docs"), "docs");
    assert_eq!(join("/r", "/abs"), "/abs");
}

#[test]
fn repo_layout() {
    let p = RepoPaths::load("/repo");
    assert_eq!(p.docs_sdd, "/repo/docs/sdd");
    assert_eq!(p.docs_changes, "/repo/docs/sdd/changes");
    assert_eq!(p.state_path, "/repo/.codex/sdd/state.json");
    assert_eq!(p.runs_dir, "/repo/.codex/sdd/runs");
    assert_eq!(p.worktrees_dir, "/repo/.codex/sdd/worktrees");
    assert_eq!(p.schemas_dir, "/repo/.codex/sdd/schemas");
    assert_eq!(p.change_dir("c1", "feat"), "/repo/docs/sdd/changes/c1_feat");
    assert_eq!(p.change_context_dir("/x/c1_feat"), "/x/c1_feat/context");
    assert_eq!(GlobalPaths::load("/h/.codex").codex_home, "/h/.codex");
}

#[test]
fn output_locations() {
    let (md, jsonl) = output_paths("/runs", "c1", "reader_0");
    assert_eq!(md, "/runs/c1/reader_0.md");
    assert_eq!(jsonl, "/runs/c1/reader_0.jsonl");
}

#[test]
fn codex_home_choice() {
    assert_eq!(codex_home_from(Some("/e"), Some("/h")).as_deref(), Some("/e"));
    assert_eq!(codex_home_from(None, Some("/h")).as_deref(), Some("/h/.codex"));
    assert_eq!(codex_home_from(None, None), None);
}

#[test]
fn change_dir_names() {
    assert!(is_change_dir_of("c1_feat", "c1"));
    assert!(!is_change_dir_of("c10_feat", "c1"));
    assert!(!is_change_dir_of("c1", "c1"));
}

#[test]
fn agent_runner_arguments() {
    let spec = ExecSpec {
        cwd: "/repo".to_string(),
        prompt_path: "/p.md".to_string(),
        output_path: "/o.md".to_string(),
        json_output_path: Some("/o.jsonl".to_string()),
        sandbox: "read-only".to_string(),
        schema_path: Some("/s.json".to_string()),
    };
    let args = run_args_of(&spec, "--prompt-file", " -m  gpt ");
    assert_eq!(
        args,
        vec![
            "exec", "--sandbox", "read-only", "--cd", "/repo", "--output-last-message", "/o.md",
            "--prompt-file", "/p.md", "--output-schema", "/s.json", "--json", "-m", "gpt",
        ]
    );
    let bare = ExecSpec { json_output_path: None, schema_path: None, ..spec };
    assert_eq!(run_args_of(&bare, "--prompt-file", "").len(), 9);
}

#[test]
fn test_results() {
    let ok = TestResult { success: true, stdout: String::new(), stderr: String::new() };
    assert!(ensure_success(&ok).is_ok());
    let bad = TestResult { success: false, stdout: String::new(), stderr: String::new() };
    assert!(matches!(ensure_success(&bad), Err(QualityError::TestsFailed)));
    assert!(matches!(ensure_coverage_success(false), Err(QualityError::CoverageFailed)));
    assert!(ensure_coverage_success(true).is_ok());
}

#[test]
fn templates() {
    assert_eq!(render_agents_md(), AGENTS_MD);
    assert!(render_prompt_plans().starts_with("---\nname: plans\n"));
    assert!(render_docs_readme().starts_with("# Spec-Driven Development (SDD)"));
    let names: Vec<String> = render_change_placeholders().into_iter().map(|(n, _)| n).collect();
    assert_eq!(names, vec!["10_repo_digest.md", "20_review.md", "40_tasks.md", "50_test_plan.md", "90_decision.md"]);
    let ctx = render_context_placeholders();
    assert_eq!(ctx[2], ("file_index.json".to_string(), "{}\n".to_string()));
}
