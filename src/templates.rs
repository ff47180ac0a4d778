//! The texts that the workflow writes when it sets up a repository or a change.
use vstd::prelude::*;

use crate::text::copy_text;

verus! {

/// The file name of the installed prompt.
pub const PROMPT_PLANS_FILENAME: &'static str = "plans.md";

/// The agent instructions written to a repository's `AGENTS.md`.
pub const AGENTS_MD: &'static str = r#"<!-- OPENSPEC:START -->

# OpenSpec Instructions

These instructions are for AI assistants working in this project.

Always open `@/openspec/AGENTS.md` when the request:

- Mentions planning or proposals (words like proposal, spec, change, plan)
- Introduces new capabilities, breaking changes, architecture shifts, or big performance/security work
- Sounds ambiguous and you need the authoritative spec before coding

Use `@/openspec/AGENTS.md` to learn:

- How to create and apply change proposals
- Spec format and conventions
- Project structure and guidelines

Keep this managed block so 'openspec update' can refresh the instructions.

<!-- OPENSPEC:END -->

# Project Agent Instructions (codex-sdd)

## 1) Language selection
- Start by asking the user which language to use (e.g., English / Japanese).
- After the user selects, respond only in that language.

## 2) Context7 usage
- If the task involves a library/framework and Context7 docs are available, resolve the
  library ID and use Context7 as the authoritative source before coding or explaining.

## 3) codex-sdd usage (detailed)

### Prerequisites
- Rust toolchain (cargo)
- A git repository (commands use `git` under the hood)
- Codex CLI available as `codex`
- Optional: `cargo llvm-cov` or `cargo tarpaulin` for coverage

### Setup
1. `codex-sdd install` to create `CODEX_HOME/prompts/plans.md`.
2. `codex-sdd init` to scaffold `docs/sdd` and `AGENTS.md`.

### End-to-end workflow
1. Start a change session:
   - `codex-sdd plans --name "<change-name>" [--agents N] [--include-untracked]`
   - Output: `docs/sdd/changes/<id>_<name>/10_repo_digest.md`
2. Generate review and tasks:
   - `codex-sdd review`
   - `codex-sdd tasks`
   - Outputs: `20_review.md`, `40_tasks.md`
3. Approve to unlock work:
   - `codex-sdd approve`
   - Output: `90_decision.md`
4. Create worktrees:
   - `codex-sdd worktrees --agents N`
   - Output: `.codex/sdd/worktrees/<change_id>/agentN`
5. Test plan and execution:
   - `codex-sdd test-plan [--coverage llvm-cov|tarpaulin|none]`
   - Output: `50_test_plan.md` + metrics in `.codex/sdd/runs/<change_id>/`
6. Compare variants:
   - `codex-sdd select`
   - Output: `80_selection.md`
7. Finalize:
   - `codex-sdd finalize --agent agent1 [--strategy merge|cherry-pick]`
   - Requires `docs/sdd/specs/<spec>.md` update when code changed.
   - Output: change archived to `docs/sdd/archive/<date>-<change_dir>`

### CI check rules
- `codex-sdd check` passes if only `docs/**` changed.
- For code changes, it requires:
  - `docs/sdd/specs/*.md` updated
  - `90_decision.md`, `40_tasks.md`, `50_test_plan.md` present under a change directory.

### Generated paths
- `docs/sdd/specs/` current specs
- `docs/sdd/changes/` active sessions
- `docs/sdd/archive/` completed changes
- `.codex/sdd/` runtime state (state.json, runs, worktrees, schemas)

### Environment variables
- `CODEX_HOME`: Base directory for Codex assets (default: `~/.codex`).
- `CODEX_SDD_PROMPT_FLAG`: Override the prompt flag (default: `--prompt-file`).
- `CODEX_SDD_EXEC_ARGS`: Extra args passed to `codex exec`.
"#;

/// The installed prompt that drives the plans step.
pub const PROMPT_PLANS: &'static str = r#"---
name: plans
argument-hint: change-id
---

# Codex SDD Plans

以下の手順でリポジトリの概要を把握し、`docs/sdd/changes/<change_id>_.../10_repo_digest.md` を更新してください。

1. `docs/sdd/changes/<change_id>_.../context/file_index.json` を参照して対象ファイルを把握する
2. `docs/sdd/changes/<change_id>_.../context/repo_tree.txt` を読み、ディレクトリ構造を理解する
3. 重要な領域・公開API・リスク・テスト観点を整理する

出力は日本語で簡潔にまとめてください。
"#;

/// The README of the documentation root.
pub const DOCS_README: &'static str = r#"# Spec-Driven Development (SDD)

このフォルダは `codex-sdd` の成果物を保持します。
- `specs/`: 現行仕様
- `changes/`: 変更提案と作業セッション
"#;

pub fn render_agents_md() -> (r: String)
    ensures
        r@ == AGENTS_MD@,
{
    copy_text(AGENTS_MD)
}

pub fn render_prompt_plans() -> (r: String)
    ensures
        r@ == PROMPT_PLANS@,
{
    copy_text(PROMPT_PLANS)
}

pub fn render_docs_readme() -> (r: String)
    ensures
        r@ == DOCS_README@,
{
    copy_text(DOCS_README)
}

/// A (file name, contents) pair.
pub open spec fn named(v: (String, String), name: &str, contents: &str) -> bool {
    v.0@ == name@ && v.1@ == contents@
}

fn pair(name: &str, contents: &str) -> (r: (String, String))
    ensures
        named(r, name, contents),
{
    (copy_text(name), copy_text(contents))
}

/// The files that a new change directory starts with, and their placeholder contents.
pub fn render_change_placeholders() -> (r: Vec<(String, String)>)
    ensures
        r@.len() == 5,
        named(r@[0], "10_repo_digest.md", "# Repo Digest\n\n(自動生成)\n"),
        named(r@[1], "20_review.md", "# Review\n\n(自動生成)\n"),
        named(r@[2], "40_tasks.md", "# Tasks\n\n(自動生成)\n"),
        named(r@[3], "50_test_plan.md", "# Test Plan\n\n(自動生成)\n"),
        named(r@[4], "90_decision.md", "# Decision\n\n(承認後に作成)\n"),
{
    let mut r: Vec<(String, String)> = Vec::new();
    r.push(pair("10_repo_digest.md", "# Repo Digest\n\n(自動生成)\n"));
    r.push(pair("20_review.md", "# Review\n\n(自動生成)\n"));
    r.push(pair("40_tasks.md", "# Tasks\n\n(自動生成)\n"));
    r.push(pair("50_test_plan.md", "# Test Plan\n\n(自動生成)\n"));
    r.push(pair("90_decision.md", "# Decision\n\n(承認後に作成)\n"));
    r
}

/// The files that a change's context directory starts with, and their contents.
pub fn render_context_placeholders() -> (r: Vec<(String, String)>)
    ensures
        r@.len() == 3,
        named(r@[0], "README.md", "# Context\n\nこのフォルダにはインデックスや補助資料を置きます。\n"),
        named(r@[1], "repo_tree.txt", "(自動生成)\n"),
        named(r@[2], "file_index.json", "{}\n"),
{
    let mut r: Vec<(String, String)> = Vec::new();
    r.push(pair("README.md", "# Context\n\nこのフォルダにはインデックスや補助資料を置きます。\n"));
    r.push(pair("repo_tree.txt", "(自動生成)\n"));
    r.push(pair("file_index.json", "{}\n"));
    r
}

} // verus!
