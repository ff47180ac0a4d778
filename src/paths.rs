//! The locations that the workflow reads and writes, as path strings.
use vstd::prelude::*;

use crate::text::{copy_text, push_text};

verus! {

/// `b` appended to `a` as a path: `b` itself where `a` is empty or `b` is absolute, and
/// with one separator between them otherwise.
pub open spec fn join_path(a: Seq<char>, b: Seq<char>) -> Seq<char> {
    if a.len() == 0 || (b.len() > 0 && b[0] == '/') {
        b
    } else if a.last() == '/' {
        a + b
    } else {
        a.push('/') + b
    }
}

/// Appends `b` to `a` as a path.
pub fn join(a: &str, b: &str) -> (r: String)
    ensures
        r@ == join_path(a@, b@),
{
    let ac = crate::text::chars_of(a);
    let bc = crate::text::chars_of(b);
    if ac.len() == 0 || (bc.len() > 0 && bc[0] == '/') {
        return copy_text(b);
    }
    let mut r = copy_text(a);
    if ac[ac.len() - 1] != '/' {
        r.push('/');
    }
    push_text(&mut r, b);
    r
}

/// Where the tool's own prompts live.
pub struct GlobalPaths {
    pub codex_home: String,
}

impl GlobalPaths {
    /// The paths under the given home of the agent runner's assets.
    pub fn load(codex_home: &str) -> (r: Self)
        ensures
            r.codex_home@ == codex_home@,
    {
        GlobalPaths { codex_home: copy_text(codex_home) }
    }
}

/// Where a repository keeps its specs, changes and the tool's state.
pub struct RepoPaths {
    pub repo_root: String,
    pub docs_sdd: String,
    pub docs_changes: String,
    pub state_path: String,
    pub runs_dir: String,
    pub worktrees_dir: String,
    pub schemas_dir: String,
}

impl RepoPaths {
    /// The paths of a repository rooted at `repo_root`.
    pub fn load(repo_root: &str) -> (r: Self)
        ensures
            r.repo_root@ == repo_root@,
            r.docs_sdd@ == join_path(repo_root@, "docs/sdd"@),
            r.docs_changes@ == join_path(join_path(repo_root@, "docs/sdd"@), "changes"@),
            r.state_path@ == join_path(join_path(repo_root@, ".codex/sdd"@), "state.json"@),
            r.runs_dir@ == join_path(join_path(repo_root@, ".codex/sdd"@), "runs"@),
            r.worktrees_dir@ == join_path(join_path(repo_root@, ".codex/sdd"@), "worktrees"@),
            r.schemas_dir@ == join_path(join_path(repo_root@, ".codex/sdd"@), "schemas"@),
    {
        let docs_sdd = join(repo_root, "docs/sdd");
        let docs_changes = join(docs_sdd.as_str(), "changes");
        let tool_dir = join(repo_root, ".codex/sdd");
        let state_path = join(tool_dir.as_str(), "state.json");
        let runs_dir = join(tool_dir.as_str(), "runs");
        let worktrees_dir = join(tool_dir.as_str(), "worktrees");
        let schemas_dir = join(tool_dir.as_str(), "schemas");
        RepoPaths {
            repo_root: copy_text(repo_root),
            docs_sdd,
            docs_changes,
            state_path,
            runs_dir,
            worktrees_dir,
            schemas_dir,
        }
    }

    /// The directory of a change: `<id>_<name>` under the changes directory.
    pub fn change_dir(&self, change_id: &str, name: &str) -> (r: String)
        ensures
            r@ == join_path(self.docs_changes@, change_id@ + seq!['_'] + name@),
    {
        let mut dir_name = copy_text(change_id);
        dir_name.push('_');
        push_text(&mut dir_name, name);
        join(self.docs_changes.as_str(), dir_name.as_str())
    }

    /// The context directory inside a change directory.
    pub fn change_context_dir(&self, change_dir: &str) -> (r: String)
        ensures
            r@ == join_path(change_dir@, "context"@),
    {
        join(change_dir, "context")
    }
}

/// Where the agent runner writes its last message and its event stream for one run:
/// `<runs_dir>/<change_id>/<name>.md` and `.../<name>.jsonl`.
pub fn output_paths(runs_dir: &str, change_id: &str, name: &str) -> (r: (String, String))
    ensures
        r.0@ == join_path(join_path(runs_dir@, change_id@), name@ + ".md"@),
        r.1@ == join_path(join_path(runs_dir@, change_id@), name@ + ".jsonl"@),
{
    let change_dir = join(runs_dir, change_id);
    let mut md = copy_text(name);
    push_text(&mut md, ".md");
    let mut jsonl = copy_text(name);
    push_text(&mut jsonl, ".jsonl");
    (join(change_dir.as_str(), md.as_str()), join(change_dir.as_str(), jsonl.as_str()))
}

/// The home of the agent runner's assets: the value of its environment variable where set,
/// else `.codex` under the user's home directory; none where neither is known.
pub fn codex_home_from(env_value: Option<&str>, home: Option<&str>) -> (r: Option<String>)
    ensures
        env_value matches Some(v) ==> r matches Some(s) && s@ == v@,
        env_value is None ==> (r is Some <==> home is Some),
        env_value is None ==> (home matches Some(h) ==> r matches Some(s) && s@ == join_path(h@, ".codex"@)),
{
    match env_value {
        Some(v) => Some(copy_text(v)),
        None => match home {
            Some(h) => Some(join(h, ".codex")),
            None => None,
        },
    }
}

/// Whether a directory name is that of the change `change_id`: it starts with `<id>_`.
pub fn is_change_dir_of(dir_name: &str, change_id: &str) -> (r: bool)
    ensures
        r == crate::text::has_prefix(dir_name@, change_id@.push('_')),
{
    let mut prefix = copy_text(change_id);
    prefix.push('_');
    crate::text::starts_with(dir_name, prefix.as_str())
}

} // verus!
