//! The decisions and texts of the workflow's commands, apart from their input and output.
use vstd::prelude::*;

use crate::index::{entries_view, EntryView, FileEntry};
use crate::state::State;
use crate::text::{chars_of, copy_text, decimal, push_decimal, push_text};

verus! {

/// Why a workflow step could not go on.
pub enum WorkflowError {
    /// No change was named and none is active.
    NoChangeSelected,
}

impl WorkflowError {
    pub fn message(&self) -> (r: String)
        ensures
            r@ == "no change selected: pass --id or start one with plans"@,
    {
        match self {
            WorkflowError::NoChangeSelected => copy_text("no change selected: pass --id or start one with plans"),
        }
    }
}

/// The change a command works on: the one named, else the active one.
pub fn resolve_change_id(state: &State, requested: Option<&str>) -> (r: Result<String, WorkflowError>)
    ensures
        requested matches Some(id) ==> r matches Ok(s) && s@ == id@,
        requested is None ==> (r is Ok <==> state@.active_change_id is Some),
        requested is None ==> (r matches Ok(s) ==> state@.active_change_id == Some(s@)),
{
    match requested {
        Some(id) => Ok(copy_text(id)),
        None => match &state.active_change_id {
            Some(id) => Ok(copy_text(id.as_str())),
            None => Err(WorkflowError::NoChangeSelected),
        },
    }
}

/// The change id tried after `base` is taken: `<base>-<counter>`, counting from 2.
pub fn numbered_change_id(base: &str, counter: usize) -> (r: String)
    ensures
        r@ == base@ + seq!['-'] + decimal(counter as nat),
{
    let mut r = copy_text(base);
    r.push('-');
    push_decimal(&mut r, counter);
    r
}

/// The base reference of a diff: the one named, else `origin/main` where it exists, else
/// the previous commit.
pub fn resolve_base_ref(requested: Option<&str>, origin_main_exists: bool) -> (r: String)
    ensures
        requested matches Some(b) ==> r@ == b@,
        requested is None && origin_main_exists ==> r@ == "origin/main"@,
        requested is None && !origin_main_exists ==> r@ == "HEAD~1"@,
{
    match requested {
        Some(b) => copy_text(b),
        None => if origin_main_exists {
            copy_text("origin/main")
        } else {
            copy_text("HEAD~1")
        },
    }
}

/// The digest text: a title, then for each shard whose output exists a section with it.
pub open spec fn digest_text(sections: Seq<Option<String>>) -> Seq<char>
    decreases sections.len(),
{
    if sections.len() == 0 {
        "# Repo Digest\n\n"@
    } else {
        let i = sections.len() - 1;
        match sections.last() {
            Some(c) => digest_text(sections.drop_last()) + "## Shard "@ + decimal(i as nat) + "\n\n"@ + c@
                + "\n"@,
            None => digest_text(sections.drop_last()),
        }
    }
}

/// Puts the readers' outputs together, in shard order; `sections[i]` is the output of
/// shard `i` where it exists.
pub fn compose_repo_digest(sections: &Vec<Option<String>>) -> (r: String)
    ensures
        r@ == digest_text(sections@),
{
    let mut out = copy_text("# Repo Digest\n\n");
    let mut i: usize = 0;
    while i < sections.len()
        invariant
            i <= sections@.len(),
            out@ == digest_text(sections@.subrange(0, i as int)),
        decreases sections.len() - i,
    {
        let ghost pre = sections@.subrange(0, i as int);
        let ghost cur = sections@.subrange(0, i + 1);
        assert(cur.drop_last() =~= pre);
        match &sections[i] {
            Some(c) => {
                push_text(&mut out, "## Shard ");
                push_decimal(&mut out, i);
                push_text(&mut out, "\n\n");
                push_text(&mut out, c.as_str());
                push_text(&mut out, "\n");
            },
            None => {},
        }
        i += 1;
    }
    assert(sections@.subrange(0, i as int) =~= sections@);
    out
}

/// The list of a shard's paths, one `- <path>` line each.
pub open spec fn path_lines(s: Seq<EntryView>) -> Seq<char>
    decreases s.len(),
{
    if s.len() == 0 {
        Seq::empty()
    } else {
        path_lines(s.drop_last()) + "- "@ + s.last().path + "\n"@
    }
}

/// The prompt of the reader for shard `idx` of `total`.
pub open spec fn reader_prompt(change_id: Seq<char>, idx: nat, total: nat, shard: Seq<EntryView>) -> Seq<char> {
    "# Reader\n\nchange_id: "@ + change_id + "\nshard: "@ + decimal(idx + 1) + "/"@ + decimal(total)
        + "\n\n対象ファイル:\n"@ + path_lines(shard)
        + "\n以下を日本語で簡潔にまとめてください:\n- 役割\n- 公開API\n- リスク\n- テスト観点\n"@
}

pub fn render_reader_prompt(change_id: &str, idx: usize, total: usize, shard: &[FileEntry]) -> (r: String)
    requires
        idx < usize::MAX,
    ensures
        r@ == reader_prompt(change_id@, idx as nat, total as nat, entries_view(shard@)),
{
    let mut out = copy_text("# Reader\n\nchange_id: ");
    push_text(&mut out, change_id);
    push_text(&mut out, "\nshard: ");
    push_decimal(&mut out, idx + 1);
    push_text(&mut out, "/");
    push_decimal(&mut out, total);
    push_text(&mut out, "\n\n対象ファイル:\n");
    let ghost head = out@;
    let mut i: usize = 0;
    while i < shard.len()
        invariant
            i <= shard@.len(),
            out@ == head + path_lines(entries_view(shard@.subrange(0, i as int))),
        decreases shard.len() - i,
    {
        let ghost pre = entries_view(shard@.subrange(0, i as int));
        let ghost cur = entries_view(shard@.subrange(0, i + 1));
        assert(cur.drop_last() =~= pre);
        assert(cur.last() == shard@[i as int]@);
        push_text(&mut out, "- ");
        push_text(&mut out, shard[i].path.as_str());
        push_text(&mut out, "\n");
        i += 1;
        assert(out@ =~= head + path_lines(cur));
    }
    assert(shard@.subrange(0, i as int) =~= shard@);
    push_text(&mut out, "\n以下を日本語で簡潔にまとめてください:\n- 役割\n- 公開API\n- リスク\n- テスト観点\n");
    assert(out@ =~= reader_prompt(change_id@, idx as nat, total as nat, entries_view(shard@)));
    out
}

pub fn render_review_prompt(change_dir: &str, change_id: &str) -> (r: String)
    ensures
        r@ == "# Review\n\nchange_id: "@ + change_id@
            + "\n\n次のドキュメントを読み、レビュー観点を整理してください:\n- "@ + change_dir@
            + "/10_repo_digest.md\n\n出力は JSON スキーマに沿って作成してください。\n"@,
{
    let mut out = copy_text("# Review\n\nchange_id: ");
    push_text(&mut out, change_id);
    push_text(&mut out, "\n\n次のドキュメントを読み、レビュー観点を整理してください:\n- ");
    push_text(&mut out, change_dir);
    push_text(&mut out, "/10_repo_digest.md\n\n出力は JSON スキーマに沿って作成してください。\n");
    out
}

pub fn render_tasks_prompt(change_dir: &str, change_id: &str) -> (r: String)
    ensures
        r@ == "# Tasks\n\nchange_id: "@ + change_id@
            + "\n\n次のドキュメントを読み、実装タスクを整理してください:\n- "@ + change_dir@
            + "/10_repo_digest.md\n- "@ + change_dir@
            + "/20_review.md\n\n出力は JSON スキーマに沿って作成してください。\n"@,
{
    let mut out = copy_text("# Tasks\n\nchange_id: ");
    push_text(&mut out, change_id);
    push_text(&mut out, "\n\n次のドキュメントを読み、実装タスクを整理してください:\n- ");
    push_text(&mut out, change_dir);
    push_text(&mut out, "/10_repo_digest.md\n- ");
    push_text(&mut out, change_dir);
    push_text(&mut out, "/20_review.md\n\n出力は JSON スキーマに沿って作成してください。\n");
    out
}

pub fn render_test_plan_prompt(change_id: &str, agent: &str) -> (r: String)
    ensures
        r@ == "# Test Plan\n\nchange_id: "@ + change_id@ + "\nagent: "@ + agent@
            + "\n\n対象ブランチのテスト計画を日本語で整理してください。\n"@,
{
    let mut out = copy_text("# Test Plan\n\nchange_id: ");
    push_text(&mut out, change_id);
    push_text(&mut out, "\nagent: ");
    push_text(&mut out, agent);
    push_text(&mut out, "\n\n対象ブランチのテスト計画を日本語で整理してください。\n");
    out
}

/// ASCII letters in lower case; every other character as it is.
pub open spec fn ascii_lower(c: char) -> char {
    if 'A' <= c <= 'Z' {
        ((c as u32) + 32) as char
    } else {
        c
    }
}

pub open spec fn ascii_alnum(c: char) -> bool {
    ('0' <= c <= '9') || ('a' <= c <= 'z') || ('A' <= c <= 'Z')
}

/// The slug before trimming: lowercased ASCII letters and digits kept, every run of other
/// characters turned into one `-`.
pub open spec fn slug_raw(s: Seq<char>) -> Seq<char>
    decreases s.len(),
{
    if s.len() == 0 {
        Seq::empty()
    } else {
        let acc = slug_raw(s.drop_last());
        let c = ascii_lower(s.last());
        if ascii_alnum(c) {
            acc.push(c)
        } else if acc.len() > 0 && acc.last() == '-' {
            acc
        } else {
            acc.push('-')
        }
    }
}

pub open spec fn trim_dash_start(t: Seq<char>) -> Seq<char>
    decreases t.len(),
{
    if t.len() > 0 && t[0] == '-' {
        trim_dash_start(t.drop_first())
    } else {
        t
    }
}

pub open spec fn trim_dash_end(t: Seq<char>) -> Seq<char>
    decreases t.len(),
{
    if t.len() > 0 && t.last() == '-' {
        trim_dash_end(t.drop_last())
    } else {
        t
    }
}

/// The slug of a change name, `change` where nothing is left of it.
pub open spec fn slug(s: Seq<char>) -> Seq<char> {
    let t = trim_dash_end(trim_dash_start(slug_raw(s)));
    if t.len() == 0 {
        "change"@
    } else {
        t
    }
}

fn lower_ascii(c: char) -> (r: char)
    ensures
        r == ascii_lower(c),
{
    if 'A' <= c && c <= 'Z' {
        (((c as u8) + 32) as char)
    } else {
        c
    }
}

/// The slug of a change name: lowercase ASCII letters and digits, other runs as one `-`,
/// no `-` at either end, and `change` where nothing is left.
pub fn slugify(name: &str) -> (r: String)
    ensures
        r@ == slug(name@),
{
    let nc = chars_of(name);
    let mut raw: Vec<char> = Vec::new();
    let mut i: usize = 0;
    while i < nc.len()
        invariant
            nc@ == name@,
            i <= nc@.len(),
            raw@ == slug_raw(name@.take(i as int)),
        decreases nc.len() - i,
    {
        let c = lower_ascii(nc[i]);
        assert(name@.take(i + 1).drop_last() =~= name@.take(i as int));
        let is_alnum = ('0' <= c && c <= '9') || ('a' <= c && c <= 'z') || ('A' <= c && c <= 'Z');
        if is_alnum {
            raw.push(c);
        } else if !(raw.len() > 0 && raw[raw.len() - 1] == '-') {
            raw.push('-');
        }
        i += 1;
    }
    assert(name@.take(i as int) =~= name@);
    let mut a: usize = 0;
    assert(raw@.skip(0) =~= raw@);
    while a < raw.len() && raw[a] == '-'
        invariant
            a <= raw@.len(),
            trim_dash_start(raw@) == trim_dash_start(raw@.skip(a as int)),
        decreases raw.len() - a,
    {
        assert(raw@.skip(a as int).drop_first() =~= raw@.skip(a + 1));
        a += 1;
    }
    assert(trim_dash_start(raw@) == raw@.skip(a as int));
    let ghost u = raw@.skip(a as int);
    let mut b: usize = raw.len();
    assert(u.take((b - a) as int) =~= u);
    while b > a && raw[b - 1] == '-'
        invariant
            a <= b <= raw@.len(),
            u == raw@.skip(a as int),
            trim_dash_end(u) == trim_dash_end(u.take((b - a) as int)),
        decreases b,
    {
        assert(u.take((b - a) as int).drop_last() =~= u.take((b - 1 - a) as int));
        b -= 1;
    }
    let ghost t = u.take((b - a) as int);
    assert(trim_dash_end(t) == t);
    let mut out = String::new();
    let mut k: usize = a;
    while k < b
        invariant
            a <= k <= b,
            b <= raw@.len(),
            out@ == raw@.subrange(a as int, k as int),
        decreases b - k,
    {
        out.push(raw[k]);
        k += 1;
        assert(out@ =~= raw@.subrange(a as int, k as int));
    }
    assert(out@ =~= t);
    if b == a {
        copy_text("change")
    } else {
        out
    }
}

/// `p` occurs in `s` at position `i`.
pub open spec fn occurs_at(s: Seq<char>, p: Seq<char>, i: int) -> bool {
    0 <= i && i + p.len() <= s.len() && s.subrange(i, i + p.len()) == p
}

/// The number of occurrences of `p` in `s` from `i` on, taken left to right without
/// overlapping.
pub open spec fn count_from(s: Seq<char>, p: Seq<char>, i: int) -> nat
    decreases s.len() - i,
{
    if p.len() == 0 || i < 0 || i + p.len() > s.len() {
        0
    } else if occurs_at(s, p, i) {
        1 + count_from(s, p, i + p.len())
    } else {
        count_from(s, p, i + 1)
    }
}

/// Whether `p` occurs in `s` at position `i`.
fn matches_at(sc: &Vec<char>, pc: &Vec<char>, i: usize) -> (r: bool)
    requires
        i + pc@.len() <= sc@.len(),
    ensures
        r == occurs_at(sc@, pc@, i as int),
{
    let sl = sc.len();
    let mut k: usize = 0;
    while k < pc.len()
        invariant
            sl == sc@.len(),
            i + pc@.len() <= sc@.len(),
            sc@.len() <= usize::MAX,
            k <= pc@.len(),
            forall|m: int| 0 <= m < k ==> sc@[i + m] == pc@[m],
        decreases pc.len() - k,
    {
        if sc[i + k] != pc[k] {
            assert(sc@.subrange(i as int, i + pc@.len())[k as int] != pc@[k as int]);
            return false;
        }
        k += 1;
    }
    assert(sc@.subrange(i as int, i + pc@.len()) =~= pc@);
    true
}

/// The number of non-overlapping occurrences of `p` in `s`.
pub fn count_matches(s: &str, p: &str) -> (r: usize)
    ensures
        r == count_from(s@, p@, 0),
{
    let sc = chars_of(s);
    let pc = chars_of(p);
    if pc.len() == 0 {
        return 0;
    }
    if pc.len() > sc.len() {
        return 0;
    }
    let last = sc.len() - pc.len();
    let mut n: usize = 0;
    let mut i: usize = 0;
    while i <= last
        invariant
            last == sc@.len() - pc@.len(),
            sc@.len() <= usize::MAX,
            sc@ == s@,
            pc@ == p@,
            pc@.len() > 0,
            i <= sc@.len(),
            n + count_from(s@, p@, i as int) == count_from(s@, p@, 0),
            n <= i,
        decreases sc.len() - i,
    {
        if matches_at(&sc, &pc, i) {
            n += 1;
            i += pc.len();
        } else {
            i += 1;
        }
    }
    n
}

/// How many tasks a task list has, and how many of them are done: the items `- [` and the
/// items `- [x]`.
pub fn task_counts(contents: &str) -> (r: (usize, usize))
    ensures
        r.0 == count_from(contents@, "- [x]"@, 0),
        r.1 == count_from(contents@, "- ["@, 0),
{
    (count_matches(contents, "- [x]"), count_matches(contents, "- ["))
}

/// The lowercase form of a string, as Unicode defines it.
pub uninterp spec fn lower_of(s: Seq<char>) -> Seq<char>;

/// Relies on `str::to_lowercase`: the result depends on the characters alone.
#[verifier::external_body]
fn lowercase(s: &str) -> (r: String)
    ensures
        r@ == lower_of(s@),
{
    s.to_lowercase()
}

/// Whether a lowercased review names a risk: `high`, `重大` or `critical`.
pub open spec fn names_risk(lower: Seq<char>) -> bool {
    count_from(lower, "high"@, 0) > 0 || count_from(lower, "重大"@, 0) > 0 || count_from(
        lower,
        "critical"@,
        0,
    ) > 0
}

/// Whether an already lowercased review names a risk.
pub fn mentions_risk(lower: &str) -> (r: bool)
    ensures
        r == names_risk(lower@),
{
    count_matches(lower, "high") > 0 || count_matches(lower, "重大") > 0 || count_matches(
        lower,
        "critical",
    ) > 0
}

/// Whether a review names a risk, in any letter case.
pub fn detect_risk(contents: &str) -> (r: bool)
    ensures
        r == names_risk(lower_of(contents@)),
{
    let lower = lowercase(contents);
    mentions_risk(lower.as_str())
}

/// The decision record written when a change is approved.
pub fn render_decision(approved_at: &str, approved_by: &str) -> (r: String)
    ensures
        r@ == "# Decision\n\n- approved: true\n- approved_at: "@ + approved_at@ + "\n- approved_by: "@
            + approved_by@ + "\n"@,
{
    let mut out = copy_text("# Decision\n\n- approved: true\n- approved_at: ");
    push_text(&mut out, approved_at);
    push_text(&mut out, "\n- approved_by: ");
    push_text(&mut out, approved_by);
    push_text(&mut out, "\n");
    out
}

/// The name a finalized change directory is archived under: `<date>-<directory name>`.
pub fn archive_name(date: &str, dir_name: &str) -> (r: String)
    ensures
        r@ == date@ + seq!['-'] + dir_name@,
{
    let mut out = copy_text(date);
    out.push('-');
    push_text(&mut out, dir_name);
    out
}

/// The name of the `idx`-th agent worktree: `agent<idx>`.
pub fn agent_name(idx: usize) -> (r: String)
    ensures
        r@ == "agent"@ + decimal(idx as nat),
{
    let mut out = copy_text("agent");
    push_decimal(&mut out, idx);
    out
}

/// The branch of an agent's worktree: `sdd/<change id>/<agent>`.
pub fn worktree_branch(change_id: &str, agent: &str) -> (r: String)
    ensures
        r@ == "sdd/"@ + change_id@ + "/"@ + agent@,
{
    let mut out = copy_text("sdd/");
    push_text(&mut out, change_id);
    push_text(&mut out, "/");
    push_text(&mut out, agent);
    out
}

/// One agent's section of the test plan.
pub fn test_plan_section(agent: &str, contents: &str) -> (r: String)
    ensures
        r@ == "## "@ + agent@ + "\n\n"@ + contents@ + "\n"@,
{
    let mut out = copy_text("## ");
    push_text(&mut out, agent);
    push_text(&mut out, "\n\n");
    push_text(&mut out, contents);
    push_text(&mut out, "\n");
    out
}

/// The sections joined by newlines.
pub open spec fn joined_sections(sections: Seq<Seq<char>>) -> Seq<char>
    decreases sections.len(),
{
    if sections.len() == 0 {
        Seq::empty()
    } else if sections.len() == 1 {
        sections[0]
    } else {
        joined_sections(sections.drop_last()) + "\n"@ + sections.last()
    }
}

/// The test plan: a title, then the agents' sections separated by newlines.
pub fn test_plan_summary(sections: &Vec<String>) -> (r: String)
    ensures
        r@ == "# Test Plan\n\n"@ + joined_sections(sections@.map_values(|s: String| s@)),
{
    let ghost sv = sections@.map_values(|s: String| s@);
    let mut out = copy_text("# Test Plan\n\n");
    let mut i: usize = 0;
    while i < sections.len()
        invariant
            sv == sections@.map_values(|s: String| s@),
            i <= sections@.len(),
            out@ == "# Test Plan\n\n"@ + joined_sections(sv.take(i as int)),
        decreases sections.len() - i,
    {
        assert(sv.take(i + 1).drop_last() =~= sv.take(i as int));
        assert(sv.take(i + 1).last() == sections@[i as int]@);
        if i > 0 {
            push_text(&mut out, "\n");
        } else {
            assert(sv.take(1)[0] == sections@[0]@);
        }
        push_text(&mut out, sections[i].as_str());
        i += 1;
        assert(out@ =~= "# Test Plan\n\n"@ + joined_sections(sv.take(i as int)));
    }
    assert(sv.take(i as int) =~= sv);
    out
}

} // verus!
