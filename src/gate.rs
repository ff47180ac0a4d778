//! The workflow gate: which sets of changed paths a check accepts.
use vstd::prelude::*;

use crate::text::{chars_of, copy_text, ends_with, has_prefix, has_suffix, same_text, starts_with};

verus! {

/// Where change directories live.
pub const CHANGES_PREFIX: &'static str = "docs/sdd/changes/";

/// The three artifacts that a change directory must have touched.
pub const DECISION_SUFFIX: &'static str = "/90_decision.md";
pub const TASKS_SUFFIX: &'static str = "/40_tasks.md";
pub const TEST_PLAN_SUFFIX: &'static str = "/50_test_plan.md";

/// What a passing check found.
#[derive(PartialEq, Eq, Structural)]
pub enum CheckOutcome {
    /// Nothing changed.
    NoChanges,
    /// Only documentation changed.
    DocsOnly,
    /// Every requirement was met.
    Passed,
}

/// Which requirement a failing check found unmet.
#[derive(PartialEq, Eq, Structural)]
pub enum GateError {
    /// Code changed without a spec file under `docs/sdd/specs/` being updated.
    SpecUpdateRequired,
    /// Code changed without one change directory holding all three artifacts.
    ArtifactsRequired,
}

impl GateError {
    /// A message that names the unmet requirement.
    pub fn message(&self) -> (r: String)
        ensures
            *self == GateError::SpecUpdateRequired ==> r@
                == "spec update required: code changes need docs/sdd/specs/<spec>.md updated"@,
            *self == GateError::ArtifactsRequired ==> r@
                == "artifacts required: code changes need 90_decision.md, 40_tasks.md and 50_test_plan.md in one docs/sdd/changes/<id>_<name>/ directory"@,
    {
        match self {
            GateError::SpecUpdateRequired => copy_text(
                "spec update required: code changes need docs/sdd/specs/<spec>.md updated",
            ),
            GateError::ArtifactsRequired => copy_text(
                "artifacts required: code changes need 90_decision.md, 40_tasks.md and 50_test_plan.md in one docs/sdd/changes/<id>_<name>/ directory",
            ),
        }
    }
}

pub open spec fn paths_view(v: Seq<String>) -> Seq<Seq<char>> {
    v.map_values(|s: String| s@)
}

/// The path lies under the documentation root.
pub open spec fn under_docs(p: Seq<char>) -> bool {
    has_prefix(p, "docs/"@)
}

/// The path is source, tests, `Cargo.toml` or `Cargo.lock`.
pub open spec fn is_code_path(p: Seq<char>) -> bool {
    has_prefix(p, "src/"@) || has_prefix(p, "tests/"@) || p == "Cargo.toml"@ || p == "Cargo.lock"@
}

/// The path is a Markdown spec file under `docs/sdd/specs/`.
pub open spec fn is_spec_doc(p: Seq<char>) -> bool {
    has_prefix(p, "docs/sdd/specs/"@) && has_suffix(p, ".md"@)
}

/// The characters before the first `/`.
pub open spec fn first_segment(r: Seq<char>) -> Seq<char>
    decreases r.len(),
{
    if r.len() == 0 || r[0] == '/' {
        Seq::empty()
    } else {
        seq![r[0]] + first_segment(r.drop_first())
    }
}

/// The change directory that a path lies in: the segment after the changes prefix.
pub open spec fn change_group(p: Seq<char>) -> Option<Seq<char>> {
    if has_prefix(p, CHANGES_PREFIX@) {
        Some(first_segment(p.skip(CHANGES_PREFIX@.len() as int)))
    } else {
        None
    }
}

/// Some changed path in group `g` ends with `suffix`.
pub open spec fn group_has(changed: Seq<Seq<char>>, g: Seq<char>, suffix: Seq<char>) -> bool {
    exists|i: int|
        0 <= i < changed.len() && change_group(#[trigger] changed[i]) == Some(g) && has_suffix(
            changed[i],
            suffix,
        )
}

/// One change directory has all three artifacts among the changed paths.
pub open spec fn complete_group_exists(changed: Seq<Seq<char>>) -> bool {
    exists|g: Seq<char>|
        #![trigger group_has(changed, g, DECISION_SUFFIX@)]
        group_has(changed, g, DECISION_SUFFIX@) && group_has(changed, g, TASKS_SUFFIX@) && group_has(
            changed,
            g,
            TEST_PLAN_SUFFIX@,
        )
}

/// What the check decides for a set of changed paths.
pub open spec fn check_result(changed: Seq<Seq<char>>) -> Result<CheckOutcome, GateError> {
    if changed.len() == 0 {
        Ok(CheckOutcome::NoChanges)
    } else if forall|i: int| 0 <= i < changed.len() ==> under_docs(#[trigger] changed[i]) {
        Ok(CheckOutcome::DocsOnly)
    } else if !exists|i: int| 0 <= i < changed.len() && is_code_path(#[trigger] changed[i]) {
        Ok(CheckOutcome::Passed)
    } else if !exists|i: int| 0 <= i < changed.len() && is_spec_doc(#[trigger] changed[i]) {
        Err(GateError::SpecUpdateRequired)
    } else if !complete_group_exists(changed) {
        Err(GateError::ArtifactsRequired)
    } else {
        Ok(CheckOutcome::Passed)
    }
}

/// Whether the path is a Markdown spec file under `docs/sdd/specs/`.
pub fn is_spec_document(p: &str) -> (r: bool)
    ensures
        r == is_spec_doc(p@),
{
    starts_with(p, "docs/sdd/specs/") && ends_with(p, ".md")
}

/// Whether the path is source, tests, `Cargo.toml` or `Cargo.lock`.
pub fn is_code_change(p: &str) -> (r: bool)
    ensures
        r == is_code_path(p@),
{
    starts_with(p, "src/") || starts_with(p, "tests/") || same_text(p, "Cargo.toml") || same_text(
        p,
        "Cargo.lock",
    )
}

/// The change directory that a path lies in, if it lies under the changes prefix.
pub fn change_group_of(p: &str) -> (r: Option<String>)
    ensures
        r is Some <==> change_group(p@) is Some,
        r matches Some(g) ==> change_group(p@) == Some(g@),
{
    if !starts_with(p, CHANGES_PREFIX) {
        return None;
    }
    let pc = chars_of(p);
    let n = chars_of(CHANGES_PREFIX).len();
    let ghost pv = p@;
    let mut out = String::new();
    let mut i: usize = n;
    assert(out@ + first_segment(pv.skip(i as int)) =~= first_segment(pv.skip(n as int)));
    while i < pc.len()
        invariant
            pc@ == pv,
            pv == p@,
            n == CHANGES_PREFIX@.len(),
            has_prefix(pv, CHANGES_PREFIX@),
            n <= i <= pv.len(),
            out@ + first_segment(pv.skip(i as int)) == first_segment(pv.skip(n as int)),
        decreases pc.len() - i,
    {
        let c = pc[i];
        assert(pv.skip(i as int)[0] == c);
        if c == '/' {
            assert(first_segment(pv.skip(i as int)) =~= Seq::<char>::empty());
            assert(out@ =~= first_segment(pv.skip(n as int)));
            return Some(out);
        }
        assert(pv.skip(i as int).drop_first() =~= pv.skip(i + 1));
        assert(first_segment(pv.skip(i as int)) == seq![c] + first_segment(pv.skip(i + 1)));
        let ghost before = out@;
        out.push(c);
        assert(out@ + first_segment(pv.skip(i + 1)) =~= before + first_segment(pv.skip(i as int)));
        i += 1;
    }
    assert(pv.skip(i as int).len() == 0);
    assert(out@ =~= first_segment(pv.skip(n as int)));
    Some(out)
}

/// The artifacts that one change directory has among the changed paths so far.
struct GroupFlags {
    name: String,
    decision: bool,
    tasks: bool,
    test_plan: bool,
}

proof fn lemma_group_has_push(s: Seq<Seq<char>>, x: Seq<char>, g: Seq<char>, suffix: Seq<char>)
    ensures
        group_has(s.push(x), g, suffix) == (group_has(s, g, suffix) || (change_group(x) == Some(g)
            && has_suffix(x, suffix))),
{
    let t = s.push(x);
    if group_has(s, g, suffix) {
        let i = choose|i: int|
            0 <= i < s.len() && change_group(#[trigger] s[i]) == Some(g) && has_suffix(s[i], suffix);
        assert(t[i] == s[i]);
    }
    if change_group(x) == Some(g) && has_suffix(x, suffix) {
        assert(t[s.len() as int] == x);
    }
    if group_has(t, g, suffix) {
        let i = choose|i: int|
            0 <= i < t.len() && change_group(#[trigger] t[i]) == Some(g) && has_suffix(t[i], suffix);
        if i < s.len() {
            assert(t[i] == s[i]);
        }
    }
}

/// The position of the group named `g`, if any.
fn find_group(groups: &Vec<GroupFlags>, g: &str) -> (r: Option<usize>)
    ensures
        r matches Some(k) ==> k < groups@.len() && groups@[k as int].name@ == g@,
        r is None ==> forall|m: int| 0 <= m < groups@.len() ==> #[trigger] groups@[m].name@ != g@,
{
    let mut k: usize = 0;
    while k < groups.len()
        invariant
            k <= groups@.len(),
            forall|m: int| 0 <= m < k ==> #[trigger] groups@[m].name@ != g@,
        decreases groups.len() - k,
    {
        if same_text(groups[k].name.as_str(), g) {
            return Some(k);
        }
        k += 1;
    }
    None
}

/// The flags of every group record which artifacts its paths among the first `n` touch.
spec fn flags_match(groups: Seq<GroupFlags>, pv: Seq<Seq<char>>, n: int) -> bool {
    forall|k: int|
        0 <= k < groups.len() ==> {
            let gk = #[trigger] groups[k];
            &&& gk.decision == group_has(pv.take(n), gk.name@, DECISION_SUFFIX@)
            &&& gk.tasks == group_has(pv.take(n), gk.name@, TASKS_SUFFIX@)
            &&& gk.test_plan == group_has(pv.take(n), gk.name@, TEST_PLAN_SUFFIX@)
        }
}

/// Every group among the first `n` paths has flags.
spec fn groups_listed(groups: Seq<GroupFlags>, pv: Seq<Seq<char>>, n: int) -> bool {
    forall|j: int|
        0 <= j < n && #[trigger] change_group(pv[j]) is Some ==> exists|k: int|
            0 <= k < groups.len() && Some(groups[k].name@) == change_group(pv[j])
}

spec fn names_distinct(groups: Seq<GroupFlags>) -> bool {
    forall|a: int, b: int| 0 <= a < b < groups.len() ==> groups[a].name@ != groups[b].name@
}

/// Whether some single change directory has all three artifacts among the changed paths;
/// the answer is given once for each artifact.
pub fn required_artifacts(changed: &Vec<String>) -> (r: (bool, bool, bool))
    ensures
        r.0 == complete_group_exists(paths_view(changed@)),
        r.1 == r.0,
        r.2 == r.0,
{
    let ghost pv = paths_view(changed@);
    let mut groups: Vec<GroupFlags> = Vec::new();
    let mut i: usize = 0;
    while i < changed.len()
        invariant
            pv == paths_view(changed@),
            i <= changed@.len(),
            flags_match(groups@, pv, i as int),
            groups_listed(groups@, pv, i as int),
            names_distinct(groups@),
        decreases changed.len() - i,
    {
        let p = changed[i].as_str();
        let ghost x = pv[i as int];
        let ghost old_groups = groups@;
        assert(x == p@);
        assert(pv.take(i + 1) =~= pv.take(i as int).push(x));
        proof {
            assert forall|g: Seq<char>, suffix: Seq<char>| #[trigger] group_has(pv.take(i + 1), g, suffix)
                == (group_has(pv.take(i as int), g, suffix) || (change_group(x) == Some(g) && has_suffix(
                x,
                suffix,
            ))) by {
                lemma_group_has_push(pv.take(i as int), x, g, suffix);
            }
        }
        match change_group_of(p) {
            None => {
                proof {
                    assert(flags_match(groups@, pv, i + 1));
                }
            },
            Some(g) => {
                let k = match find_group(&groups, g.as_str()) {
                    Some(k) => k,
                    None => {
                        proof {
                            assert forall|suffix: Seq<char>| !group_has(pv.take(i as int), g@, suffix) by {
                                if group_has(pv.take(i as int), g@, suffix) {
                                    let j = choose|j: int|
                                        0 <= j < pv.take(i as int).len() && change_group(
                                            #[trigger] pv.take(i as int)[j],
                                        ) == Some(g@) && has_suffix(pv.take(i as int)[j], suffix);
                                    assert(pv.take(i as int)[j] == pv[j]);
                                    assert(change_group(pv[j]) is Some);
                                }
                            }
                        }
                        groups.push(
                            GroupFlags {
                                name: copy_text(g.as_str()),
                                decision: false,
                                tasks: false,
                                test_plan: false,
                            },
                        );
                        groups.len() - 1
                    },
                };
                let ghost mid = groups@;
                let cur = &groups[k];
                let flags = GroupFlags {
                    name: copy_text(g.as_str()),
                    decision: cur.decision || ends_with(p, DECISION_SUFFIX),
                    tasks: cur.tasks || ends_with(p, TASKS_SUFFIX),
                    test_plan: cur.test_plan || ends_with(p, TEST_PLAN_SUFFIX),
                };
                groups.set(k, flags);
                proof {
                    assert forall|m: int| 0 <= m < groups@.len() && m != k implies #[trigger] groups@[m].name@ != g@ by {
                        assert(groups@[m] == mid[m]);
                    }
                    assert(flags_match(groups@, pv, i + 1));
                    assert(names_distinct(groups@));
                    assert forall|j: int| 0 <= j < i + 1 && #[trigger] change_group(pv[j]) is Some implies exists|m: int|
                        0 <= m < groups@.len() && Some(groups@[m].name@) == change_group(pv[j]) by {
                        if j < i {
                            let m = choose|m: int|
                                0 <= m < old_groups.len() && Some(old_groups[m].name@) == change_group(pv[j]);
                            assert(groups@[m].name@ == old_groups[m].name@);
                        } else {
                            assert(groups@[k as int].name@ == g@);
                        }
                    }
                }
            },
        }
        i += 1;
    }
    assert(pv.take(i as int) =~= pv);
    let mut any = false;
    let mut k: usize = 0;
    while k < groups.len()
        invariant
            k <= groups@.len(),
            any == exists|m: int| 0 <= m < k && #[trigger] groups@[m].decision && groups@[m].tasks && groups@[m].test_plan,
        decreases groups.len() - k,
    {
        if groups[k].decision && groups[k].tasks && groups[k].test_plan {
            any = true;
        }
        k += 1;
    }
    proof {
        if any {
            let m = choose|m: int| 0 <= m < k && #[trigger] groups@[m].decision && groups@[m].tasks && groups@[m].test_plan;
            let g = groups@[m].name@;
            assert(group_has(pv, g, DECISION_SUFFIX@));
        }
        if complete_group_exists(pv) {
            let g = choose|g: Seq<char>|
                #![trigger group_has(pv, g, DECISION_SUFFIX@)]
                group_has(pv, g, DECISION_SUFFIX@) && group_has(pv, g, TASKS_SUFFIX@) && group_has(pv, g, TEST_PLAN_SUFFIX@);
            let j = choose|j: int| 0 <= j < pv.len() && change_group(#[trigger] pv[j]) == Some(g) && has_suffix(pv[j], DECISION_SUFFIX@);
            let m = choose|m: int| 0 <= m < groups@.len() && Some(groups@[m].name@) == change_group(pv[j]);
            assert(groups@[m].decision && groups@[m].tasks && groups@[m].test_plan);
        }
    }
    (any, any, any)
}

/// Whether every changed path lies under the documentation root.
fn all_under_docs(changed: &Vec<String>) -> (r: bool)
    ensures
        r == forall|i: int| 0 <= i < changed@.len() ==> under_docs(#[trigger] paths_view(changed@)[i]),
{
    let ghost pv = paths_view(changed@);
    let mut i: usize = 0;
    while i < changed.len()
        invariant
            pv == paths_view(changed@),
            i <= changed@.len(),
            forall|j: int| 0 <= j < i ==> under_docs(#[trigger] pv[j]),
        decreases changed.len() - i,
    {
        if !starts_with(changed[i].as_str(), "docs/") {
            assert(!under_docs(pv[i as int]));
            return false;
        }
        i += 1;
    }
    true
}

/// Whether some changed path is source, tests, `Cargo.toml` or `Cargo.lock`.
fn any_code_change(changed: &Vec<String>) -> (r: bool)
    ensures
        r == exists|i: int| 0 <= i < changed@.len() && is_code_path(#[trigger] paths_view(changed@)[i]),
{
    let ghost pv = paths_view(changed@);
    let mut i: usize = 0;
    while i < changed.len()
        invariant
            pv == paths_view(changed@),
            i <= changed@.len(),
            forall|j: int| 0 <= j < i ==> !is_code_path(#[trigger] pv[j]),
        decreases changed.len() - i,
    {
        if is_code_change(changed[i].as_str()) {
            assert(is_code_path(pv[i as int]));
            return true;
        }
        i += 1;
    }
    false
}

/// Whether some changed path is a Markdown spec file under `docs/sdd/specs/`.
pub fn spec_updated(changed: &Vec<String>) -> (r: bool)
    ensures
        r == exists|i: int| 0 <= i < changed@.len() && is_spec_doc(#[trigger] paths_view(changed@)[i]),
{
    let ghost pv = paths_view(changed@);
    let mut i: usize = 0;
    while i < changed.len()
        invariant
            pv == paths_view(changed@),
            i <= changed@.len(),
            forall|j: int| 0 <= j < i ==> !is_spec_doc(#[trigger] pv[j]),
        decreases changed.len() - i,
    {
        if is_spec_document(changed[i].as_str()) {
            assert(is_spec_doc(pv[i as int]));
            return true;
        }
        i += 1;
    }
    false
}

/// Classifies the changed paths for the check: nothing changed, or documentation only,
/// passes; a change to source, tests, `Cargo.toml` or `Cargo.lock` also needs a spec
/// file under `docs/sdd/specs/` and one change directory with all three artifacts.
pub fn check_changes(changed: &Vec<String>) -> (r: Result<CheckOutcome, GateError>)
    ensures
        r == check_result(paths_view(changed@)),
{
    let ghost pv = paths_view(changed@);
    if changed.len() == 0 {
        return Ok(CheckOutcome::NoChanges);
    }
    if all_under_docs(changed) {
        return Ok(CheckOutcome::DocsOnly);
    }
    if !any_code_change(changed) {
        return Ok(CheckOutcome::Passed);
    }
    if !spec_updated(changed) {
        return Err(GateError::SpecUpdateRequired);
    }
    let (decision, tasks, test_plan) = required_artifacts(changed);
    if !(decision && tasks && test_plan) {
        return Err(GateError::ArtifactsRequired);
    }
    Ok(CheckOutcome::Passed)
}

/// The check before finalizing a change whose code changed: a spec file under
/// `docs/sdd/specs/` must be among the changed paths.
pub fn require_spec_update(changed: &Vec<String>) -> (r: Result<(), GateError>)
    ensures
        r is Ok <==> exists|i: int| 0 <= i < changed@.len() && is_spec_doc(#[trigger] paths_view(changed@)[i]),
        r matches Err(e) ==> e == GateError::SpecUpdateRequired,
{
    if spec_updated(changed) {
        Ok(())
    } else {
        Err(GateError::SpecUpdateRequired)
    }
}

} // verus!
