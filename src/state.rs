//! The persisted workflow state: one record per change, with its approval, hashes and
//! provenance log.
use vstd::prelude::*;

use crate::table::Table;
use crate::text::copy_text;

verus! {

/// The schema version that this library reads and writes.
pub const SCHEMA_VERSION: u32 = 1;

/// The tool version recorded in a fresh state.
pub const TOOL_VERSION: &'static str = "0.1.0";

/// One interaction with the agent runner: what it was for, its identifier, and when it
/// started.
pub struct CodexThread {
    pub purpose: String,
    pub thread_id: String,
    pub started_at: String,
}

pub struct ThreadView {
    pub purpose: Seq<char>,
    pub thread_id: Seq<char>,
    pub started_at: Seq<char>,
}

impl View for CodexThread {
    type V = ThreadView;

    open spec fn view(&self) -> ThreadView {
        ThreadView { purpose: self.purpose@, thread_id: self.thread_id@, started_at: self.started_at@ }
    }
}

/// The record of one change.
pub struct ChangeState {
    pub approved: bool,
    pub approved_at: Option<String>,
    pub approved_by: Option<String>,
    pub file_index_hash: Option<String>,
    pub file_index_generated_at: Option<String>,
    pub codex_threads: Vec<CodexThread>,
    pub file_hashes: Table<String>,
    pub reader_shard_hashes: Table<String>,
    pub base_commit: Option<String>,
}

pub struct ChangeView {
    pub approved: bool,
    pub approved_at: Option<Seq<char>>,
    pub approved_by: Option<Seq<char>>,
    pub file_index_hash: Option<Seq<char>>,
    pub file_index_generated_at: Option<Seq<char>>,
    pub threads: Seq<ThreadView>,
    pub file_hashes: Map<Seq<char>, Seq<char>>,
    pub shard_hashes: Map<Seq<char>, Seq<char>>,
    pub base_commit: Option<Seq<char>>,
}

pub open spec fn opt_text(o: Option<String>) -> Option<Seq<char>> {
    match o {
        Some(s) => Some(s@),
        None => None,
    }
}

pub open spec fn text_map(m: Map<Seq<char>, String>) -> Map<Seq<char>, Seq<char>> {
    m.map_values(|v: String| v@)
}

pub open spec fn threads_view(s: Seq<CodexThread>) -> Seq<ThreadView> {
    s.map_values(|t: CodexThread| t@)
}

impl View for ChangeState {
    type V = ChangeView;

    open spec fn view(&self) -> ChangeView {
        ChangeView {
            approved: self.approved,
            approved_at: opt_text(self.approved_at),
            approved_by: opt_text(self.approved_by),
            file_index_hash: opt_text(self.file_index_hash),
            file_index_generated_at: opt_text(self.file_index_generated_at),
            threads: threads_view(self.codex_threads@),
            file_hashes: text_map(self.file_hashes@),
            shard_hashes: text_map(self.reader_shard_hashes@),
            base_commit: opt_text(self.base_commit),
        }
    }
}

impl ChangeState {
    /// Its maps have unique keys.
    pub open spec fn wf(&self) -> bool {
        self.file_hashes.wf() && self.reader_shard_hashes.wf()
    }

    /// A record with nothing in it: not approved, no hashes, no log.
    pub fn new() -> (r: Self)
        ensures
            r@ == fresh_change(),
            r.wf(),
    {
        let r = ChangeState {
            approved: false,
            approved_at: None,
            approved_by: None,
            file_index_hash: None,
            file_index_generated_at: None,
            codex_threads: Vec::new(),
            file_hashes: Table::new(),
            reader_shard_hashes: Table::new(),
            base_commit: None,
        };
        assert(r@.threads =~= Seq::<ThreadView>::empty());
        assert(r@.file_hashes =~= Map::<Seq<char>, Seq<char>>::empty());
        assert(r@.shard_hashes =~= Map::<Seq<char>, Seq<char>>::empty());
        r
    }
}

/// A record with nothing in it.
pub open spec fn fresh_change() -> ChangeView {
    ChangeView {
        approved: false,
        approved_at: None,
        approved_by: None,
        file_index_hash: None,
        file_index_generated_at: None,
        threads: Seq::empty(),
        file_hashes: Map::empty(),
        shard_hashes: Map::empty(),
        base_commit: None,
    }
}

/// The whole persisted document.
pub struct State {
    pub schema_version: u32,
    pub tool_version: String,
    pub active_change_id: Option<String>,
    pub changes: Table<ChangeState>,
}

pub struct StateView {
    pub schema_version: u32,
    pub tool_version: Seq<char>,
    pub active_change_id: Option<Seq<char>>,
    pub changes: Map<Seq<char>, ChangeView>,
}

impl View for State {
    type V = StateView;

    open spec fn view(&self) -> StateView {
        StateView {
            schema_version: self.schema_version,
            tool_version: self.tool_version@,
            active_change_id: opt_text(self.active_change_id),
            changes: self.changes@.map_values(|c: ChangeState| c@),
        }
    }
}

/// The record of `id`, or a fresh one where there is none.
pub open spec fn change_or_fresh(s: StateView, id: Seq<char>) -> ChangeView {
    if s.changes.contains_key(id) {
        s.changes[id]
    } else {
        fresh_change()
    }
}

/// `s` with the record of `id` set to `c`.
pub open spec fn with_change(s: StateView, id: Seq<char>, c: ChangeView) -> StateView {
    StateView { changes: s.changes.insert(id, c), ..s }
}

/// The change is known and approved.
pub open spec fn is_approved(s: StateView, id: Seq<char>) -> bool {
    s.changes.contains_key(id) && s.changes[id].approved
}

/// The record after approval by `by` at time `at`.
pub open spec fn approved_change(c: ChangeView, by: Seq<char>, at: Seq<char>) -> ChangeView {
    ChangeView { approved: true, approved_at: Some(at), approved_by: Some(by), ..c }
}

/// The record after one more log entry.
pub open spec fn logged_change(c: ChangeView, t: ThreadView) -> ChangeView {
    ChangeView { threads: c.threads.push(t), ..c }
}

/// Why a state operation failed.
pub enum StateError {
    /// No record exists for the change.
    UnknownChange(String),
    /// The change exists but has not been approved.
    ApprovalRequired(String),
    /// The document was written with another schema version.
    UnsupportedSchema(u32),
}

impl StateError {
    /// A message that names the failure.
    pub fn message(&self) -> (r: String)
        ensures
            self matches StateError::UnknownChange(id) ==> r@ == "change "@ + id@ + " not found"@,
            self matches StateError::ApprovalRequired(id) ==> r@ == "approval required for change "@ + id@,
            self matches StateError::UnsupportedSchema(v) ==> r@ == "unsupported state schema version "@
                + crate::text::decimal(*v as nat),
    {
        match self {
            StateError::UnknownChange(id) => {
                let mut m = copy_text("change ");
                crate::text::push_text(&mut m, id.as_str());
                crate::text::push_text(&mut m, " not found");
                m
            },
            StateError::ApprovalRequired(id) => {
                let mut m = copy_text("approval required for change ");
                crate::text::push_text(&mut m, id.as_str());
                m
            },
            StateError::UnsupportedSchema(v) => {
                let mut m = copy_text("unsupported state schema version ");
                crate::text::push_decimal(&mut m, *v as usize);
                m
            },
        }
    }
}

/// Relies on `chrono::Utc::now` and `DateTime::to_rfc3339`: the current time as an
/// RFC 3339 string; nothing is known of its value.
#[verifier::external_body]
pub fn now_rfc3339() -> (r: String) {
    chrono::Utc::now().to_rfc3339()
}

impl State {
    /// Every map in the document has unique keys.
    pub open spec fn wf(&self) -> bool {
        &&& self.changes.wf()
        &&& forall|k: Seq<char>| #[trigger] self.changes@.contains_key(k) ==> self.changes@[k].wf()
    }

    /// A fresh document at the supported schema version with no changes.
    pub fn new() -> (r: Self)
        ensures
            r.wf(),
            r@.schema_version == SCHEMA_VERSION,
            r@.tool_version == TOOL_VERSION@,
            r@.active_change_id is None,
            r@.changes == Map::<Seq<char>, ChangeView>::empty(),
    {
        let r = State {
            schema_version: SCHEMA_VERSION,
            tool_version: copy_text(TOOL_VERSION),
            active_change_id: None,
            changes: Table::new(),
        };
        assert(r@.changes =~= Map::<Seq<char>, ChangeView>::empty());
        r
    }

    /// The record of a change, created fresh on first reference.
    pub fn change_state_mut(&mut self, change_id: &str) -> (r: &mut ChangeState)
        ensures
            (*r)@ == change_or_fresh(old(self)@, change_id@),
            final(self)@ == with_change(old(self)@, change_id@, (*final(r))@),
            old(self).wf() ==> r.wf(),
            old(self).wf() && final(r).wf() ==> final(self).wf(),
    {
        let i = match self.changes.position(change_id) {
            Some(i) => i,
            None => {
                self.changes.entries.push((copy_text(change_id), ChangeState::new()));
                proof {
                    assert(self.changes.entries@.drop_last() =~= old(self).changes.entries@);
                }
                self.changes.entries.len() - 1
            },
        };
        let ghost mid = self.changes.entries@;
        assert(crate::table::last_key_at(mid, change_id@, i as int));
        let r = &mut self.changes.entries[i].1;
        proof {
            crate::table::lemma_pairs_map_update(mid, i as int, (mid[i as int].0, *final(r)));
            let fm = crate::table::pairs_map(mid).insert(change_id@, *final(r));
            assert(fm.map_values(|c: ChangeState| c@) =~= old(self)@.changes.insert(
                change_id@,
                (*final(r))@,
            ));
        }
        r
    }

    /// The record of a change, if there is one.
    pub fn change_state(&self, change_id: &str) -> (r: Option<&ChangeState>)
        ensures
            r is Some <==> self@.changes.contains_key(change_id@),
            r matches Some(c) ==> c@ == self@.changes[change_id@],
    {
        self.changes.get(change_id)
    }

    /// Succeeds exactly when a record of the change exists and is approved: the approval
    /// check in front of worktree creation, test planning and finalization.
    pub fn require_approved(&self, change_id: &str) -> (r: Result<(), StateError>)
        ensures
            r is Ok <==> is_approved(self@, change_id@),
            r matches Err(StateError::UnknownChange(s)) ==> s@ == change_id@,
            r matches Err(StateError::ApprovalRequired(s)) ==> s@ == change_id@,
            (r matches Err(StateError::UnknownChange(_))) <==> !self@.changes.contains_key(change_id@),
            (r matches Err(StateError::ApprovalRequired(_))) <==> self@.changes.contains_key(change_id@)
                && !self@.changes[change_id@].approved,
            !(r matches Err(StateError::UnsupportedSchema(_))),
    {
        match self.changes.get(change_id) {
            None => Err(StateError::UnknownChange(copy_text(change_id))),
            Some(c) => {
                if c.approved {
                    Ok(())
                } else {
                    Err(StateError::ApprovalRequired(copy_text(change_id)))
                }
            },
        }
    }

    /// Marks the change approved by `approved_by` at time `at`, creating its record if
    /// needed; the rest of the record is kept.
    pub fn approve_change_at(&mut self, change_id: &str, approved_by: &str, at: &str)
        ensures
            final(self)@ == with_change(
                old(self)@,
                change_id@,
                approved_change(change_or_fresh(old(self)@, change_id@), approved_by@, at@),
            ),
            old(self).wf() ==> final(self).wf(),
    {
        let c = self.change_state_mut(change_id);
        c.approved = true;
        c.approved_at = Some(copy_text(at));
        c.approved_by = Some(copy_text(approved_by));
    }

    /// Marks the change approved by `approved_by` now.
    pub fn approve_change(&mut self, change_id: &str, approved_by: &str)
        ensures
            exists|at: Seq<char>|
                final(self)@ == with_change(
                    old(self)@,
                    change_id@,
                    approved_change(change_or_fresh(old(self)@, change_id@), approved_by@, at),
                ),
            old(self).wf() ==> final(self).wf(),
    {
        let at = now_rfc3339();
        self.approve_change_at(change_id, approved_by, at.as_str());
    }

    /// Appends one entry to the change's provenance log, started at time `at`.
    pub fn record_thread_at(&mut self, change_id: &str, purpose: &str, thread_id: &str, at: &str)
        ensures
            final(self)@ == with_change(
                old(self)@,
                change_id@,
                logged_change(
                    change_or_fresh(old(self)@, change_id@),
                    ThreadView { purpose: purpose@, thread_id: thread_id@, started_at: at@ },
                ),
            ),
            old(self).wf() ==> final(self).wf(),
    {
        let c = self.change_state_mut(change_id);
        let t = CodexThread {
            purpose: copy_text(purpose),
            thread_id: copy_text(thread_id),
            started_at: copy_text(at),
        };
        let ghost before = c.codex_threads@;
        c.codex_threads.push(t);
        assert(threads_view(c.codex_threads@) =~= threads_view(before).push(t@));
    }

    /// Appends one entry to the change's provenance log, started now.
    pub fn record_thread(&mut self, change_id: &str, purpose: &str, thread_id: &str)
        ensures
            exists|at: Seq<char>|
                final(self)@ == with_change(
                    old(self)@,
                    change_id@,
                    logged_change(
                        change_or_fresh(old(self)@, change_id@),
                        ThreadView { purpose: purpose@, thread_id: thread_id@, started_at: at },
                    ),
                ),
            old(self).wf() ==> final(self).wf(),
    {
        let at = now_rfc3339();
        self.record_thread_at(change_id, purpose, thread_id, at.as_str());
    }

    /// Records a fresh index of the change: its map from path to hash, its aggregate hash,
    /// and when it was built.
    pub fn record_index_at(&mut self, change_id: &str, file_hashes: Table<String>, index_hash: &str, at: &str)
        ensures
            final(self)@ == with_change(
                old(self)@,
                change_id@,
                ChangeView {
                    file_hashes: text_map(file_hashes@),
                    file_index_hash: Some(index_hash@),
                    file_index_generated_at: Some(at@),
                    ..change_or_fresh(old(self)@, change_id@)
                },
            ),
            old(self).wf() && file_hashes.wf() ==> final(self).wf(),
    {
        let c = self.change_state_mut(change_id);
        c.file_hashes = file_hashes;
        c.file_index_hash = Some(copy_text(index_hash));
        c.file_index_generated_at = Some(copy_text(at));
    }

    /// Records the commit that the change's worktrees start from.
    pub fn set_base_commit(&mut self, change_id: &str, commit: &str)
        ensures
            final(self)@ == with_change(
                old(self)@,
                change_id@,
                ChangeView { base_commit: Some(commit@), ..change_or_fresh(old(self)@, change_id@) },
            ),
            old(self).wf() ==> final(self).wf(),
    {
        let c = self.change_state_mut(change_id);
        c.base_commit = Some(copy_text(commit));
    }

    /// Accepts a document as read from storage: any schema version other than the
    /// supported one is refused, with no migration, and an empty tool version is filled
    /// in.
    pub fn from_document(doc: State) -> (r: Result<State, StateError>)
        ensures
            r is Ok <==> doc.schema_version == SCHEMA_VERSION,
            r matches Err(e) ==> e == StateError::UnsupportedSchema(doc.schema_version),
            r matches Ok(s) ==> s@ == (StateView {
                schema_version: SCHEMA_VERSION,
                tool_version: if doc@.tool_version.len() == 0 {
                    TOOL_VERSION@
                } else {
                    doc@.tool_version
                },
                ..doc@
            }),
            r matches Ok(s) ==> (doc.wf() ==> s.wf()),
    {
        let mut state = doc;
        if state.schema_version != SCHEMA_VERSION {
            return Err(StateError::UnsupportedSchema(state.schema_version));
        }
        if state.tool_version.as_str().is_empty() {
            state.tool_version = copy_text(TOOL_VERSION);
        }
        Ok(state)
    }
}

/// Approval enforcement: the approval check refuses a change that has no record, and one
/// whose record is not approved, which is every change of a fresh document; approving a
/// change makes its check pass; creating or logging to a record, or approving another change, leaves a
/// change's approval as it was.
pub proof fn lemma_gate_enforcement(
    s: StateView,
    id: Seq<char>,
    other: Seq<char>,
    by: Seq<char>,
    at: Seq<char>,
    t: ThreadView,
)
    ensures
        !s.changes.contains_key(id) ==> !is_approved(s, id),
        s.changes.contains_key(id) && !s.changes[id].approved ==> !is_approved(s, id),
        s.changes == Map::<Seq<char>, ChangeView>::empty() ==> !is_approved(s, id),
        is_approved(with_change(s, id, approved_change(change_or_fresh(s, id), by, at)), id),
        other != id ==> is_approved(
            with_change(s, other, approved_change(change_or_fresh(s, other), by, at)),
            id,
        ) == is_approved(s, id),
        is_approved(with_change(s, other, logged_change(change_or_fresh(s, other), t)), id)
            == is_approved(s, id),
        is_approved(with_change(s, other, change_or_fresh(s, other)), id) == is_approved(s, id),
{
}

} // verus!
