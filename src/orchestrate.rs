//! Dispatch planning with memoized reuse, and the serial merge of unit outcomes into the
//! change's record after every unit has joined.
use vstd::prelude::*;

use crate::index::{aggregate_digest, entries_view, EntryView, FileEntry};
use crate::index::shard_hash;
use crate::state::{
    change_or_fresh, now_rfc3339, text_map, with_change, ChangeView, State, ThreadView,
};
use crate::table::Table;
use crate::text::{copy_text, decimal, push_decimal, push_text, same_text};

verus! {

/// One unit of work to dispatch: the shard's position, its name and its current hash.
pub struct ReaderJob {
    pub index: usize,
    pub name: String,
    pub hash: String,
}

pub struct JobView {
    pub index: nat,
    pub name: Seq<char>,
    pub hash: Seq<char>,
}

impl View for ReaderJob {
    type V = JobView;

    open spec fn view(&self) -> JobView {
        JobView { index: self.index as nat, name: self.name@, hash: self.hash@ }
    }
}

/// What a dispatched unit reported once joined.
pub struct ReaderOutcome {
    pub name: String,
    pub hash: String,
    pub ok: bool,
}

pub struct OutcomeView {
    pub name: Seq<char>,
    pub hash: Seq<char>,
    pub ok: bool,
}

impl View for ReaderOutcome {
    type V = OutcomeView;

    open spec fn view(&self) -> OutcomeView {
        OutcomeView { name: self.name@, hash: self.hash@, ok: self.ok }
    }
}

/// Why an orchestration failed.
pub enum OrchestrateError {
    /// The unit with this name reported failure.
    AgentFailed(String),
}

impl OrchestrateError {
    pub fn message(&self) -> (r: String)
        ensures
            self matches OrchestrateError::AgentFailed(n) && r@ == "reader agent failed: "@ + n@,
    {
        match self {
            OrchestrateError::AgentFailed(name) => {
                let mut m = copy_text("reader agent failed: ");
                push_text(&mut m, name.as_str());
                m
            },
        }
    }
}

pub open spec fn shards_view(s: Seq<Vec<FileEntry>>) -> Seq<Seq<EntryView>> {
    s.map_values(|v: Vec<FileEntry>| entries_view(v@))
}

pub open spec fn jobs_view(s: Seq<ReaderJob>) -> Seq<JobView> {
    s.map_values(|j: ReaderJob| j@)
}

pub open spec fn outcomes_view(s: Seq<ReaderOutcome>) -> Seq<OutcomeView> {
    s.map_values(|o: ReaderOutcome| o@)
}

/// The name under which shard `i` is stored: `reader_<i>`.
pub open spec fn reader_name(i: nat) -> Seq<char> {
    "reader_"@ + decimal(i)
}

/// The artifact for shard `i` is known to exist.
pub open spec fn present_at(present: Seq<bool>, i: int) -> bool {
    0 <= i < present.len() && present[i]
}

/// A shard whose stored hash equals its current hash and whose artifact exists is reused.
pub open spec fn reusable(stored: Map<Seq<char>, Seq<char>>, name: Seq<char>, hash: Seq<char>, present: bool) -> bool {
    present && stored.contains_key(name) && stored[name] == hash
}

/// Shard `i` needs a unit of work.
pub open spec fn wanted(shards: Seq<Seq<EntryView>>, stored: Map<Seq<char>, Seq<char>>, present: Seq<bool>, i: int) -> bool {
    shards[i].len() > 0 && !reusable(
        stored,
        reader_name(i as nat),
        aggregate_digest(shards[i]),
        present_at(present, i),
    )
}

/// The units of work for the first `n` shards, in shard order.
pub open spec fn wanted_jobs(
    shards: Seq<Seq<EntryView>>,
    stored: Map<Seq<char>, Seq<char>>,
    present: Seq<bool>,
    n: nat,
) -> Seq<JobView>
    decreases n,
{
    if n == 0 {
        Seq::empty()
    } else {
        let prev = wanted_jobs(shards, stored, present, (n - 1) as nat);
        let i = n - 1;
        if wanted(shards, stored, present, i) {
            prev.push(
                JobView {
                    index: i as nat,
                    name: reader_name(i as nat),
                    hash: aggregate_digest(shards[i]),
                },
            )
        } else {
            prev
        }
    }
}

/// The name of shard `i`.
pub fn reader_shard_name(i: usize) -> (r: String)
    ensures
        r@ == reader_name(i as nat),
{
    let mut r = copy_text("reader_");
    push_decimal(&mut r, i);
    r
}

/// The units of work to dispatch: one per non-empty shard, except those whose stored
/// hash equals the current one and whose artifact exists (`present[i]`; missing counts as
/// absent).
pub fn plan_reader_jobs(shards: &Vec<Vec<FileEntry>>, stored: &Table<String>, present: &Vec<bool>) -> (r: Vec<ReaderJob>)
    ensures
        jobs_view(r@) == wanted_jobs(shards_view(shards@), text_map(stored@), present@, shards@.len()),
{
    let ghost sv = shards_view(shards@);
    let ghost st = text_map(stored@);
    let mut r: Vec<ReaderJob> = Vec::new();
    let mut i: usize = 0;
    while i < shards.len()
        invariant
            sv == shards_view(shards@),
            st == text_map(stored@),
            i <= shards@.len(),
            jobs_view(r@) == wanted_jobs(sv, st, present@, i as nat),
        decreases shards.len() - i,
    {
        let shard = &shards[i];
        assert(sv[i as int] == entries_view(shard@));
        if shard.len() > 0 {
            let name = reader_shard_name(i);
            let hash = shard_hash(shard.as_slice());
            let have = i < present.len() && present[i];
            let reuse = have && match stored.get(name.as_str()) {
                Some(h) => same_text(h.as_str(), hash.as_str()),
                None => false,
            };
            if !reuse {
                let job = ReaderJob { index: i, name, hash };
                r.push(job);
                assert(jobs_view(r@) =~= wanted_jobs(sv, st, present@, i as nat).push(job@));
            }
        }
        i += 1;
    }
    r
}

/// The log entry for one outcome: its name serves as purpose and identifier.
pub open spec fn outcome_thread(o: OutcomeView, at: Seq<char>) -> ThreadView {
    ThreadView { purpose: o.name, thread_id: o.name, started_at: at }
}

/// A record after one outcome: one more log entry, and the shard's hash stored.
pub open spec fn merge_one(c: ChangeView, o: OutcomeView, at: Seq<char>) -> ChangeView {
    ChangeView {
        threads: c.threads.push(outcome_thread(o, at)),
        shard_hashes: c.shard_hashes.insert(o.name, o.hash),
        ..c
    }
}

/// The state after the outcomes are merged, in order, into the record of `id`.
pub open spec fn merged_state(s: crate::state::StateView, id: Seq<char>, outs: Seq<OutcomeView>, at: Seq<char>) -> crate::state::StateView
    decreases outs.len(),
{
    if outs.len() == 0 {
        s
    } else {
        let p = merged_state(s, id, outs.drop_last(), at);
        with_change(p, id, merge_one(change_or_fresh(p, id), outs.last(), at))
    }
}

/// Every unit succeeded.
pub open spec fn all_ok(outs: Seq<OutcomeView>) -> bool {
    forall|i: int| 0 <= i < outs.len() ==> #[trigger] outs[i].ok
}

/// Merges the outcomes of the joined units into the change's record, one after the other,
/// with log entries started at `at`. When any unit failed, nothing is merged and the first
/// failed unit is named.
pub fn apply_reader_outcomes_at(state: &mut State, change_id: &str, outcomes: &Vec<ReaderOutcome>, at: &str) -> (r: Result<(), OrchestrateError>)
    ensures
        r is Ok <==> all_ok(outcomes_view(outcomes@)),
        r is Ok ==> final(state)@ == merged_state(old(state)@, change_id@, outcomes_view(outcomes@), at@),
        r matches Err(OrchestrateError::AgentFailed(n)) ==> exists|i: int|
            0 <= i < outcomes@.len() && !outcomes@[i].ok && #[trigger] outcomes@[i].name@ == n@,
        r is Err ==> final(state)@ == old(state)@,
        old(state).wf() ==> final(state).wf(),
{
    let ghost ov = outcomes_view(outcomes@);
    let mut k: usize = 0;
    while k < outcomes.len()
        invariant
            ov == outcomes_view(outcomes@),
            k <= outcomes@.len(),
            forall|j: int| 0 <= j < k ==> #[trigger] ov[j].ok,
        decreases outcomes.len() - k,
    {
        if !outcomes[k].ok {
            assert(!ov[k as int].ok);
            return Err(OrchestrateError::AgentFailed(copy_text(outcomes[k].name.as_str())));
        }
        assert(ov[k as int].ok);
        k += 1;
    }
    let mut i: usize = 0;
    while i < outcomes.len()
        invariant
            ov == outcomes_view(outcomes@),
            i <= outcomes@.len(),
            state@ == merged_state(old(state)@, change_id@, ov.subrange(0, i as int), at@),
            old(state).wf() ==> state.wf(),
        decreases outcomes.len() - i,
    {
        let o = &outcomes[i];
        let ghost before = state@;
        state.record_thread_at(change_id, o.name.as_str(), o.name.as_str(), at);
        let c = state.change_state_mut(change_id);
        c.reader_shard_hashes.insert(copy_text(o.name.as_str()), copy_text(o.hash.as_str()));
        proof {
            let pre = ov.subrange(0, i as int);
            let cur = ov.subrange(0, i + 1);
            assert(cur.drop_last() =~= pre);
            assert(cur.last() == o@);
            let base = change_or_fresh(before, change_id@);
            assert(state@.changes[change_id@].shard_hashes =~= merge_one(base, o@, at@).shard_hashes);
            assert(state@.changes =~= merged_state(old(state)@, change_id@, cur, at@).changes);
        }
        i += 1;
    }
    assert(ov.subrange(0, i as int) =~= ov);
    Ok(())
}

/// Merges the outcomes of the joined units, with log entries started now.
pub fn apply_reader_outcomes(state: &mut State, change_id: &str, outcomes: &Vec<ReaderOutcome>) -> (r: Result<(), OrchestrateError>)
    ensures
        r is Ok <==> all_ok(outcomes_view(outcomes@)),
        r is Ok ==> exists|at: Seq<char>|
            final(state)@ == merged_state(old(state)@, change_id@, outcomes_view(outcomes@), at),
        r is Err ==> final(state)@ == old(state)@,
        old(state).wf() ==> final(state).wf(),
{
    let at = now_rfc3339();
    apply_reader_outcomes_at(state, change_id, outcomes, at.as_str())
}

/// Every planned unit is for a shard among the first `n` that is wanted, with that
/// shard's name and current hash.
pub proof fn lemma_jobs_are_wanted(
    shards: Seq<Seq<EntryView>>,
    stored: Map<Seq<char>, Seq<char>>,
    present: Seq<bool>,
    n: nat,
)
    requires
        n <= shards.len(),
    ensures
        forall|j: int|
            0 <= j < wanted_jobs(shards, stored, present, n).len() ==> {
                let job = #[trigger] wanted_jobs(shards, stored, present, n)[j];
                &&& job.index < n
                &&& wanted(shards, stored, present, job.index as int)
                &&& job.name == reader_name(job.index as nat)
                &&& job.hash == aggregate_digest(shards[job.index as int])
            },
    decreases n,
{
    if n > 0 {
        lemma_jobs_are_wanted(shards, stored, present, (n - 1) as nat);
        let prev = wanted_jobs(shards, stored, present, (n - 1) as nat);
        let cur = wanted_jobs(shards, stored, present, n);
        assert forall|j: int| 0 <= j < cur.len() implies {
            let job = #[trigger] cur[j];
            &&& job.index < n
            &&& wanted(shards, stored, present, job.index as int)
            &&& job.name == reader_name(job.index as nat)
            &&& job.hash == aggregate_digest(shards[job.index as int])
        } by {
            if j < prev.len() {
                assert(cur[j] == prev[j]);
            }
        }
    }
}

/// Memoization: re-running with an unchanged shard hash and an existing artifact
/// dispatches no unit for that shard; and where every other shard is unchanged since its
/// hash was stored and its artifact exists, a change to shard `k` leaves the other shards'
/// hashes as they were and dispatches at most the unit for shard `k`.
pub proof fn lemma_memoized_dispatch(
    old_shards: Seq<Seq<EntryView>>,
    shards: Seq<Seq<EntryView>>,
    stored: Map<Seq<char>, Seq<char>>,
    present: Seq<bool>,
    k: int,
)
    requires
        old_shards.len() == shards.len(),
        0 <= k < shards.len(),
        forall|i: int| 0 <= i < shards.len() && i != k ==> #[trigger] shards[i] == old_shards[i],
        forall|i: int|
            0 <= i < shards.len() && i != k && old_shards[i].len() > 0 ==> present_at(present, i)
                && stored.contains_key(reader_name(i as nat)) && stored[reader_name(i as nat)]
                == aggregate_digest(#[trigger] old_shards[i]),
    ensures
        forall|i: int|
            0 <= i < shards.len() && i != k ==> aggregate_digest(#[trigger] shards[i]) == aggregate_digest(
                old_shards[i],
            ),
        forall|j: int|
            0 <= j < wanted_jobs(shards, stored, present, shards.len()).len() ==> (
            #[trigger] wanted_jobs(shards, stored, present, shards.len())[j]).index == k,
{
    lemma_jobs_are_wanted(shards, stored, present, shards.len());
    assert forall|j: int| 0 <= j < wanted_jobs(shards, stored, present, shards.len()).len() implies (
    #[trigger] wanted_jobs(shards, stored, present, shards.len())[j]).index == k by {
        let i = wanted_jobs(shards, stored, present, shards.len())[j].index as int;
        if i != k {
            assert(shards[i] == old_shards[i]);
        }
    }
}

/// Memoization, shard by shard: a shard whose stored hash equals its current hash and
/// whose artifact exists gets no unit of work.
pub proof fn lemma_reused_shard_skipped(
    shards: Seq<Seq<EntryView>>,
    stored: Map<Seq<char>, Seq<char>>,
    present: Seq<bool>,
    i: int,
)
    requires
        0 <= i < shards.len(),
        reusable(stored, reader_name(i as nat), aggregate_digest(shards[i]), present_at(present, i)),
    ensures
        forall|j: int|
            0 <= j < wanted_jobs(shards, stored, present, shards.len()).len() ==> (
            #[trigger] wanted_jobs(shards, stored, present, shards.len())[j]).index != i,
{
    lemma_jobs_are_wanted(shards, stored, present, shards.len());
}

proof fn lemma_jobs_ascend(
    shards: Seq<Seq<EntryView>>,
    stored: Map<Seq<char>, Seq<char>>,
    present: Seq<bool>,
    n: nat,
)
    ensures
        forall|a: int, b: int|
            0 <= a < b < wanted_jobs(shards, stored, present, n).len() ==> (
            #[trigger] wanted_jobs(shards, stored, present, n)[a]).index < (
            #[trigger] wanted_jobs(shards, stored, present, n)[b]).index,
        forall|a: int|
            0 <= a < wanted_jobs(shards, stored, present, n).len() ==> (
            #[trigger] wanted_jobs(shards, stored, present, n)[a]).index < n,
    decreases n,
{
    if n > 0 {
        lemma_jobs_ascend(shards, stored, present, (n - 1) as nat);
        let prev = wanted_jobs(shards, stored, present, (n - 1) as nat);
        let cur = wanted_jobs(shards, stored, present, n);
        assert forall|a: int| 0 <= a < prev.len() implies #[trigger] cur[a] == prev[a] by {
        }
        assert forall|a: int| 0 <= a < cur.len() implies (#[trigger] cur[a]).index < n by {
            if a < prev.len() {
                assert(cur[a] == prev[a]);
            }
        }
        assert forall|a: int, b: int| 0 <= a < b < cur.len() implies (#[trigger] cur[a]).index < (
        #[trigger] cur[b]).index by {
            assert(cur[a] == prev[a]);
            if b < prev.len() {
                assert(cur[b] == prev[b]);
            }
        }
    }
}

/// The units of one plan have distinct names, so their outcomes can be merged in any
/// order.
pub proof fn lemma_planned_names_distinct(
    shards: Seq<Seq<EntryView>>,
    stored: Map<Seq<char>, Seq<char>>,
    present: Seq<bool>,
)
    ensures
        forall|a: int, b: int|
            0 <= a < b < wanted_jobs(shards, stored, present, shards.len()).len() ==> (
            #[trigger] wanted_jobs(shards, stored, present, shards.len())[a]).name != (
            #[trigger] wanted_jobs(shards, stored, present, shards.len())[b]).name,
{
    let jobs = wanted_jobs(shards, stored, present, shards.len());
    lemma_jobs_ascend(shards, stored, present, shards.len());
    lemma_jobs_are_wanted(shards, stored, present, shards.len());
    assert forall|a: int, b: int| 0 <= a < b < jobs.len() implies (#[trigger] jobs[a]).name != (
    #[trigger] jobs[b]).name by {
        if jobs[a].name == jobs[b].name {
            let pa = reader_name(jobs[a].index);
            let pb = reader_name(jobs[b].index);
            assert(pa.skip(7) =~= decimal(jobs[a].index)) by {
                reveal_strlit("reader_");
            }
            assert(pb.skip(7) =~= decimal(jobs[b].index)) by {
                reveal_strlit("reader_");
            }
            crate::text::lemma_decimal_injective(jobs[a].index, jobs[b].index);
        }
    }
}

/// The stored hashes after folding the outcomes in, in order.
pub open spec fn hashes_after(m: Map<Seq<char>, Seq<char>>, outs: Seq<OutcomeView>) -> Map<Seq<char>, Seq<char>>
    decreases outs.len(),
{
    if outs.len() == 0 {
        m
    } else {
        hashes_after(m, outs.drop_last()).insert(outs.last().name, outs.last().hash)
    }
}

/// The log entries for the outcomes, in order.
pub open spec fn outcome_threads(outs: Seq<OutcomeView>, at: Seq<char>) -> Seq<ThreadView> {
    outs.map_values(|o: OutcomeView| outcome_thread(o, at))
}

/// No two outcomes share a name.
pub open spec fn names_unique(outs: Seq<OutcomeView>) -> bool {
    forall|i: int, j: int| 0 <= i < j < outs.len() ==> outs[i].name != outs[j].name
}

proof fn lemma_merged_shape(s: crate::state::StateView, id: Seq<char>, outs: Seq<OutcomeView>, at: Seq<char>)
    requires
        outs.len() > 0,
    ensures
        merged_state(s, id, outs, at) == with_change(
            s,
            id,
            ChangeView {
                threads: change_or_fresh(s, id).threads + outcome_threads(outs, at),
                shard_hashes: hashes_after(change_or_fresh(s, id).shard_hashes, outs),
                ..change_or_fresh(s, id)
            },
        ),
    decreases outs.len(),
{
    let base = change_or_fresh(s, id);
    if outs.len() == 1 {
        assert(outs.drop_last() =~= Seq::<OutcomeView>::empty());
        assert(outcome_threads(outs, at) =~= seq![outcome_thread(outs[0], at)]);
        assert(base.threads + outcome_threads(outs, at) =~= base.threads.push(outcome_thread(outs[0], at)));
        assert(merged_state(s, id, outs, at).changes =~= with_change(
            s,
            id,
            ChangeView {
                threads: base.threads + outcome_threads(outs, at),
                shard_hashes: hashes_after(base.shard_hashes, outs),
                ..base
            },
        ).changes);
    } else {
        lemma_merged_shape(s, id, outs.drop_last(), at);
        assert(outcome_threads(outs, at) =~= outcome_threads(outs.drop_last(), at).push(
            outcome_thread(outs.last(), at),
        ));
        assert(base.threads + outcome_threads(outs, at) =~= (base.threads + outcome_threads(
            outs.drop_last(),
            at,
        )).push(outcome_thread(outs.last(), at)));
        assert(merged_state(s, id, outs, at).changes =~= with_change(
            s,
            id,
            ChangeView {
                threads: base.threads + outcome_threads(outs, at),
                shard_hashes: hashes_after(base.shard_hashes, outs),
                ..base
            },
        ).changes);
    }
}

proof fn lemma_hashes_after(m: Map<Seq<char>, Seq<char>>, outs: Seq<OutcomeView>)
    requires
        names_unique(outs),
    ensures
        forall|i: int|
            0 <= i < outs.len() ==> hashes_after(m, outs).contains_key(#[trigger] outs[i].name)
                && hashes_after(m, outs)[outs[i].name] == outs[i].hash,
    decreases outs.len(),
{
    if outs.len() > 0 {
        let p = outs.drop_last();
        assert(names_unique(p));
        lemma_hashes_after(m, p);
        assert forall|i: int| 0 <= i < outs.len() implies hashes_after(m, outs).contains_key(
            #[trigger] outs[i].name,
        ) && hashes_after(m, outs)[outs[i].name] == outs[i].hash by {
            if i < outs.len() - 1 {
                assert(p[i] == outs[i]);
            }
        }
    }
}

proof fn lemma_hashes_after_absent(m: Map<Seq<char>, Seq<char>>, outs: Seq<OutcomeView>, k: Seq<char>)
    requires
        forall|i: int| 0 <= i < outs.len() ==> #[trigger] outs[i].name != k,
    ensures
        hashes_after(m, outs).contains_key(k) == m.contains_key(k),
        m.contains_key(k) ==> hashes_after(m, outs)[k] == m[k],
    decreases outs.len(),
{
    if outs.len() > 0 {
        let p = outs.drop_last();
        assert(outs[outs.len() - 1].name != k);
        assert forall|i: int| 0 <= i < p.len() implies #[trigger] p[i].name != k by {
            assert(p[i] == outs[i]);
        }
        lemma_hashes_after_absent(m, p, k);
    }
}

/// Memoization, after the merge: when the units (with distinct names) succeeded, the
/// change's record holds each unit's shard hash under its name, and keeps every stored
/// hash under a name `k` that no unit has.
pub proof fn lemma_merge_stores_hashes(
    s: crate::state::StateView,
    id: Seq<char>,
    outs: Seq<OutcomeView>,
    at: Seq<char>,
    k: Seq<char>,
)
    requires
        names_unique(outs),
        outs.len() > 0,
    ensures
        merged_state(s, id, outs, at).changes.contains_key(id),
        forall|i: int|
            0 <= i < outs.len() ==> merged_state(s, id, outs, at).changes[id].shard_hashes.contains_key(
                #[trigger] outs[i].name,
            ) && merged_state(s, id, outs, at).changes[id].shard_hashes[outs[i].name] == outs[i].hash,
        (forall|i: int| 0 <= i < outs.len() ==> #[trigger] outs[i].name != k) ==> {
            let before = change_or_fresh(s, id).shard_hashes;
            let after = merged_state(s, id, outs, at).changes[id].shard_hashes;
            &&& after.contains_key(k) == before.contains_key(k)
            &&& before.contains_key(k) ==> after[k] == before[k]
        },
{
    lemma_merged_shape(s, id, outs, at);
    lemma_hashes_after(change_or_fresh(s, id).shard_hashes, outs);
    if forall|i: int| 0 <= i < outs.len() ==> #[trigger] outs[i].name != k {
        lemma_hashes_after_absent(change_or_fresh(s, id).shard_hashes, outs, k);
    }
}

/// Idempotent merge: merging the same set of outcomes in any order (their names unique)
/// gives the same state, but for the order of the log, whose entries are the same.
pub proof fn lemma_merge_order_free(
    s: crate::state::StateView,
    id: Seq<char>,
    o1: Seq<OutcomeView>,
    o2: Seq<OutcomeView>,
    at: Seq<char>,
)
    requires
        names_unique(o1),
        names_unique(o2),
        forall|i: int| 0 <= i < o1.len() ==> o2.contains(#[trigger] o1[i]),
        forall|i: int| 0 <= i < o2.len() ==> o1.contains(#[trigger] o2[i]),
    ensures
        merged_state(s, id, o1, at).changes.dom() == merged_state(s, id, o2, at).changes.dom(),
        forall|k: Seq<char>|
            k != id && #[trigger] merged_state(s, id, o1, at).changes.contains_key(k) ==> merged_state(
                s,
                id,
                o1,
                at,
            ).changes[k] == merged_state(s, id, o2, at).changes[k],
        merged_state(s, id, o1, at).changes.contains_key(id) ==> {
            let c1 = merged_state(s, id, o1, at).changes[id];
            let c2 = merged_state(s, id, o2, at).changes[id];
            &&& c1.shard_hashes == c2.shard_hashes
            &&& c1.threads.to_set() == c2.threads.to_set()
            &&& c1.approved == c2.approved
            &&& c1.approved_at == c2.approved_at
            &&& c1.approved_by == c2.approved_by
            &&& c1.file_index_hash == c2.file_index_hash
            &&& c1.file_hashes == c2.file_hashes
            &&& c1.base_commit == c2.base_commit
        },
{
    if o1.len() == 0 || o2.len() == 0 {
        if o1.len() > 0 {
            assert(o2.contains(o1[0]));
        }
        if o2.len() > 0 {
            assert(o1.contains(o2[0]));
        }
        assert(o1 =~= o2);
    } else {
        lemma_merged_shape(s, id, o1, at);
        lemma_merged_shape(s, id, o2, at);
        let base = change_or_fresh(s, id);
        lemma_hashes_after(base.shard_hashes, o1);
        lemma_hashes_after(base.shard_hashes, o2);
        let h1 = hashes_after(base.shard_hashes, o1);
        let h2 = hashes_after(base.shard_hashes, o2);
        assert forall|k: Seq<char>| #[trigger] h1.dom().contains(k) == h2.dom().contains(k) && (h1.dom().contains(k) ==> h1[k] == h2[k]) by {
            if exists|i: int| 0 <= i < o1.len() && o1[i].name == k {
                let i = choose|i: int| 0 <= i < o1.len() && o1[i].name == k;
                assert(o2.contains(o1[i]));
                let j = choose|j: int| 0 <= j < o2.len() && o2[j] == o1[i];
                assert(h1.contains_key(o1[i].name) && h1[o1[i].name] == o1[i].hash);
                assert(h2.contains_key(o2[j].name) && h2[o2[j].name] == o2[j].hash);
            } else if exists|j: int| 0 <= j < o2.len() && o2[j].name == k {
                let j = choose|j: int| 0 <= j < o2.len() && o2[j].name == k;
                assert(o1.contains(o2[j]));
                let i = choose|i: int| 0 <= i < o1.len() && o1[i] == o2[j];
                assert(o1[i].name == k);
            } else {
                lemma_hashes_after_absent(base.shard_hashes, o1, k);
                lemma_hashes_after_absent(base.shard_hashes, o2, k);
            }
        }
        assert(h1.dom() =~= h2.dom());
        assert(h1 =~= h2);
        let t1 = base.threads + outcome_threads(o1, at);
        let t2 = base.threads + outcome_threads(o2, at);
        assert forall|t: ThreadView| t1.contains(t) implies t2.contains(t) by {
            if t1.contains(t) {
                let x = choose|x: int| 0 <= x < t1.len() && t1[x] == t;
                if x >= base.threads.len() {
                    let i = x - base.threads.len();
                    assert(o2.contains(o1[i]));
                    let j = choose|j: int| 0 <= j < o2.len() && o2[j] == o1[i];
                    assert(t2[base.threads.len() + j] == t);
                } else {
                    assert(t2[x] == t);
                }
            }
        }
        assert forall|t: ThreadView| t2.contains(t) implies t1.contains(t) by {
            if t2.contains(t) {
                let x = choose|x: int| 0 <= x < t2.len() && t2[x] == t;
                if x >= base.threads.len() {
                    let i = x - base.threads.len();
                    assert(o1.contains(o2[i]));
                    let j = choose|j: int| 0 <= j < o1.len() && o1[j] == o2[i];
                    assert(t1[base.threads.len() + j] == t);
                } else {
                    assert(t1[x] == t);
                }
            }
        }
        assert(t1.to_set() =~= t2.to_set());
        assert(merged_state(s, id, o1, at).changes.dom() =~= merged_state(s, id, o2, at).changes.dom());
    }
}

} // verus!
