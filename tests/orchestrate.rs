use codex_sdd::index::{shard_hash, FileEntry};
use codex_sdd::orchestrate::{
    apply_reader_outcomes, apply_reader_outcomes_at, plan_reader_jobs, reader_shard_name,
    OrchestrateError, ReaderOutcome,
};
use codex_sdd::state::State;
use codex_sdd::table::Table;

fn entry(path: &str, hash: &str) -> FileEntry {
    FileEntry { path: path.to_string(), hash: hash.to_string(), size: 1 }
}

fn shards() -> Vec<Vec<FileEntry>> {
    vec![vec![entry("a", "1"), entry("b", "2")], vec![entry("c", "3")], vec![]]
}

#[test]
fn shard_names() {
    assert_eq!(reader_shard_name(0), "reader_0");
    assert_eq!(reader_shard_name(12), "reader_12");
}

#[test]
fn first_run_dispatches_every_non_empty_shard() {
    let jobs = plan_reader_jobs(&shards(), &Table::new(), &vec![false, false, false]);
    let got: Vec<(usize, String)> = jobs.iter().map(|j| (j.index, j.name.clone())).collect();
    assert_eq!(got, vec![(0, "reader_0".to_string()), (1, "reader_1".to_string())]);
    assert_eq!(jobs[1].hash, shard_hash(&shards()[1]));
}

#[test]
fn unchanged_shard_with_artifact_is_reused() {
    let s = shards();
    let mut stored = Table::new();
    stored.insert("reader_0".to_string(), shard_hash(&s[0]));
    stored.insert("reader_1".to_string(), shard_hash(&s[1]));
    let jobs = plan_reader_jobs(&s, &stored, &vec![true, true, true]);
    assert!(jobs.is_empty());
    let jobs = plan_reader_jobs(&s, &stored, &vec![true, false]);
    assert_eq!(jobs.iter().map(|j| j.index).collect::<Vec<_>>(), vec![1]);
}

#[test]
fn changed_shard_alone_is_dispatched() {
    let s = shards();
    let mut stored = Table::new();
    stored.insert("reader_0".to_string(), shard_hash(&s[0]));
    stored.insert("reader_1".to_string(), shard_hash(&s[1]));
    let mut changed = shards();
    changed[1][0].hash = "4".to_string();
    assert_eq!(shard_hash(&changed[0]), shard_hash(&s[0]));
    assert_ne!(shard_hash(&changed[1]), shard_hash(&s[1]));
    let jobs = plan_reader_jobs(&changed, &stored, &vec![true, true, true]);
    assert_eq!(jobs.iter().map(|j| j.index).collect::<Vec<_>>(), vec![1]);
}

fn outcome(name: &str, hash: &str, ok: bool) -> ReaderOutcome {
    ReaderOutcome { name: name.to_string(), hash: hash.to_string(), ok }
}

#[test]
fn merge_is_order_free() {
    let order1 = vec![outcome("reader_0", "h0", true), outcome("reader_1", "h1", true), outcome("reader_2", "h2", true)];
    let order2 = vec![outcome("reader_2", "h2", true), outcome("reader_0", "h0", true), outcome("reader_1", "h1", true)];
    let mut s1 = State::new();
    let mut s2 = State::new();
    assert!(apply_reader_outcomes_at(&mut s1, "c", &order1, "T").is_ok());
    assert!(apply_reader_outcomes_at(&mut s2, "c", &order2, "T").is_ok());
    let c1 = s1.change_state("c").unwrap();
    let c2 = s2.change_state("c").unwrap();
    for k in ["reader_0", "reader_1", "reader_2"] {
        assert_eq!(c1.reader_shard_hashes.get(k), c2.reader_shard_hashes.get(k));
    }
    assert_eq!(c1.reader_shard_hashes.get("reader_2").map(|s| s.as_str()), Some("h2"));
    let mut l1: Vec<String> = c1.codex_threads.iter().map(|t| t.thread_id.clone()).collect();
    let mut l2: Vec<String> = c2.codex_threads.iter().map(|t| t.thread_id.clone()).collect();
    l1.sort();
    l2.sort();
    assert_eq!(l1, l2);
    assert_eq!(l1.len(), 3);
}

#[test]
fn any_failure_fails_and_leaves_state() {
    let mut s = State::new();
    let outs = vec![outcome("reader_0", "h0", true), outcome("reader_1", "h1", false)];
    match apply_reader_outcomes(&mut s, "c", &outs) {
        Err(OrchestrateError::AgentFailed(n)) => assert_eq!(n, "reader_1"),
        Ok(()) => panic!("expected failure"),
    }
    assert!(s.change_state("c").is_none());
}

#[test]
fn empty_outcomes_change_nothing() {
    let mut s = State::new();
    assert!(apply_reader_outcomes(&mut s, "c", &Vec::new()).is_ok());
    assert!(s.change_state("c").is_none());
}
