use codex_sdd::index::{
    build_index, build_repo_tree, index_entries, is_binary, listed_files, needs_contents,
    normalize_path, should_exclude, split_nul, FileEntry, FileIndex, SourceFile, MAX_FILE_BYTES,
};
use codex_sdd::shard::shard_files;
use codex_sdd::index::shard_hash;

fn src(path: &str, size: Option<u64>, contents: &[u8]) -> SourceFile {
    SourceFile { path: path.to_string(), size, contents: contents.to_vec() }
}

fn entry(path: &str, hash: &str, size: u64) -> FileEntry {
    FileEntry { path: path.to_string(), hash: hash.to_string(), size }
}

fn blake3_hex(data: &[u8]) -> String {
    blake3::hash(data).to_hex().to_string()
}

#[test]
fn excluded_directories() {
    assert!(should_exclude(".git/config"));
    assert!(should_exclude("target/debug/x"));
    assert!(should_exclude("node_modules/a/b.js"));
    assert!(should_exclude(".codex/sdd/state.json"));
    assert!(!should_exclude("src/main.rs"));
    assert!(!should_exclude(".github/workflows/ci.yml"));
    assert!(!should_exclude("target"));
}

#[test]
fn binary_sniffing_looks_at_first_kilobyte_only() {
    assert!(!is_binary(b""));
    assert!(!is_binary(b"plain text"));
    assert!(is_binary(b"ab\0cd"));
    let mut late = vec![b'a'; 1024];
    late.push(0);
    assert!(!is_binary(&late));
    let mut edge = vec![b'a'; 1023];
    edge.push(0);
    assert!(is_binary(&edge));
}

#[test]
fn contents_needed_only_for_candidates() {
    assert!(needs_contents("src/a.rs", Some(10)));
    assert!(needs_contents("src/a.rs", None));
    assert!(needs_contents("src/a.rs", Some(MAX_FILE_BYTES)));
    assert!(!needs_contents("src/a.rs", Some(MAX_FILE_BYTES + 1)));
    assert!(!needs_contents(".git/HEAD", Some(10)));
}

#[test]
fn normalize_turns_backslashes() {
    assert_eq!(normalize_path("a\\b\\c.rs"), "a/b/c.rs");
    assert_eq!(normalize_path("a/b"), "a/b");
}

#[test]
fn index_is_sorted_hashed_and_filtered() {
    let files = vec![
        src("src/z.rs", Some(3), b"zzz"),
        src("README.md", Some(2), b"hi"),
        src(".git/config", Some(1), b"x"),
        src("big.bin", Some(MAX_FILE_BYTES + 1), b""),
        src("img.png", Some(4), b"\x89P\0G"),
        src("src/a.rs", None, b"aa"),
    ];
    let r = build_index(&files);
    let paths: Vec<&str> = r.index.files.iter().map(|e| e.path.as_str()).collect();
    assert_eq!(paths, vec!["README.md", "src/a.rs", "src/z.rs"]);
    assert_eq!(r.index.files[0].hash, blake3_hex(b"hi"));
    assert_eq!(r.index.files[0].size, 2);
    assert_eq!(r.index.files[1].size, 0);
    assert_eq!(r.repo_tree, "README.md\nsrc/a.rs\nsrc/z.rs\n");
    let mut agg = Vec::new();
    for e in &r.index.files {
        agg.extend_from_slice(e.path.as_bytes());
        agg.extend_from_slice(e.hash.as_bytes());
    }
    assert_eq!(r.index_hash, blake3_hex(&agg));
    assert_eq!(r.file_hashes.get("src/z.rs").cloned(), Some(blake3_hex(b"zzz")));
    assert!(r.file_hashes.get(".git/config").is_none());
    assert_eq!(r.file_hashes.entries.len(), 3);
}

#[test]
fn index_build_is_deterministic() {
    let files = vec![src("b", Some(1), b"1"), src("a", Some(1), b"2"), src("c\\d", Some(1), b"3")];
    let r1 = build_index(&files);
    let r2 = build_index(&files);
    let p1: Vec<(String, String, u64)> =
        r1.index.files.iter().map(|e| (e.path.clone(), e.hash.clone(), e.size)).collect();
    let p2: Vec<(String, String, u64)> =
        r2.index.files.iter().map(|e| (e.path.clone(), e.hash.clone(), e.size)).collect();
    assert_eq!(p1, p2);
    assert_eq!(r1.index_hash, r2.index_hash);
    assert_eq!(r1.repo_tree, r2.repo_tree);
    let mut shuffled = files;
    shuffled.reverse();
    let r3 = build_index(&shuffled);
    assert_eq!(r1.index_hash, r3.index_hash);
}

#[test]
fn colliding_paths_pick_least_raw_path_in_any_order() {
    let files = vec![src("a\\b", Some(1), b"backslash"), src("a/b", Some(1), b"slash")];
    let es = index_entries(&files);
    assert_eq!(es.len(), 1);
    assert_eq!(es[0].path, "a/b");
    assert_eq!(es[0].hash, blake3_hex(b"slash"));
    let mut reversed = files;
    reversed.reverse();
    let r1 = build_index(&reversed);
    let r2 = build_index(&vec![src("a\\b", Some(1), b"backslash"), src("a/b", Some(1), b"slash")]);
    assert_eq!(r1.index_hash, r2.index_hash);
    assert_eq!(r1.index.files[0].hash, blake3_hex(b"slash"));
}

#[test]
fn same_raw_path_picks_least_hash_in_any_order() {
    let one = src("x", Some(1), b"1");
    let two = src("x", Some(1), b"2");
    let (h1, h2) = (blake3_hex(b"1"), blake3_hex(b"2"));
    let least = if h1 < h2 { h1 } else { h2 };
    let a = build_index(&vec![src("x", Some(1), b"1"), src("x", Some(1), b"2")]);
    let b = build_index(&vec![two, one]);
    assert_eq!(a.index.files[0].hash, least);
    assert_eq!(a.index_hash, b.index_hash);
}

#[test]
fn empty_index_hash_is_digest_of_nothing() {
    let r = build_index(&Vec::new());
    assert!(r.index.files.is_empty());
    assert_eq!(r.index_hash, "af1349b9f5f9a1a6a0404dea36dcc9499bcb25c9adc112b7cc9a93cae41f3262");
    assert_eq!(r.repo_tree, "");
}

#[test]
fn shard_hash_covers_pairs_in_order() {
    let es = vec![entry("a", "h1", 1), entry("b", "h2", 2)];
    assert_eq!(shard_hash(&es), blake3_hex(b"ah1bh2"));
    let rev = vec![entry("b", "h2", 2), entry("a", "h1", 1)];
    assert_ne!(shard_hash(&es), shard_hash(&rev));
}

#[test]
fn repo_tree_lists_paths() {
    let idx = FileIndex { files: vec![entry("x", "1", 0), entry("y/z", "2", 0)] };
    assert_eq!(build_repo_tree(&idx), "x\ny/z\n");
}

#[test]
fn shards_cover_index_in_order() {
    let idx = FileIndex { files: (0..7).map(|i| entry(&format!("f{i}"), "h", i)).collect() };
    let shards = shard_files(&idx, 3);
    let sizes: Vec<usize> = shards.iter().map(|s| s.len()).collect();
    assert_eq!(sizes, vec![3, 3, 1]);
    let all: Vec<String> = shards.iter().flatten().map(|e| e.path.clone()).collect();
    let orig: Vec<String> = idx.files.iter().map(|e| e.path.clone()).collect();
    assert_eq!(all, orig);
}

#[test]
fn more_shards_than_files_leaves_trailing_empty() {
    let idx = FileIndex { files: vec![entry("a", "1", 0), entry("b", "2", 0)] };
    let shards = shard_files(&idx, 4);
    let sizes: Vec<usize> = shards.iter().map(|s| s.len()).collect();
    assert_eq!(sizes, vec![1, 1, 0, 0]);
    assert!(shard_files(&idx, 0).is_empty());
    let empty = FileIndex { files: vec![] };
    assert_eq!(shard_files(&empty, 2).iter().map(|s| s.len()).collect::<Vec<_>>(), vec![0, 0]);
}

#[test]
fn nul_split_drops_empty_items() {
    assert_eq!(split_nul(b"a\0b/c\0\0d"), vec!["a", "b/c", "d"]);
    assert_eq!(split_nul(b"\0"), Vec::<String>::new());
    assert_eq!(split_nul(b"x\xffy"), vec!["x\u{fffd}y"]);
}

#[test]
fn listing_fails_without_tracked_files() {
    assert!(listed_files(false, b"a\0", None).is_err());
    let v = listed_files(true, b"a\0b\0", Some(b"c\0")).ok().unwrap();
    assert_eq!(v, vec!["a", "b", "c"]);
    let w = listed_files(true, b"a\0", None).ok().unwrap();
    assert_eq!(w, vec!["a"]);
}

#[test]
fn digests_are_lowercase_hex() {
    let h = shard_hash(&[entry("a", "b", 1)]);
    assert_eq!(h.len(), 64);
    assert!(h.chars().all(|c| c.is_ascii_digit() || ('a'..='f').contains(&c)));
}
