//! The content index: which files are indexed, their digests, their order, and the
//! aggregate digest over the whole index.
use vstd::prelude::*;

use crate::digest::{blake3_hex, digest_hex};
use crate::order::{
    compare_paths, lemma_path_lt_irreflexive, lemma_path_lt_total, lemma_path_lt_transitive,
    path_lt,
};
use crate::table::Table;
use vstd::utf8::encode_utf8;
use crate::text::{chars_of, copy_text, has_prefix, push_text, starts_with};

verus! {

/// Files larger than this many bytes are not indexed.
pub const MAX_FILE_BYTES: u64 = 1_000_000;

/// How many leading bytes are inspected for a zero byte.
pub const BINARY_SNIFF_BYTES: usize = 1024;

/// One indexed file.
pub struct FileEntry {
    pub path: String,
    pub hash: String,
    pub size: u64,
}

/// What a `FileEntry` holds, as plain values.
pub struct EntryView {
    pub path: Seq<char>,
    pub hash: Seq<char>,
    pub size: u64,
}

impl View for FileEntry {
    type V = EntryView;

    open spec fn view(&self) -> EntryView {
        EntryView { path: self.path@, hash: self.hash@, size: self.size }
    }
}

/// The entries of an index, ascending by path.
pub struct FileIndex {
    pub files: Vec<FileEntry>,
}

/// The views of a sequence of entries.
pub open spec fn entries_view(s: Seq<FileEntry>) -> Seq<EntryView> {
    s.map_values(|e: FileEntry| e@)
}

impl View for FileIndex {
    type V = Seq<EntryView>;

    open spec fn view(&self) -> Seq<EntryView> {
        entries_view(self.files@)
    }
}

/// A file offered for indexing: its path as listed, its size when it could be read from
/// the file system, and its contents (which may be left empty when `needs_contents` says
/// that they are not needed).
pub struct SourceFile {
    pub path: String,
    pub size: Option<u64>,
    pub contents: Vec<u8>,
}

/// What one build of the index yields.
pub struct IndexResult {
    pub index: FileIndex,
    pub repo_tree: String,
    pub file_hashes: Table<String>,
    pub index_hash: String,
}

/// The path lies in a directory that is never indexed: version-control metadata, build
/// output, dependencies, or the tool's own state.
pub open spec fn excluded_path(p: Seq<char>) -> bool {
    ||| has_prefix(p, ".git/"@)
    ||| has_prefix(p, "target/"@)
    ||| has_prefix(p, "node_modules/"@)
    ||| has_prefix(p, ".codex/sdd/"@)
}

/// The size, when known, is over the limit.
pub open spec fn oversize(size: Option<u64>) -> bool {
    size matches Some(n) && n > MAX_FILE_BYTES
}

/// A zero byte occurs among the first `BINARY_SNIFF_BYTES` bytes.
pub open spec fn looks_binary(data: Seq<u8>) -> bool {
    exists|i: int| 0 <= i < data.len() && i < BINARY_SNIFF_BYTES && data[i] == 0
}

/// Backslashes become forward slashes.
pub open spec fn normalized(p: Seq<char>) -> Seq<char> {
    p.map_values(|c: char| if c == '\\' { '/' } else { c })
}

/// The file is indexed.
#[verifier::opaque]
pub open spec fn admitted(f: SourceFile) -> bool {
    !excluded_path(f.path@) && !oversize(f.size) && !looks_binary(f.contents@)
}

/// The size recorded for a file: its size where known, else zero.
pub open spec fn size_or_zero(size: Option<u64>) -> u64 {
    match size {
        Some(n) => n,
        None => 0,
    }
}

/// The entry that an indexed file gets.
#[verifier::opaque]
pub open spec fn entry_of(f: SourceFile) -> EntryView {
    EntryView { path: normalized(f.path@), hash: blake3_hex(f.contents@), size: size_or_zero(f.size) }
}

/// Paths ascend strictly.
pub open spec fn sorted_by_path(s: Seq<EntryView>) -> bool {
    forall|i: int, j: int| 0 <= i < j < s.len() ==> path_lt(#[trigger] s[i].path, #[trigger] s[j].path)
}

/// What decides among indexed files with the same normalized path: the path as listed,
/// then the content hash, then the size.
pub open spec fn choice_key(f: SourceFile) -> (Seq<char>, Seq<char>, u64) {
    (f.path@, blake3_hex(f.contents@), size_or_zero(f.size))
}

/// Key `a` comes before key `b`: by the first part, then the second, then the third.
pub open spec fn key_lt(a: (Seq<char>, Seq<char>, u64), b: (Seq<char>, Seq<char>, u64)) -> bool {
    ||| path_lt(a.0, b.0)
    ||| (a.0 == b.0 && path_lt(a.1, b.1))
    ||| (a.0 == b.0 && a.1 == b.1 && a.2 < b.2)
}

/// `files[k]` is among the first `n` files, is indexed, and has the least key among the
/// indexed ones of those with its normalized path.
#[verifier::opaque]
pub open spec fn chosen(files: Seq<SourceFile>, n: int, k: int) -> bool {
    &&& 0 <= k < n <= files.len()
    &&& admitted(files[k])
    &&& forall|m: int|
        0 <= m < n && admitted(#[trigger] files[m]) && normalized(files[m].path@) == normalized(
            files[k].path@,
        ) ==> !key_lt(choice_key(files[m]), choice_key(files[k]))
}

/// `s` is the index of `files`: ascending by path, one entry for each distinct normalized
/// path among the indexed files, taken from the file with the least key among those with
/// that path, whatever the order of the listing.
pub open spec fn is_index_of(s: Seq<EntryView>, files: Seq<SourceFile>) -> bool {
    &&& sorted_by_path(s)
    &&& forall|j: int| 0 <= j < s.len() ==> from_chosen(files, files.len() as int, #[trigger] s[j])
    &&& forall|i: int|
        0 <= i < files.len() && admitted(#[trigger] files[i]) ==> has_path(s, normalized(files[i].path@))
}

/// Entry `e` is that of a file chosen among the first `n`.
pub open spec fn from_chosen(files: Seq<SourceFile>, n: int, e: EntryView) -> bool {
    exists|k: int| chosen(files, n, k) && e == entry_of(files[k])
}

/// Some entry of `s` has path `q`.
pub open spec fn has_path(s: Seq<EntryView>, q: Seq<char>) -> bool {
    exists|j: int| 0 <= j < s.len() && s[j].path == q
}

/// Whether the path lies in a directory that is never indexed.
pub fn should_exclude(rel: &str) -> (r: bool)
    ensures
        r == excluded_path(rel@),
{
    starts_with(rel, ".git/") || starts_with(rel, "target/") || starts_with(rel, "node_modules/")
        || starts_with(rel, ".codex/sdd/")
}

/// Whether a zero byte occurs among the first `BINARY_SNIFF_BYTES` bytes.
pub fn is_binary(data: &[u8]) -> (r: bool)
    ensures
        r == looks_binary(data@),
{
    let mut i: usize = 0;
    while i < data.len() && i < BINARY_SNIFF_BYTES
        invariant
            i <= data@.len(),
            i <= BINARY_SNIFF_BYTES,
            forall|k: int| 0 <= k < i ==> data@[k] != 0,
        decreases data.len() - i,
    {
        if data[i] == 0 {
            return true;
        }
        i += 1;
    }
    false
}

/// Whether the size, when known, is over the limit.
pub fn exceeds_size_limit(size: Option<u64>) -> (r: bool)
    ensures
        r == oversize(size),
{
    match size {
        Some(n) => n > MAX_FILE_BYTES,
        None => false,
    }
}

/// Whether the contents of a file with this path and size are read at all: they are not
/// for an excluded path or an oversize file.
pub fn needs_contents(rel: &str, size: Option<u64>) -> (r: bool)
    ensures
        r == (!excluded_path(rel@) && !oversize(size)),
{
    !should_exclude(rel) && !exceeds_size_limit(size)
}

/// The path with backslashes turned into forward slashes.
pub fn normalize_path(p: &str) -> (r: String)
    ensures
        r@ == normalized(p@),
{
    let pc = chars_of(p);
    let mut r = String::new();
    let mut i: usize = 0;
    while i < pc.len()
        invariant
            pc@ == p@,
            i <= pc.len(),
            r@ == normalized(p@).subrange(0, i as int),
        decreases pc.len() - i,
    {
        let c = pc[i];
        if c == '\\' {
            r.push('/');
        } else {
            r.push(c);
        }
        i += 1;
        assert(r@ =~= normalized(p@).subrange(0, i as int));
    }
    assert(r@ =~= normalized(p@));
    r
}

/// The position at which `path` belongs in `entries`, and whether an entry with that
/// path is already there.
fn find_slot(entries: &Vec<FileEntry>, path: &str) -> (r: (usize, bool))
    requires
        sorted_by_path(entries_view(entries@)),
    ensures
        r.0 <= entries@.len(),
        forall|j: int| 0 <= j < r.0 ==> path_lt(#[trigger] entries@[j].path@, path@),
        r.1 ==> r.0 < entries@.len() && entries@[r.0 as int].path@ == path@,
        !r.1 ==> forall|j: int| r.0 <= j < entries@.len() ==> path_lt(path@, #[trigger] entries@[j].path@),
        !r.1 ==> forall|j: int| 0 <= j < entries@.len() ==> #[trigger] entries@[j].path@ != path@,
{
    let ghost ev = entries_view(entries@);
    let mut p: usize = 0;
    while p < entries.len()
        invariant
            ev == entries_view(entries@),
            sorted_by_path(ev),
            p <= entries@.len(),
            forall|j: int| 0 <= j < p ==> path_lt(#[trigger] entries@[j].path@, path@),
        decreases entries.len() - p,
    {
        match compare_paths(entries[p].path.as_str(), path) {
            core::cmp::Ordering::Less => {
                p += 1;
            },
            core::cmp::Ordering::Equal => {
                return (p, true);
            },
            core::cmp::Ordering::Greater => {
                proof {
                    assert forall|j: int| p <= j < entries@.len() implies path_lt(
                        path@,
                        #[trigger] entries@[j].path@,
                    ) by {
                        if j > p {
                            assert(ev[p as int].path == entries@[p as int].path@);
                            assert(ev[j].path == entries@[j].path@);
                            assert(path_lt(ev[p as int].path, ev[j].path));
                            lemma_path_lt_transitive(path@, entries@[p as int].path@, entries@[j].path@);
                        }
                    }
                    assert forall|j: int| 0 <= j < entries@.len() implies #[trigger] entries@[j].path@ != path@ by {
                        lemma_path_lt_irreflexive(path@);
                    }
                }
                return (p, false);
            },
        }
    }
    proof {
        assert forall|j: int| 0 <= j < entries@.len() implies #[trigger] entries@[j].path@ != path@ by {
            lemma_path_lt_irreflexive(path@);
        }
    }
    (p, false)
}

/// The entry of one file.
fn entry_for(f: &SourceFile) -> (r: FileEntry)
    ensures
        r@ == entry_of(*f),
{
    reveal(entry_of);
    let path = normalize_path(f.path.as_str());
    let hash = digest_hex(f.contents.as_slice());
    let size = match f.size {
        Some(n) => n,
        None => 0,
    };
    FileEntry { path, hash, size }
}

/// The parts of an indexed file's entry.
proof fn lemma_entry_parts(f: SourceFile)
    ensures
        entry_of(f).path == normalized(f.path@),
        entry_of(f).hash == blake3_hex(f.contents@),
        entry_of(f).size == size_or_zero(f.size),
{
    reveal(entry_of);
}

/// `key_lt` is a strict total order.
proof fn lemma_key_order(a: (Seq<char>, Seq<char>, u64), b: (Seq<char>, Seq<char>, u64), c: (Seq<char>, Seq<char>, u64))
    ensures
        !key_lt(a, a),
        !(key_lt(a, b) && key_lt(b, a)),
        a == b || key_lt(a, b) || key_lt(b, a),
        key_lt(a, b) && key_lt(b, c) ==> key_lt(a, c),
{
    lemma_path_lt_irreflexive(a.0);
    lemma_path_lt_irreflexive(a.1);
    lemma_path_lt_total(a.0, b.0);
    lemma_path_lt_total(a.1, b.1);
    if key_lt(a, b) && key_lt(b, c) {
        if path_lt(a.0, b.0) && path_lt(b.0, c.0) {
            lemma_path_lt_transitive(a.0, b.0, c.0);
        }
        if a.0 == b.0 && b.0 == c.0 && path_lt(a.1, b.1) && path_lt(b.1, c.1) {
            lemma_path_lt_transitive(a.1, b.1, c.1);
        }
    }
    if a.0 == b.0 && a.1 == b.1 && a.2 == b.2 {
        assert(a == b);
    }
}

/// Entry `e`, listed under raw path `raw`, is that of a file chosen among the first `n`.
pub open spec fn picked(files: Seq<SourceFile>, n: int, e: EntryView, raw: Seq<char>) -> bool {
    exists|k: int| chosen(files, n, k) && e == entry_of(files[k]) && raw == files[k].path@
}

/// `s` is the index of the first `n` files of the listing, `raws` the raw paths of the
/// files its entries come from.
#[verifier::opaque]
pub open spec fn index_prefix(s: Seq<EntryView>, raws: Seq<Seq<char>>, files: Seq<SourceFile>, n: int) -> bool {
    &&& sorted_by_path(s)
    &&& raws.len() == s.len()
    &&& forall|j: int| 0 <= j < s.len() ==> picked(files, n, #[trigger] s[j], raws[j])
    &&& forall|k: int|
        0 <= k < n && admitted(#[trigger] files[k]) ==> has_path(s, normalized(files[k].path@))
}

proof fn lemma_prefix_sorted(s: Seq<EntryView>, raws: Seq<Seq<char>>, files: Seq<SourceFile>, n: int)
    requires
        index_prefix(s, raws, files, n),
    ensures
        sorted_by_path(s),
        raws.len() == s.len(),
        forall|j: int| 0 <= j < s.len() ==> picked(files, n, #[trigger] s[j], raws[j]),
{
    reveal(index_prefix);
}

proof fn lemma_chosen_step(files: Seq<SourceFile>, n: int, k: int)
    requires
        chosen(files, n, k),
        n < files.len(),
        !admitted(files[n]) || normalized(files[n].path@) != normalized(files[k].path@) || !key_lt(
            choice_key(files[n]),
            choice_key(files[k]),
        ),
    ensures
        chosen(files, n + 1, k),
{
    reveal(chosen);
}

proof fn lemma_picked_step(files: Seq<SourceFile>, n: int, e: EntryView, raw: Seq<char>)
    requires
        picked(files, n, e, raw),
        n < files.len(),
        !admitted(files[n]) || e.path != normalized(files[n].path@),
    ensures
        picked(files, n + 1, e, raw),
{
    let k = choose|k: int| chosen(files, n, k) && e == entry_of(files[k]) && raw == files[k].path@;
    lemma_entry_parts(files[k]);
    lemma_chosen_step(files, n, k);
}

/// The key of the file behind a picked entry, read off the entry and its raw path.
proof fn lemma_picked_key(files: Seq<SourceFile>, n: int, e: EntryView, raw: Seq<char>) -> (k: int)
    requires
        picked(files, n, e, raw),
    ensures
        chosen(files, n, k),
        e == entry_of(files[k]),
        choice_key(files[k]) == (raw, e.hash, e.size),
        e.path == normalized(files[k].path@),
{
    let k = choose|k: int| chosen(files, n, k) && e == entry_of(files[k]) && raw == files[k].path@;
    lemma_entry_parts(files[k]);
    k
}

/// Entries other than the one with path `q` keep being picked when file `n`, whose
/// normalized path is `q` where it is indexed, is read.
proof fn lemma_others_step(s: Seq<EntryView>, raws: Seq<Seq<char>>, files: Seq<SourceFile>, n: int, skip: int)
    requires
        0 <= n < files.len(),
        raws.len() == s.len(),
        forall|j: int| 0 <= j < s.len() ==> picked(files, n, #[trigger] s[j], raws[j]),
        forall|j: int|
            0 <= j < s.len() && j != skip ==> !admitted(files[n]) || #[trigger] s[j].path != normalized(
                files[n].path@,
            ),
    ensures
        forall|j: int| 0 <= j < s.len() && j != skip ==> picked(files, n + 1, #[trigger] s[j], raws[j]),
{
    assert forall|j: int| 0 <= j < s.len() && j != skip implies picked(files, n + 1, #[trigger] s[j], raws[j]) by {
        lemma_picked_step(files, n, s[j], raws[j]);
    }
}

proof fn lemma_prefix_not_indexed(s: Seq<EntryView>, raws: Seq<Seq<char>>, files: Seq<SourceFile>, n: int)
    requires
        0 <= n < files.len(),
        index_prefix(s, raws, files, n),
        !admitted(files[n]),
    ensures
        index_prefix(s, raws, files, n + 1),
{
    reveal(index_prefix);
    lemma_others_step(s, raws, files, n, -1);
    assert forall|k: int| 0 <= k < n + 1 && admitted(#[trigger] files[k]) implies has_path(
        s,
        normalized(files[k].path@),
    ) by {
    }
}

/// Paths of a strictly ascending sequence differ from the one at `p`.
proof fn lemma_sorted_distinct(s: Seq<EntryView>, p: int)
    requires
        sorted_by_path(s),
        0 <= p < s.len(),
    ensures
        forall|j: int| 0 <= j < s.len() && j != p ==> #[trigger] s[j].path != s[p].path,
{
    assert forall|j: int| 0 <= j < s.len() && j != p implies #[trigger] s[j].path != s[p].path by {
        lemma_path_lt_irreflexive(s[p].path);
    }
}

/// File `n` has the same normalized path as entry `p` and does not come before the file
/// behind it: nothing changes.
proof fn lemma_prefix_keep(s: Seq<EntryView>, raws: Seq<Seq<char>>, files: Seq<SourceFile>, n: int, p: int)
    requires
        0 <= n < files.len(),
        index_prefix(s, raws, files, n),
        admitted(files[n]),
        0 <= p < s.len(),
        s[p].path == normalized(files[n].path@),
        !key_lt(choice_key(files[n]), (raws[p], s[p].hash, s[p].size)),
    ensures
        index_prefix(s, raws, files, n + 1),
{
    reveal(index_prefix);
    lemma_sorted_distinct(s, p);
    lemma_others_step(s, raws, files, n, p);
    let k = lemma_picked_key(files, n, s[p], raws[p]);
    lemma_chosen_step(files, n, k);
    assert(picked(files, n + 1, s[p], raws[p]));
    assert forall|j: int| 0 <= j < s.len() implies picked(files, n + 1, #[trigger] s[j], raws[j]) by {
        if j != p {
        }
    }
    assert forall|m: int| 0 <= m < n + 1 && admitted(#[trigger] files[m]) implies has_path(
        s,
        normalized(files[m].path@),
    ) by {
        if m == n {
            assert(s[p].path == normalized(files[m].path@));
        }
    }
}

/// File `n` has the same normalized path as entry `p` and comes before the file behind
/// it: it takes that entry's place.
proof fn lemma_prefix_replace(s: Seq<EntryView>, raws: Seq<Seq<char>>, files: Seq<SourceFile>, n: int, p: int)
    requires
        0 <= n < files.len(),
        index_prefix(s, raws, files, n),
        admitted(files[n]),
        0 <= p < s.len(),
        s[p].path == normalized(files[n].path@),
        key_lt(choice_key(files[n]), (raws[p], s[p].hash, s[p].size)),
    ensures
        index_prefix(s.update(p, entry_of(files[n])), raws.update(p, files[n].path@), files, n + 1),
{
    reveal(index_prefix);
    let t = s.update(p, entry_of(files[n]));
    let rt = raws.update(p, files[n].path@);
    lemma_entry_parts(files[n]);
    lemma_sorted_distinct(s, p);
    lemma_others_step(s, raws, files, n, p);
    let k = lemma_picked_key(files, n, s[p], raws[p]);
    assert(chosen(files, n + 1, n)) by {
        reveal(chosen);
        assert forall|m: int|
            0 <= m < n + 1 && admitted(#[trigger] files[m]) && normalized(files[m].path@) == normalized(
                files[n].path@,
            ) implies !key_lt(choice_key(files[m]), choice_key(files[n])) by {
            lemma_key_order(choice_key(files[m]), choice_key(files[n]), choice_key(files[k]));
        }
    }
    assert forall|j: int| 0 <= j < t.len() implies picked(files, n + 1, #[trigger] t[j], rt[j]) by {
        if j == p {
            assert(chosen(files, n + 1, n) && t[j] == entry_of(files[n]) && rt[j] == files[n].path@);
        } else {
            assert(t[j] == s[j] && rt[j] == raws[j]);
        }
    }
    assert forall|a: int, b: int| 0 <= a < b < t.len() implies path_lt(#[trigger] t[a].path, #[trigger] t[b].path) by {
        assert(t[a].path == s[a].path && t[b].path == s[b].path);
    }
    assert forall|m: int| 0 <= m < n + 1 && admitted(#[trigger] files[m]) implies has_path(
        t,
        normalized(files[m].path@),
    ) by {
        if m < n {
            assert(has_path(s, normalized(files[m].path@)));
            let j = choose|j: int| 0 <= j < s.len() && s[j].path == normalized(files[m].path@);
            assert(t[j].path == s[j].path);
        } else {
            assert(t[p].path == normalized(files[m].path@));
        }
    }
}

proof fn lemma_insert_sorted(s: Seq<EntryView>, p: int, x: EntryView)
    requires
        sorted_by_path(s),
        0 <= p <= s.len(),
        forall|j: int| 0 <= j < p ==> path_lt(#[trigger] s[j].path, x.path),
        forall|j: int| p <= j < s.len() ==> path_lt(x.path, #[trigger] s[j].path),
    ensures
        sorted_by_path(s.insert(p, x)),
{
    let t = s.insert(p, x);
    assert forall|a: int, b: int| 0 <= a < b < t.len() implies path_lt(
        #[trigger] t[a].path,
        #[trigger] t[b].path,
    ) by {
        if b < p {
            assert(t[a] == s[a] && t[b] == s[b]);
        } else if a < p && b == p {
            assert(t[a] == s[a]);
        } else if a < p {
            assert(t[a] == s[a] && t[b] == s[b - 1]);
        } else if a == p {
            assert(t[b] == s[b - 1]);
        } else {
            assert(t[a] == s[a - 1] && t[b] == s[b - 1]);
        }
    }
}

/// No entry has the normalized path of file `n`: its entry goes in at `p`.
proof fn lemma_prefix_insert(s: Seq<EntryView>, raws: Seq<Seq<char>>, files: Seq<SourceFile>, n: int, p: int)
    requires
        0 <= n < files.len(),
        index_prefix(s, raws, files, n),
        admitted(files[n]),
        0 <= p <= s.len(),
        forall|j: int| 0 <= j < p ==> path_lt(#[trigger] s[j].path, normalized(files[n].path@)),
        forall|j: int| p <= j < s.len() ==> path_lt(normalized(files[n].path@), #[trigger] s[j].path),
        forall|j: int| 0 <= j < s.len() ==> #[trigger] s[j].path != normalized(files[n].path@),
    ensures
        index_prefix(s.insert(p, entry_of(files[n])), raws.insert(p, files[n].path@), files, n + 1),
{
    reveal(index_prefix);
    let x = entry_of(files[n]);
    let t = s.insert(p, x);
    let rt = raws.insert(p, files[n].path@);
    let q = normalized(files[n].path@);
    lemma_entry_parts(files[n]);
    lemma_others_step(s, raws, files, n, -1);
    assert(chosen(files, n + 1, n)) by {
        reveal(chosen);
        assert forall|m: int|
            0 <= m < n + 1 && admitted(#[trigger] files[m]) && normalized(files[m].path@) == q implies !key_lt(
            choice_key(files[m]),
            choice_key(files[n]),
        ) by {
            if m < n {
                assert(has_path(s, normalized(files[m].path@)));
            } else {
                lemma_key_order(choice_key(files[n]), choice_key(files[n]), choice_key(files[n]));
            }
        }
    }
    lemma_insert_sorted(s, p, x);
    assert forall|j: int| 0 <= j < t.len() implies picked(files, n + 1, #[trigger] t[j], rt[j]) by {
        if j == p {
            assert(chosen(files, n + 1, n) && t[j] == entry_of(files[n]) && rt[j] == files[n].path@);
        } else if j < p {
            assert(t[j] == s[j] && rt[j] == raws[j]);
        } else {
            assert(t[j] == s[j - 1] && rt[j] == raws[j - 1]);
        }
    }
    assert forall|m: int| 0 <= m < n + 1 && admitted(#[trigger] files[m]) implies has_path(
        t,
        normalized(files[m].path@),
    ) by {
        if m < n {
            assert(has_path(s, normalized(files[m].path@)));
            let j0 = choose|j0: int| 0 <= j0 < s.len() && s[j0].path == normalized(files[m].path@);
            if j0 < p {
                assert(t[j0] == s[j0]);
            } else {
                assert(t[j0 + 1] == s[j0]);
            }
        } else {
            assert(t[p] == x);
        }
    }
}

proof fn lemma_prefix_whole(s: Seq<EntryView>, raws: Seq<Seq<char>>, files: Seq<SourceFile>)
    requires
        index_prefix(s, raws, files, files.len() as int),
    ensures
        is_index_of(s, files),
{
    reveal(index_prefix);
    assert forall|j: int| 0 <= j < s.len() implies from_chosen(files, files.len() as int, #[trigger] s[j]) by {
        assert(picked(files, files.len() as int, s[j], raws[j]));
    }
}

/// Whether key `a` comes before key `b`.
fn key_less(a_raw: &str, a_hash: &str, a_size: u64, b_raw: &str, b_hash: &str, b_size: u64) -> (r: bool)
    ensures
        r == key_lt((a_raw@, a_hash@, a_size), (b_raw@, b_hash@, b_size)),
{
    match compare_paths(a_raw, b_raw) {
        core::cmp::Ordering::Less => true,
        core::cmp::Ordering::Greater => {
            proof {
                lemma_path_lt_total(a_raw@, b_raw@);
            }
            false
        },
        core::cmp::Ordering::Equal => match compare_paths(a_hash, b_hash) {
            core::cmp::Ordering::Less => true,
            core::cmp::Ordering::Greater => {
                proof {
                    lemma_path_lt_total(a_hash@, b_hash@);
                    lemma_path_lt_irreflexive(a_raw@);
                }
                false
            },
            core::cmp::Ordering::Equal => {
                proof {
                    lemma_path_lt_irreflexive(a_raw@);
                    lemma_path_lt_irreflexive(a_hash@);
                }
                a_size < b_size
            },
        },
    }
}

/// The index of a listing of files: the indexed files, one entry for each distinct
/// normalized path, taken from the file with the least key among those with that path,
/// ascending by path.
pub fn index_entries(files: &Vec<SourceFile>) -> (r: Vec<FileEntry>)
    ensures
        is_index_of(entries_view(r@), files@),
{
    let mut r: Vec<FileEntry> = Vec::new();
    let mut raws: Vec<String> = Vec::new();
    proof {
        reveal(index_prefix);
    }
    let mut i: usize = 0;
    while i < files.len()
        invariant
            i <= files@.len(),
            index_prefix(entries_view(r@), texts_view(raws@), files@, i as int),
        decreases files.len() - i,
    {
        let f = &files[i];
        let ghost old_ev = entries_view(r@);
        let ghost old_rv = texts_view(raws@);
        proof {
            lemma_prefix_sorted(old_ev, old_rv, files@, i as int);
            reveal(admitted);
        }
        if !should_exclude(f.path.as_str()) && !exceeds_size_limit(f.size) && !is_binary(
            f.contents.as_slice(),
        ) {
            let e = entry_for(f);
            proof {
                lemma_entry_parts(files@[i as int]);
            }
            let (p, present) = find_slot(&r, e.path.as_str());
            if !present {
                proof {
                    assert forall|j: int| 0 <= j < p implies path_lt(
                        #[trigger] old_ev[j].path,
                        normalized(files@[i as int].path@),
                    ) by {
                        assert(old_ev[j].path == r@[j].path@);
                    }
                    assert forall|j: int| p <= j < old_ev.len() implies path_lt(
                        normalized(files@[i as int].path@),
                        #[trigger] old_ev[j].path,
                    ) by {
                        assert(old_ev[j].path == r@[j].path@);
                    }
                    assert forall|j: int| 0 <= j < old_ev.len() implies #[trigger] old_ev[j].path
                        != normalized(files@[i as int].path@) by {
                        assert(old_ev[j].path == r@[j].path@);
                    }
                    lemma_prefix_insert(old_ev, old_rv, files@, i as int, p as int);
                }
                let raw = copy_text(f.path.as_str());
                r.insert(p, e);
                raws.insert(p, raw);
                assert(entries_view(r@) =~= old_ev.insert(p as int, entry_of(files@[i as int])));
                assert(texts_view(raws@) =~= old_rv.insert(p as int, files@[i as int].path@));
            } else {
                let cur = &r[p];
                assert(old_ev[p as int] == cur@);
                assert(old_rv[p as int] == raws@[p as int]@);
                if key_less(
                    f.path.as_str(),
                    e.hash.as_str(),
                    e.size,
                    raws[p].as_str(),
                    cur.hash.as_str(),
                    cur.size,
                ) {
                    proof {
                        lemma_prefix_replace(old_ev, old_rv, files@, i as int, p as int);
                    }
                    let raw = copy_text(f.path.as_str());
                    r.set(p, e);
                    raws.set(p, raw);
                    assert(entries_view(r@) =~= old_ev.update(p as int, entry_of(files@[i as int])));
                    assert(texts_view(raws@) =~= old_rv.update(p as int, files@[i as int].path@));
                } else {
                    proof {
                        lemma_prefix_keep(old_ev, old_rv, files@, i as int, p as int);
                    }
                }
            }
        } else {
            proof {
                lemma_prefix_not_indexed(old_ev, old_rv, files@, i as int);
            }
        }
        i += 1;
    }
    proof {
        lemma_prefix_whole(entries_view(r@), texts_view(raws@), files@);
    }
    r
}

/// The bytes that the aggregate digest is taken over: for each entry in order, the UTF-8
/// bytes of its path, then those of its hash.
pub open spec fn pair_bytes(s: Seq<EntryView>) -> Seq<u8>
    decreases s.len(),
{
    if s.len() == 0 {
        Seq::empty()
    } else {
        pair_bytes(s.drop_last()) + encode_utf8(s.last().path) + encode_utf8(s.last().hash)
    }
}

/// The aggregate digest of a sequence of entries.
pub open spec fn aggregate_digest(s: Seq<EntryView>) -> Seq<char> {
    blake3_hex(pair_bytes(s))
}

/// The listing of an index: each path followed by a newline.
pub open spec fn tree_text(s: Seq<EntryView>) -> Seq<char>
    decreases s.len(),
{
    if s.len() == 0 {
        Seq::empty()
    } else {
        tree_text(s.drop_last()) + s.last().path.push('\n')
    }
}

/// Appends bytes to a buffer.
fn push_bytes(buf: &mut Vec<u8>, b: &[u8])
    ensures
        final(buf)@ == old(buf)@ + b@,
{
    let ghost start = buf@;
    let mut i: usize = 0;
    while i < b.len()
        invariant
            i <= b@.len(),
            buf@ == start + b@.subrange(0, i as int),
        decreases b.len() - i,
    {
        buf.push(b[i]);
        i += 1;
        assert(buf@ =~= start + b@.subrange(0, i as int));
    }
    assert(b@.subrange(0, i as int) =~= b@);
}

/// The aggregate digest over the entries, in their order: a change detection key.
pub fn shard_hash(entries: &[FileEntry]) -> (r: String)
    ensures
        r@ == aggregate_digest(entries_view(entries@)),
{
    let mut buf: Vec<u8> = Vec::new();
    let mut i: usize = 0;
    while i < entries.len()
        invariant
            i <= entries@.len(),
            buf@ == pair_bytes(entries_view(entries@.subrange(0, i as int))),
        decreases entries.len() - i,
    {
        let e = &entries[i];
        push_bytes(&mut buf, e.path.as_str().as_bytes());
        push_bytes(&mut buf, e.hash.as_str().as_bytes());
        proof {
            let pre = entries_view(entries@.subrange(0, i as int));
            let cur = entries_view(entries@.subrange(0, i + 1));
            assert(cur.drop_last() =~= pre);
            assert(cur.last() == e@);
        }
        i += 1;
    }
    assert(entries@.subrange(0, i as int) =~= entries@);
    digest_hex(buf.as_slice())
}

/// The aggregate digest of the whole index.
fn hash_index(index: &FileIndex) -> (r: String)
    ensures
        r@ == aggregate_digest(index@),
{
    shard_hash(index.files.as_slice())
}

/// The listing of the index: each path on a line of its own.
pub fn build_repo_tree(index: &FileIndex) -> (r: String)
    ensures
        r@ == tree_text(index@),
{
    let mut out = String::new();
    let mut i: usize = 0;
    while i < index.files.len()
        invariant
            i <= index.files@.len(),
            out@ == tree_text(entries_view(index.files@.subrange(0, i as int))),
        decreases index.files.len() - i,
    {
        let e = &index.files[i];
        push_text(&mut out, e.path.as_str());
        out.push('\n');
        proof {
            let pre = entries_view(index.files@.subrange(0, i as int));
            let cur = entries_view(index.files@.subrange(0, i + 1));
            assert(cur.drop_last() =~= pre);
            assert(cur.last() == e@);
            assert(out@ =~= tree_text(cur));
        }
        i += 1;
    }
    assert(index.files@.subrange(0, i as int) =~= index.files@);
    out
}

/// The map from each path of the index to its hash.
fn path_hashes(s: &Vec<FileEntry>) -> (r: Table<String>)
    requires
        sorted_by_path(entries_view(s@)),
    ensures
        r.wf(),
        forall|k: Seq<char>| r@.contains_key(k) <==> has_path(entries_view(s@), k),
        forall|j: int|
            0 <= j < s@.len() ==> (#[trigger] r@[s@[j].path@])@ == s@[j].hash@,
{
    let ghost ev = entries_view(s@);
    let mut r: Table<String> = Table::new();
    let mut i: usize = 0;
    while i < s.len()
        invariant
            ev == entries_view(s@),
            sorted_by_path(ev),
            i <= s@.len(),
            r.wf(),
            forall|k: Seq<char>|
                r@.contains_key(k) <==> exists|j: int| 0 <= j < i && ev[j].path == k,
            forall|j: int| 0 <= j < i ==> (#[trigger] r@[s@[j].path@])@ == s@[j].hash@,
        decreases s.len() - i,
    {
        let e = &s[i];
        proof {
            assert forall|j: int| 0 <= j < i implies s@[j].path@ != e.path@ by {
                assert(ev[j].path == s@[j].path@);
                assert(ev[i as int].path == e.path@);
                assert(path_lt(ev[j].path, ev[i as int].path));
                lemma_path_lt_irreflexive(e.path@);
            }
        }
        r.insert(copy_text(e.path.as_str()), copy_text(e.hash.as_str()));
        proof {
            assert forall|k: Seq<char>| r@.contains_key(k) <==> exists|j: int|
                0 <= j < i + 1 && ev[j].path == k by {
                if k == e.path@ {
                    assert(ev[i as int].path == k);
                }
            }
        }
        i += 1;
    }
    proof {
        assert forall|k: Seq<char>| r@.contains_key(k) <==> has_path(ev, k) by {
            if has_path(ev, k) {
                let j = choose|j: int| 0 <= j < ev.len() && ev[j].path == k;
                assert(0 <= j < i && ev[j].path == k);
            }
        }
    }
    r
}

/// Builds the index of a listing of files: which files are indexed, their entries in
/// ascending path order, the listing text, the map from path to hash, and the aggregate
/// digest over all (path, hash) pairs in order.
pub fn build_index(files: &Vec<SourceFile>) -> (r: IndexResult)
    ensures
        is_index_of(r.index@, files@),
        r.index_hash@ == aggregate_digest(r.index@),
        r.repo_tree@ == tree_text(r.index@),
        r.file_hashes.wf(),
        forall|k: Seq<char>| r.file_hashes@.contains_key(k) <==> has_path(r.index@, k),
        forall|j: int|
            0 <= j < r.index@.len() ==> (#[trigger] r.file_hashes@[r.index@[j].path])@
                == r.index@[j].hash,
{
    let entries = index_entries(files);
    let file_hashes = path_hashes(&entries);
    let index = FileIndex { files: entries };
    let index_hash = hash_index(&index);
    let repo_tree = build_repo_tree(&index);
    proof {
        assert forall|j: int| 0 <= j < index@.len() implies (#[trigger] file_hashes@[index@[j].path])@
            == index@[j].hash by {
            assert(index@[j] == index.files@[j]@);
        }
    }
    IndexResult { index, repo_tree, file_hashes, index_hash }
}

/// Two sequences ascending strictly by path, each of whose entries occurs in the other,
/// are equal.
pub proof fn lemma_sorted_same_entries(a: Seq<EntryView>, b: Seq<EntryView>)
    requires
        sorted_by_path(a),
        sorted_by_path(b),
        forall|i: int| 0 <= i < a.len() ==> b.contains(#[trigger] a[i]),
        forall|j: int| 0 <= j < b.len() ==> a.contains(#[trigger] b[j]),
    ensures
        a == b,
    decreases a.len(),
{
    if a.len() == 0 {
        if b.len() > 0 {
            assert(a.contains(b[0]));
        }
        assert(a =~= b);
    } else {
        assert(b.contains(a[0]));
        let j = choose|j: int| 0 <= j < b.len() && b[j] == a[0];
        assert(a.contains(b[0]));
        let i = choose|i: int| 0 <= i < a.len() && a[i] == b[0];
        if j > 0 {
            assert(path_lt(b[0].path, b[j].path));
            if i > 0 {
                assert(path_lt(a[0].path, a[i].path));
                lemma_path_lt_total(a[0].path, a[i].path);
            } else {
                lemma_path_lt_irreflexive(a[0].path);
            }
        }
        assert(a[0] == b[0]);
        let ta = a.drop_first();
        let tb = b.drop_first();
        assert forall|x: int| 0 <= x < ta.len() implies tb.contains(#[trigger] ta[x]) by {
            assert(ta[x] == a[x + 1]);
            assert(b.contains(a[x + 1]));
            let y = choose|y: int| 0 <= y < b.len() && b[y] == a[x + 1];
            assert(path_lt(a[0].path, a[x + 1].path));
            if y == 0 {
                lemma_path_lt_irreflexive(a[0].path);
            }
            assert(tb[y - 1] == ta[x]);
        }
        assert forall|y: int| 0 <= y < tb.len() implies ta.contains(#[trigger] tb[y]) by {
            assert(tb[y] == b[y + 1]);
            assert(a.contains(b[y + 1]));
            let x = choose|x: int| 0 <= x < a.len() && a[x] == b[y + 1];
            assert(path_lt(b[0].path, b[y + 1].path));
            if x == 0 {
                lemma_path_lt_irreflexive(b[0].path);
            }
            assert(ta[x - 1] == tb[y]);
        }
        lemma_sorted_same_entries(ta, tb);
        assert(a =~= seq![a[0]] + ta);
        assert(b =~= seq![b[0]] + tb);
    }
}

/// Two files chosen for the same normalized path have the same key, hence the same entry.
proof fn lemma_chosen_same_entry(f1: Seq<SourceFile>, k1: int, f2: Seq<SourceFile>, k2: int, m1: int, m2: int)
    requires
        chosen(f1, f1.len() as int, k1),
        chosen(f2, f2.len() as int, k2),
        normalized(f1[k1].path@) == normalized(f2[k2].path@),
        0 <= m1 < f1.len(),
        f1[m1] == f2[k2],
        0 <= m2 < f2.len(),
        f2[m2] == f1[k1],
    ensures
        entry_of(f1[k1]) == entry_of(f2[k2]),
{
    reveal(chosen);
    assert(admitted(f1[m1]));
    assert(admitted(f2[m2]));
    assert(!key_lt(choice_key(f1[m1]), choice_key(f1[k1])));
    assert(!key_lt(choice_key(f2[m2]), choice_key(f2[k2])));
    lemma_key_order(choice_key(f1[k1]), choice_key(f2[k2]), choice_key(f2[k2]));
    reveal(entry_of);
}

proof fn lemma_index_contains_across(
    s1: Seq<EntryView>,
    f1: Seq<SourceFile>,
    s2: Seq<EntryView>,
    f2: Seq<SourceFile>,
)
    requires
        is_index_of(s1, f1),
        is_index_of(s2, f2),
        forall|i: int| 0 <= i < f1.len() ==> f2.contains(#[trigger] f1[i]),
        forall|i: int| 0 <= i < f2.len() ==> f1.contains(#[trigger] f2[i]),
    ensures
        forall|i: int| 0 <= i < s1.len() ==> s2.contains(#[trigger] s1[i]),
{
    assert forall|i: int| 0 <= i < s1.len() implies s2.contains(#[trigger] s1[i]) by {
        assert(from_chosen(f1, f1.len() as int, s1[i]));
        let k = choose|k: int| chosen(f1, f1.len() as int, k) && s1[i] == entry_of(f1[k]);
        assert(admitted(f1[k]) && 0 <= k < f1.len()) by {
            reveal(chosen);
        }
        assert(f2.contains(f1[k]));
        let m2 = choose|m2: int| 0 <= m2 < f2.len() && f2[m2] == f1[k];
        assert(has_path(s2, normalized(f2[m2].path@)));
        let j = choose|j: int| 0 <= j < s2.len() && s2[j].path == normalized(f2[m2].path@);
        assert(from_chosen(f2, f2.len() as int, s2[j]));
        let k2 = choose|k2: int| chosen(f2, f2.len() as int, k2) && s2[j] == entry_of(f2[k2]);
        lemma_entry_parts(f2[k2]);
        assert(0 <= k2 < f2.len()) by {
            reveal(chosen);
        }
        assert(f1.contains(f2[k2]));
        let m1 = choose|m1: int| 0 <= m1 < f1.len() && f1[m1] == f2[k2];
        lemma_chosen_same_entry(f1, k, f2, k2, m1, m2);
        assert(s2[j] == s1[i]);
    }
}

/// Determinism, whatever the listing order: listings that hold the same files, in any
/// order, have the same index, listing text and aggregate digest; so do two builds over
/// one listing.
pub proof fn lemma_index_order_free(f1: Seq<SourceFile>, f2: Seq<SourceFile>, s1: Seq<EntryView>, s2: Seq<EntryView>)
    requires
        is_index_of(s1, f1),
        is_index_of(s2, f2),
        forall|i: int| 0 <= i < f1.len() ==> f2.contains(#[trigger] f1[i]),
        forall|i: int| 0 <= i < f2.len() ==> f1.contains(#[trigger] f2[i]),
    ensures
        s1 == s2,
        aggregate_digest(s1) == aggregate_digest(s2),
        tree_text(s1) == tree_text(s2),
{
    lemma_index_contains_across(s1, f1, s2, f2);
    lemma_index_contains_across(s2, f2, s1, f1);
    lemma_sorted_same_entries(s1, s2);
}

/// Determinism: the index of a listing is fully determined by it, so two builds over the
/// same files yield the same entries, the same listing text and the same aggregate digest.
pub proof fn lemma_index_deterministic(files: Seq<SourceFile>, s1: Seq<EntryView>, s2: Seq<EntryView>)
    requires
        is_index_of(s1, files),
        is_index_of(s2, files),
    ensures
        s1 == s2,
        aggregate_digest(s1) == aggregate_digest(s2),
        tree_text(s1) == tree_text(s2),
{
    lemma_index_order_free(files, files, s1, s2);
}

/// `e` is the entry of a listed file whose path is not under an excluded directory, whose
/// size is within the limit, and which has no zero byte among its first bytes.
pub open spec fn entry_of_clean_file(files: Seq<SourceFile>, e: EntryView) -> bool {
    exists|i: int|
        0 <= i < files.len() && e == entry_of(files[i]) && !excluded_path(files[i].path@) && !oversize(
            files[i].size,
        ) && !looks_binary(files[i].contents@)
}

/// Exclusion: every entry of the index is the entry of a listed file that is not under an
/// excluded directory, not over the size limit, and not binary.
pub proof fn lemma_index_excludes(files: Seq<SourceFile>, s: Seq<EntryView>)
    requires
        is_index_of(s, files),
    ensures
        forall|j: int| 0 <= j < s.len() ==> entry_of_clean_file(files, #[trigger] s[j]),
{
    assert forall|j: int| 0 <= j < s.len() implies entry_of_clean_file(files, #[trigger] s[j]) by {
        assert(from_chosen(files, files.len() as int, s[j]));
        let k = choose|k: int| chosen(files, files.len() as int, k) && s[j] == entry_of(files[k]);
        reveal(admitted);
        reveal(chosen);
        assert(admitted(files[k]));
        assert(0 <= k < files.len() && s[j] == entry_of(files[k]) && !excluded_path(files[k].path@)
            && !oversize(files[k].size) && !looks_binary(files[k].contents@));
    }
}

/// Sizes: where each listed file's size is the length of its contents, every entry's size
/// is the length of the contents of a listed file, and at most `MAX_FILE_BYTES`.
pub proof fn lemma_index_sizes(files: Seq<SourceFile>, s: Seq<EntryView>)
    requires
        is_index_of(s, files),
        forall|i: int|
            0 <= i < files.len() ==> (#[trigger] files[i]).size == Some(files[i].contents@.len() as u64)
                && files[i].contents@.len() <= u64::MAX,
    ensures
        forall|j: int|
            0 <= j < s.len() ==> (#[trigger] s[j]).size <= MAX_FILE_BYTES && exists|i: int|
                0 <= i < files.len() && s[j] == entry_of(files[i]) && s[j].size == files[i].contents@.len(),
{
    assert forall|j: int| 0 <= j < s.len() implies (#[trigger] s[j]).size <= MAX_FILE_BYTES && exists|i: int|
        0 <= i < files.len() && s[j] == entry_of(files[i]) && s[j].size == files[i].contents@.len() by {
        assert(from_chosen(files, files.len() as int, s[j]));
        let k = choose|k: int| chosen(files, files.len() as int, k) && s[j] == entry_of(files[k]);
        lemma_entry_parts(files[k]);
        reveal(admitted);
        reveal(chosen);
        assert(files[k].size == Some(files[k].contents@.len() as u64));
        assert(0 <= k < files.len() && s[j] == entry_of(files[k]) && s[j].size == files[k].contents@.len());
    }
}

/// Exclusion, path by path: where no other listed file has the same normalized path, a
/// file that is under an excluded directory, over the size limit, or has a zero byte among
/// its first bytes has no entry with its path.
pub proof fn lemma_excluded_path_absent(files: Seq<SourceFile>, s: Seq<EntryView>, i: int)
    requires
        is_index_of(s, files),
        0 <= i < files.len(),
        excluded_path(files[i].path@) || oversize(files[i].size) || looks_binary(files[i].contents@),
        forall|k: int|
            0 <= k < files.len() && k != i ==> normalized(#[trigger] files[k].path@) != normalized(
                files[i].path@,
            ),
    ensures
        !has_path(s, normalized(files[i].path@)),
{
    if has_path(s, normalized(files[i].path@)) {
        let j = choose|j: int| 0 <= j < s.len() && s[j].path == normalized(files[i].path@);
        assert(from_chosen(files, files.len() as int, s[j]));
        let k = choose|k: int| chosen(files, files.len() as int, k) && s[j] == entry_of(files[k]);
        lemma_entry_parts(files[k]);
        reveal(admitted);
        reveal(chosen);
        assert(k != i);
    }
}

/// The text that `String::from_utf8_lossy` makes of a byte sequence.
pub uninterp spec fn lossy_text(b: Seq<u8>) -> Seq<char>;

/// Relies on `String::from_utf8_lossy`: the bytes decoded as UTF-8, invalid sequences
/// replaced; the result depends on the bytes alone.
#[verifier::external_body]
fn text_from_bytes(b: &[u8]) -> (r: String)
    ensures
        r@ == lossy_text(b@),
{
    String::from_utf8_lossy(b).to_string()
}

/// The NUL-separated pieces read so far, and the piece still open.
pub open spec fn nul_scan(d: Seq<u8>) -> (Seq<Seq<u8>>, Seq<u8>)
    decreases d.len(),
{
    if d.len() == 0 {
        (Seq::empty(), Seq::empty())
    } else {
        let (w, cur) = nul_scan(d.drop_last());
        if d.last() == 0 {
            if cur.len() > 0 {
                (w.push(cur), Seq::empty())
            } else {
                (w, Seq::empty())
            }
        } else {
            (w, cur.push(d.last()))
        }
    }
}

/// The non-empty pieces of `d` between zero bytes, as text.
pub open spec fn nul_items(d: Seq<u8>) -> Seq<Seq<char>> {
    let (w, cur) = nul_scan(d);
    let pieces = if cur.len() > 0 {
        w.push(cur)
    } else {
        w
    };
    pieces.map_values(|p: Seq<u8>| lossy_text(p))
}

pub open spec fn texts_view(v: Seq<String>) -> Seq<Seq<char>> {
    v.map_values(|s: String| s@)
}

/// The non-empty NUL-separated items of a listing, as text.
pub fn split_nul(data: &[u8]) -> (r: Vec<String>)
    ensures
        texts_view(r@) == nul_items(data@),
{
    let mut r: Vec<String> = Vec::new();
    let mut cur: Vec<u8> = Vec::new();
    let mut i: usize = 0;
    while i < data.len()
        invariant
            i <= data@.len(),
            texts_view(r@) == nul_scan(data@.take(i as int)).0.map_values(|p: Seq<u8>| lossy_text(p)),
            cur@ == nul_scan(data@.take(i as int)).1,
        decreases data.len() - i,
    {
        let ghost pre = data@.take(i as int);
        assert(data@.take(i + 1).drop_last() =~= pre);
        let b = data[i];
        if b == 0 {
            if cur.len() > 0 {
                let t = text_from_bytes(cur.as_slice());
                let ghost before = r@;
                r.push(t);
                assert(texts_view(r@) =~= texts_view(before).push(t@));
                assert(nul_scan(data@.take(i + 1)).0.map_values(|p: Seq<u8>| lossy_text(p)) =~= nul_scan(
                    pre,
                ).0.map_values(|p: Seq<u8>| lossy_text(p)).push(lossy_text(cur@)));
            }
            cur = Vec::new();
        } else {
            cur.push(b);
        }
        i += 1;
    }
    assert(data@.take(i as int) =~= data@);
    if cur.len() > 0 {
        let t = text_from_bytes(cur.as_slice());
        let ghost before = r@;
        r.push(t);
        assert(texts_view(r@) =~= texts_view(before).push(t@));
        assert(nul_items(data@) =~= nul_scan(data@).0.map_values(|p: Seq<u8>| lossy_text(p)).push(lossy_text(cur@)));
    }
    r
}

/// Why the index could not be built.
pub enum IndexError {
    /// The version-controlled files could not be listed.
    ListingFailed,
}

impl IndexError {
    pub fn message(&self) -> (r: String)
        ensures
            r@ == "failed to list git files"@,
    {
        match self {
            IndexError::ListingFailed => copy_text("failed to list git files"),
        }
    }
}

/// The files to index: the version-controlled ones (`listing`, NUL-separated), then the
/// untracked ones where they were asked for and listed; when the version-controlled files
/// could not be listed, nothing can be indexed.
pub fn listed_files(listing_ok: bool, listing: &[u8], untracked: Option<&[u8]>) -> (r: Result<Vec<String>, IndexError>)
    ensures
        r is Ok <==> listing_ok,
        r matches Ok(v) ==> texts_view(v@) == nul_items(listing@) + match untracked {
            Some(u) => nul_items(u@),
            None => Seq::empty(),
        },
{
    if !listing_ok {
        return Err(IndexError::ListingFailed);
    }
    let mut files = split_nul(listing);
    match untracked {
        Some(u) => {
            let more = split_nul(u);
            let ghost head = files@;
            let mut i: usize = 0;
            while i < more.len()
                invariant
                    i <= more@.len(),
                    texts_view(files@) == texts_view(head) + texts_view(more@).take(i as int),
                decreases more.len() - i,
            {
                let c = copy_text(more[i].as_str());
                let ghost before = files@;
                files.push(c);
                assert(texts_view(files@) =~= texts_view(before).push(c@));
                assert(texts_view(more@).take(i + 1) =~= texts_view(more@).take(i as int).push(more@[i as int]@));
                i += 1;
            }
            assert(texts_view(more@).take(i as int) =~= texts_view(more@));
        },
        None => {
            assert(texts_view(files@) + Seq::<Seq<char>>::empty() =~= texts_view(files@));
        },
    }
    Ok(files)
}

} // verus!
