//! Partitioning an index into contiguous shards.
use vstd::prelude::*;

use crate::index::{entries_view, EntryView, FileEntry, FileIndex};
use crate::text::copy_text;

verus! {

/// The number of entries per shard: `len / n` rounded up.
pub open spec fn chunk_len(len: nat, n: nat) -> nat {
    if n == 0 {
        0
    } else if len % n == 0 {
        len / n
    } else {
        len / n + 1
    }
}

/// Where shard `i` of `n` starts in an index of `len` entries.
pub open spec fn shard_start(len: nat, n: nat, i: int) -> int {
    let at = i * chunk_len(len, n);
    if at < len {
        at
    } else {
        len as int
    }
}

/// Shard `i` of `n`: the entries from its start up to the start of the next one.
pub open spec fn shard_of(s: Seq<EntryView>, n: nat, i: int) -> Seq<EntryView> {
    s.subrange(shard_start(s.len(), n, i), shard_start(s.len(), n, i + 1))
}

/// The first `m` shards of `n`, one after the other.
pub open spec fn concat_shards(s: Seq<EntryView>, n: nat, m: nat) -> Seq<EntryView>
    decreases m,
{
    if m == 0 {
        Seq::empty()
    } else {
        concat_shards(s, n, (m - 1) as nat) + shard_of(s, n, m - 1)
    }
}

proof fn lemma_start_step(len: nat, n: nat, i: int)
    requires
        i >= 0,
        n > 0,
    ensures
        0 <= shard_start(len, n, i) <= shard_start(len, n, i + 1) <= len,
        shard_start(len, n, i + 1) == if chunk_len(len, n) > len - shard_start(len, n, i) {
            len as int
        } else {
            shard_start(len, n, i) + chunk_len(len, n)
        },
{
    let c = chunk_len(len, n) as int;
    assert((i + 1) * c == i * c + c) by (nonlinear_arith);
    assert(i * c >= 0) by (nonlinear_arith)
        requires
            i >= 0,
            c >= 0,
    ;
}

proof fn lemma_last_start(len: nat, n: nat)
    requires
        n > 0,
    ensures
        shard_start(len, n, n as int) == len,
{
    let c = chunk_len(len, n) as int;
    let q = (len / n) as int;
    let r = (len % n) as int;
    assert(len == n * q + r) by (nonlinear_arith)
        requires
            n > 0,
            q == len / n,
            r == len % n,
    ;
    assert(0 <= r < n);
    if r == 0 {
        assert(n * c == n * q);
    } else {
        assert(n * c == n * q + n) by (nonlinear_arith)
            requires
                c == q + 1,
        ;
    }
}

proof fn lemma_concat_prefix(s: Seq<EntryView>, n: nat, m: nat)
    requires
        n > 0,
    ensures
        concat_shards(s, n, m) == s.subrange(0, shard_start(s.len(), n, m as int)),
    decreases m,
{
    if m > 0 {
        lemma_concat_prefix(s, n, (m - 1) as nat);
        lemma_start_step(s.len(), n, m - 1);
        lemma_start_step(s.len(), n, 0);
        assert(shard_start(s.len(), n, 0) == 0);
        let a = shard_start(s.len(), n, m - 1);
        let b = shard_start(s.len(), n, m as int);
        assert(s.subrange(0, a) + s.subrange(a, b) =~= s.subrange(0, b));
    } else {
        assert(s.subrange(0, 0) =~= Seq::<EntryView>::empty());
    }
}

/// Coverage: for any shard count `n >= 1`, the shards taken in order reproduce the index
/// exactly, every entry once, in its order; shards past the end are empty.
pub proof fn lemma_shards_cover(s: Seq<EntryView>, n: nat)
    requires
        n >= 1,
    ensures
        concat_shards(s, n, n) == s,
        forall|i: int| 0 <= i < n && chunk_len(s.len(), n) * i >= s.len() ==> #[trigger] shard_of(s, n, i).len() == 0,
{
    lemma_concat_prefix(s, n, n);
    lemma_last_start(s.len(), n);
    assert(s.subrange(0, s.len() as int) =~= s);
    assert forall|i: int| 0 <= i < n && chunk_len(s.len(), n) * i >= s.len() implies #[trigger] shard_of(s, n, i).len() == 0 by {
        lemma_start_step(s.len(), n, i);
        assert(i * chunk_len(s.len(), n) == chunk_len(s.len(), n) * i);
    }
}

/// A copy of an entry.
fn copy_entry(e: &FileEntry) -> (r: FileEntry)
    ensures
        r@ == e@,
{
    FileEntry { path: copy_text(e.path.as_str()), hash: copy_text(e.hash.as_str()), size: e.size }
}

/// Copies of the entries from `start` up to `end`.
fn copy_range(files: &Vec<FileEntry>, start: usize, end: usize) -> (r: Vec<FileEntry>)
    requires
        start <= end <= files@.len(),
    ensures
        entries_view(r@) == entries_view(files@).subrange(start as int, end as int),
{
    let mut r: Vec<FileEntry> = Vec::new();
    let mut k: usize = start;
    while k < end
        invariant
            start <= k <= end,
            end <= files@.len(),
            entries_view(r@) == entries_view(files@).subrange(start as int, k as int),
        decreases end - k,
    {
        let e = copy_entry(&files[k]);
        assert(e@ == entries_view(files@)[k as int]);
        r.push(e);
        assert(entries_view(r@) =~= entries_view(files@).subrange(start as int, k as int).push(e@));
        k += 1;
        assert(entries_view(r@) =~= entries_view(files@).subrange(start as int, k as int));
    }
    r
}

/// Splits the index into `shards` contiguous shards of `len / shards` entries rounded up,
/// the last ones shorter or empty; no shards at all when `shards` is zero.
pub fn shard_files(index: &FileIndex, shards: usize) -> (r: Vec<Vec<FileEntry>>)
    ensures
        r@.len() == shards,
        forall|i: int| 0 <= i < shards ==> entries_view(#[trigger] r@[i]@) == shard_of(index@, shards as nat, i),
{
    let mut out: Vec<Vec<FileEntry>> = Vec::new();
    if shards == 0 {
        return out;
    }
    let total = index.files.len();
    let chunk = if total % shards == 0 {
        total / shards
    } else {
        assert(shards != 1);
        assert(total != 0) by (nonlinear_arith)
            requires
                total % shards != 0,
                shards > 0,
        ;
        assert(total / shards < total) by (nonlinear_arith)
            requires
                shards > 1,
                total > 0,
        ;
        total / shards + 1
    };
    let ghost len = index@.len();
    let mut start: usize = 0;
    let mut i: usize = 0;
    proof {
        lemma_start_step(len, shards as nat, 0);
        assert(shard_start(len, shards as nat, 0) == 0);
    }
    while i < shards
        invariant
            len == index@.len(),
            total == len,
            shards > 0,
            chunk == chunk_len(len, shards as nat),
            i <= shards,
            out@.len() == i,
            start == shard_start(len, shards as nat, i as int),
            forall|k: int| 0 <= k < i ==> entries_view(#[trigger] out@[k]@) == shard_of(index@, shards as nat, k),
        decreases shards - i,
    {
        proof {
            lemma_start_step(len, shards as nat, i as int);
        }
        let end = if chunk > total - start {
            total
        } else {
            start + chunk
        };
        let shard = copy_range(&index.files, start, end);
        out.push(shard);
        start = end;
        i += 1;
    }
    out
}

} // verus!
