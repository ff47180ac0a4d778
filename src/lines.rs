//! Splitting command output into lines, words and trimmed text.
use vstd::prelude::*;

use crate::text::chars_of;

verus! {

/// The character has the Unicode `White_Space` property, as `char::is_whitespace`
/// tests it.
pub open spec fn white_space(c: char) -> bool {
    ||| ('\u{9}' <= c <= '\u{d}')
    ||| c == ' '
    ||| c == '\u{85}'
    ||| c == '\u{a0}'
    ||| c == '\u{1680}'
    ||| ('\u{2000}' <= c <= '\u{200a}')
    ||| c == '\u{2028}'
    ||| c == '\u{2029}'
    ||| c == '\u{202f}'
    ||| c == '\u{205f}'
    ||| c == '\u{3000}'
}

/// Whether a character is white space.
pub fn is_white(c: char) -> (r: bool)
    ensures
        r == white_space(c),
{
    ('\u{9}' <= c && c <= '\u{d}') || c == ' ' || c == '\u{85}' || c == '\u{a0}' || c == '\u{1680}'
        || ('\u{2000}' <= c && c <= '\u{200a}') || c == '\u{2028}' || c == '\u{2029}' || c
        == '\u{202f}' || c == '\u{205f}' || c == '\u{3000}'
}

/// The pieces of `s` between newlines, the last one included even when empty.
pub open spec fn newline_pieces(s: Seq<char>) -> Seq<Seq<char>>
    decreases s.len(),
{
    if s.len() == 0 {
        seq![Seq::empty()]
    } else {
        let p = newline_pieces(s.drop_last());
        if s.last() == '\n' {
            p.push(Seq::empty())
        } else {
            p.update(p.len() - 1, p.last().push(s.last()))
        }
    }
}

proof fn lemma_pieces_nonempty(s: Seq<char>)
    ensures
        newline_pieces(s).len() > 0,
    decreases s.len(),
{
    if s.len() > 0 {
        lemma_pieces_nonempty(s.drop_last());
    }
}

/// A line that ended with `\r\n` loses its `\r`.
pub open spec fn strip_cr(l: Seq<char>) -> Seq<char> {
    if l.len() > 0 && l.last() == '\r' {
        l.drop_last()
    } else {
        l
    }
}

/// The lines of `s`: split at `\n` or `\r\n`, with no line after a final line ending.
pub open spec fn text_lines(s: Seq<char>) -> Seq<Seq<char>> {
    let p = newline_pieces(s);
    let ended = p.drop_last().map_values(|l: Seq<char>| strip_cr(l));
    if p.last().len() == 0 {
        ended
    } else {
        ended.push(p.last())
    }
}

pub open spec fn strings_view(v: Seq<String>) -> Seq<Seq<char>> {
    v.map_values(|s: String| s@)
}

fn string_of(cs: &Vec<char>, from: usize, to: usize) -> (r: String)
    requires
        from <= to <= cs@.len(),
    ensures
        r@ == cs@.subrange(from as int, to as int),
{
    let mut r = String::new();
    let mut k: usize = from;
    while k < to
        invariant
            from <= k <= to,
            to <= cs@.len(),
            r@ == cs@.subrange(from as int, k as int),
        decreases to - k,
    {
        r.push(cs[k]);
        k += 1;
        assert(r@ =~= cs@.subrange(from as int, k as int));
    }
    r
}

/// The lines of a text, as `str::lines` gives them.
pub fn split_lines(s: &str) -> (r: Vec<String>)
    ensures
        strings_view(r@) == text_lines(s@),
{
    let sc = chars_of(s);
    let mut r: Vec<String> = Vec::new();
    let mut start: usize = 0;
    let mut i: usize = 0;
    proof {
        assert(s@.take(0) =~= Seq::<char>::empty());
    }
    while i < sc.len()
        invariant
            sc@ == s@,
            start <= i <= sc@.len(),
            newline_pieces(s@.take(i as int)).drop_last().map_values(|l: Seq<char>| strip_cr(l))
                == strings_view(r@),
            newline_pieces(s@.take(i as int)).last() == s@.subrange(start as int, i as int),
        decreases sc.len() - i,
    {
        let ghost pre = s@.take(i as int);
        let ghost cur = s@.take(i + 1);
        assert(cur.drop_last() =~= pre);
        proof {
            lemma_pieces_nonempty(pre);
        }
        if sc[i] == '\n' {
            let end = if i > start && sc[i - 1] == '\r' {
                i - 1
            } else {
                i
            };
            let line = string_of(&sc, start, end);
            let ghost piece = s@.subrange(start as int, i as int);
            assert(line@ == strip_cr(piece)) by {
                if i > start && sc@[i - 1] == '\r' {
                    assert(piece.drop_last() =~= s@.subrange(start as int, end as int));
                }
            }
            let ghost before = r@;
            r.push(line);
            assert(newline_pieces(cur).drop_last() =~= newline_pieces(pre));
            assert(strings_view(r@) =~= strings_view(before).push(line@));
            assert(newline_pieces(pre).drop_last().push(newline_pieces(pre).last()) =~= newline_pieces(pre));
            assert(newline_pieces(cur).drop_last().map_values(|l: Seq<char>| strip_cr(l)) =~= strings_view(r@));
            start = i + 1;
            assert(s@.subrange(start as int, i + 1) =~= Seq::<char>::empty());
        } else {
            let ghost p = newline_pieces(pre);
            assert(newline_pieces(cur).drop_last() =~= p.drop_last());
            assert(s@.subrange(start as int, i + 1) =~= s@.subrange(start as int, i as int).push(sc@[i as int]));
        }
        i += 1;
    }
    assert(s@.take(i as int) =~= s@);
    if start < sc.len() {
        let last = string_of(&sc, start, sc.len());
        let ghost before = r@;
        r.push(last);
        assert(strings_view(r@) =~= strings_view(before).push(last@));
    }
    r
}

/// `t` without leading white space.
pub open spec fn trim_start_ws(t: Seq<char>) -> Seq<char>
    decreases t.len(),
{
    if t.len() > 0 && white_space(t[0]) {
        trim_start_ws(t.drop_first())
    } else {
        t
    }
}

/// `t` without trailing white space.
pub open spec fn trim_end_ws(t: Seq<char>) -> Seq<char>
    decreases t.len(),
{
    if t.len() > 0 && white_space(t.last()) {
        trim_end_ws(t.drop_last())
    } else {
        t
    }
}

/// A text without white space at either end, as `str::trim` gives it.
pub fn trim_text(s: &str) -> (r: String)
    ensures
        r@ == trim_end_ws(trim_start_ws(s@)),
{
    let sc = chars_of(s);
    let mut a: usize = 0;
    assert(s@.skip(0) =~= s@);
    while a < sc.len() && is_white(sc[a])
        invariant
            sc@ == s@,
            a <= sc@.len(),
            trim_start_ws(s@) == trim_start_ws(s@.skip(a as int)),
        decreases sc.len() - a,
    {
        assert(s@.skip(a as int).drop_first() =~= s@.skip(a + 1));
        a += 1;
    }
    let ghost u = s@.skip(a as int);
    assert(trim_start_ws(s@) == u);
    let mut b: usize = sc.len();
    assert(u.take((b - a) as int) =~= u);
    while b > a && is_white(sc[b - 1])
        invariant
            sc@ == s@,
            a <= b <= sc@.len(),
            u == s@.skip(a as int),
            trim_end_ws(u) == trim_end_ws(u.take((b - a) as int)),
        decreases b,
    {
        assert(u.take((b - a) as int).drop_last() =~= u.take((b - 1 - a) as int));
        b -= 1;
    }
    let r = string_of(&sc, a, b);
    assert(r@ =~= u.take((b - a) as int));
    r
}

/// The words of `s` so far, and the word still open at its end.
pub open spec fn word_scan(s: Seq<char>) -> (Seq<Seq<char>>, Seq<char>)
    decreases s.len(),
{
    if s.len() == 0 {
        (Seq::empty(), Seq::empty())
    } else {
        let (w, cur) = word_scan(s.drop_last());
        let c = s.last();
        if white_space(c) {
            if cur.len() > 0 {
                (w.push(cur), Seq::empty())
            } else {
                (w, Seq::empty())
            }
        } else {
            (w, cur.push(c))
        }
    }
}

/// The maximal runs of characters that are not white space.
pub open spec fn text_words(s: Seq<char>) -> Seq<Seq<char>> {
    let (w, cur) = word_scan(s);
    if cur.len() > 0 {
        w.push(cur)
    } else {
        w
    }
}

/// The words of a text, as `str::split_whitespace` gives them.
pub fn split_words(s: &str) -> (r: Vec<String>)
    ensures
        strings_view(r@) == text_words(s@),
{
    let sc = chars_of(s);
    let mut r: Vec<String> = Vec::new();
    let mut start: usize = 0;
    let mut i: usize = 0;
    while i < sc.len()
        invariant
            sc@ == s@,
            start <= i <= sc@.len(),
            word_scan(s@.take(i as int)).0 == strings_view(r@),
            word_scan(s@.take(i as int)).1 == s@.subrange(start as int, i as int),
        decreases sc.len() - i,
    {
        let ghost pre = s@.take(i as int);
        let ghost cur = s@.take(i + 1);
        assert(cur.drop_last() =~= pre);
        if is_white(sc[i]) {
            if i > start {
                let w = string_of(&sc, start, i);
                let ghost before = r@;
                r.push(w);
                assert(strings_view(r@) =~= strings_view(before).push(w@));
            }
            start = i + 1;
            assert(s@.subrange(start as int, i + 1) =~= Seq::<char>::empty());
        } else {
            assert(s@.subrange(start as int, i + 1) =~= s@.subrange(start as int, i as int).push(sc@[i as int]));
        }
        i += 1;
    }
    assert(s@.take(i as int) =~= s@);
    if start < sc.len() {
        let w = string_of(&sc, start, sc.len());
        let ghost before = r@;
        r.push(w);
        assert(strings_view(r@) =~= strings_view(before).push(w@));
    }
    r
}

/// The value of a string of decimal digits.
pub open spec fn digits_value(d: Seq<char>) -> nat
    decreases d.len(),
{
    if d.len() == 0 {
        0
    } else {
        digits_value(d.drop_last()) * 10 + ((d.last() as u32) - ('0' as u32)) as nat
    }
}

pub open spec fn all_digits(d: Seq<char>) -> bool {
    forall|i: int| 0 <= i < d.len() ==> '0' <= #[trigger] d[i] <= '9'
}

/// What `u64::from_str` gives: an optional `+`, then one or more decimal digits whose value
/// fits in 64 bits.
pub open spec fn parsed_u64(t: Seq<char>) -> Option<u64> {
    let d = if t.len() > 0 && t[0] == '+' {
        t.drop_first()
    } else {
        t
    };
    if d.len() > 0 && all_digits(d) && digits_value(d) <= u64::MAX {
        Some(digits_value(d) as u64)
    } else {
        None
    }
}

proof fn lemma_digits_grow(d: Seq<char>, k: int)
    requires
        all_digits(d),
        0 <= k <= d.len(),
    ensures
        digits_value(d.take(k)) <= digits_value(d),
    decreases d.len() - k,
{
    if k < d.len() {
        assert(d.take(k + 1).drop_last() =~= d.take(k));
        assert(all_digits(d.take(k + 1)));
        lemma_digits_grow(d, k + 1);
    } else {
        assert(d.take(k) =~= d);
    }
}

/// Reads an unsigned 64-bit decimal number, as `u64::from_str` does.
pub fn parse_u64(t: &str) -> (r: Option<u64>)
    ensures
        r == parsed_u64(t@),
{
    let tc = chars_of(t);
    let start: usize = if tc.len() > 0 && tc[0] == '+' { 1 } else { 0 };
    let ghost d = if t@.len() > 0 && t@[0] == '+' { t@.drop_first() } else { t@ };
    assert(d =~= t@.skip(start as int));
    if start >= tc.len() {
        return None;
    }
    let mut v: u64 = 0;
    let mut i: usize = start;
    while i < tc.len()
        invariant
            tc@ == t@,
            d == t@.skip(start as int),
            d == (if t@.len() > 0 && t@[0] == '+' { t@.drop_first() } else { t@ }),
            d.len() > 0,
            start <= i <= tc@.len(),
            all_digits(d.take(i - start)),
            v == digits_value(d.take(i - start)),
        decreases tc.len() - i,
    {
        let c = tc[i];
        assert(d.take(i + 1 - start).drop_last() =~= d.take(i - start));
        assert(d.take(i + 1 - start).last() == c);
        if !('0' <= c && c <= '9') {
            assert(d[i - start] == c);
            assert(!all_digits(d));
            return None;
        }
        let dv = ((c as u32) - ('0' as u32)) as u64;
        assert(all_digits(d.take(i + 1 - start)));
        match v.checked_mul(10) {
            None => {
                proof {
                    if all_digits(d) {
                        lemma_digits_grow(d, i + 1 - start);
                    }
                }
                return None;
            },
            Some(m) => match m.checked_add(dv) {
                None => {
                    proof {
                        if all_digits(d) {
                            lemma_digits_grow(d, i + 1 - start);
                        }
                    }
                    return None;
                },
                Some(n) => {
                    v = n;
                },
            },
        }
        i += 1;
    }
    assert(d.take(i - start) =~= d);
    Some(v)
}

/// The count in word `k` of a numstat line, zero where it is missing or unreadable.
pub open spec fn count_in(words: Seq<Seq<char>>, k: int) -> u64 {
    if 0 <= k < words.len() {
        match parsed_u64(words[k]) {
            Some(n) => n,
            None => 0,
        }
    } else {
        0
    }
}

pub open spec fn saturating_sum(a: u64, b: u64) -> u64 {
    if a + b > u64::MAX {
        u64::MAX
    } else {
        (a + b) as u64
    }
}

/// The sums of word `k` over the lines, stopping at `u64::MAX`.
pub open spec fn column_total(lines: Seq<Seq<char>>, k: int) -> u64
    decreases lines.len(),
{
    if lines.len() == 0 {
        0
    } else {
        saturating_sum(column_total(lines.drop_last(), k), count_in(text_words(lines.last()), k))
    }
}

fn count_at(words: &Vec<String>, k: usize) -> (r: u64)
    ensures
        r == count_in(strings_view(words@), k as int),
{
    if k < words.len() {
        match parse_u64(words[k].as_str()) {
            Some(n) => n,
            None => 0,
        }
    } else {
        0
    }
}

/// Lines added and removed: the sums of the first and second words of each line of
/// `git diff --numstat`, a missing or unreadable count reading as zero; the sums stop at
/// `u64::MAX`.
pub fn numstat_totals(stdout: &str) -> (r: (u64, u64))
    ensures
        r.0 == column_total(text_lines(stdout@), 0),
        r.1 == column_total(text_lines(stdout@), 1),
{
    let lines = split_lines(stdout);
    let ghost lv = strings_view(lines@);
    let mut added: u64 = 0;
    let mut removed: u64 = 0;
    let mut i: usize = 0;
    while i < lines.len()
        invariant
            lv == strings_view(lines@),
            i <= lines@.len(),
            added == column_total(lv.take(i as int), 0),
            removed == column_total(lv.take(i as int), 1),
        decreases lines.len() - i,
    {
        assert(lv.take(i + 1).drop_last() =~= lv.take(i as int));
        assert(lv.take(i + 1).last() == lines@[i as int]@);
        let words = split_words(lines[i].as_str());
        added = added.saturating_add(count_at(&words, 0));
        removed = removed.saturating_add(count_at(&words, 1));
        i += 1;
    }
    assert(lv.take(i as int) =~= lv);
    (added, removed)
}

/// The paths of the worktrees in `git worktree list --porcelain` output: the rest of each
/// line that starts with `worktree `.
pub open spec fn worktree_paths(lines: Seq<Seq<char>>) -> Seq<Seq<char>>
    decreases lines.len(),
{
    if lines.len() == 0 {
        Seq::empty()
    } else {
        let p = worktree_paths(lines.drop_last());
        let l = lines.last();
        if crate::text::has_prefix(l, "worktree "@) {
            p.push(l.skip(9))
        } else {
            p
        }
    }
}

pub fn parse_worktree_list(stdout: &str) -> (r: Vec<String>)
    ensures
        strings_view(r@) == worktree_paths(text_lines(stdout@)),
{
    let lines = split_lines(stdout);
    let ghost lv = strings_view(lines@);
    let mut r: Vec<String> = Vec::new();
    let mut i: usize = 0;
    while i < lines.len()
        invariant
            lv == strings_view(lines@),
            i <= lines@.len(),
            strings_view(r@) == worktree_paths(lv.take(i as int)),
        decreases lines.len() - i,
    {
        assert(lv.take(i + 1).drop_last() =~= lv.take(i as int));
        assert(lv.take(i + 1).last() == lines@[i as int]@);
        let l = lines[i].as_str();
        proof {
            reveal_strlit("worktree ");
        }
        if crate::text::starts_with(l, "worktree ") {
            let lc = chars_of(l);
            let rest = string_of(&lc, 9, lc.len());
            let ghost before = r@;
            r.push(rest);
            assert(rest@ =~= l@.skip(9));
            assert(strings_view(r@) =~= strings_view(before).push(rest@));
        }
        i += 1;
    }
    assert(lv.take(i as int) =~= lv);
    r
}

/// The repository root that `git rev-parse --show-toplevel` reported: its output trimmed,
/// where the command succeeded and printed something.
pub fn repo_root_from(success: bool, stdout: &str) -> (r: Option<String>)
    ensures
        r is Some <==> success && trim_end_ws(trim_start_ws(stdout@)).len() > 0,
        r matches Some(s) ==> s@ == trim_end_ws(trim_start_ws(stdout@)),
{
    if !success {
        return None;
    }
    let root = trim_text(stdout);
    if root.as_str().is_empty() {
        None
    } else {
        Some(root)
    }
}

} // verus!
