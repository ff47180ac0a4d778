use codex_sdd::lines::{
    numstat_totals, parse_u64, parse_worktree_list, repo_root_from, split_lines, split_words,
    trim_text,
};

#[test]
fn lines_like_std() {
    for s in ["a\nb", "a\nb\n", "a\r\nb\r\n", "", "\n", "x\r", "a\n\nb", "\r\n"] {
        let want: Vec<String> = s.lines().map(|l| l.to_string()).collect();
        assert_eq!(split_lines(s), want, "input {s:?}");
    }
}

#[test]
fn words_like_std() {
    for s in ["  a b\tc\n", "", "   ", "one", "x\u{a0}y"] {
        let want: Vec<String> = s.split_whitespace().map(|w| w.to_string()).collect();
        assert_eq!(split_words(s), want, "input {s:?}");
    }
}

#[test]
fn trimming() {
    assert_eq!(trim_text("  abc \n"), "abc");
    assert_eq!(trim_text("\t\n"), "");
    assert_eq!(trim_text("a b"), "a b");
}

#[test]
fn u64_parsing() {
    assert_eq!(parse_u64("0"), Some(0));
    assert_eq!(parse_u64("+12"), Some(12));
    assert_eq!(parse_u64("18446744073709551615"), Some(u64::MAX));
    assert_eq!(parse_u64("18446744073709551616"), None);
    assert_eq!(parse_u64("-"), None);
    assert_eq!(parse_u64("+"), None);
    assert_eq!(parse_u64(""), None);
    assert_eq!(parse_u64("1a"), None);
}

#[test]
fn numstat() {
    assert_eq!(numstat_totals("3\t1\tsrc/a.rs\n-\t-\timg.png\n10\t0\tb\n"), (13, 1));
    assert_eq!(numstat_totals(""), (0, 0));
    assert_eq!(numstat_totals("18446744073709551615 0 a\n1 0 b\n"), (u64::MAX, 0));
}

#[test]
fn worktree_listing() {
    let out = "worktree /repo\nHEAD abc\nbranch refs/heads/main\n\nworktree /repo/wt/agent1\nHEAD def\n";
    assert_eq!(parse_worktree_list(out), vec!["/repo", "/repo/wt/agent1"]);
}

#[test]
fn repo_root() {
    assert_eq!(repo_root_from(true, "/home/u/repo\n").as_deref(), Some("/home/u/repo"));
    assert_eq!(repo_root_from(true, "  \n"), None);
    assert_eq!(repo_root_from(false, "/x\n"), None);
}

#[test]
fn white_space_matches_std() {
    for u in 0u32..0x3100 {
        if let Some(c) = char::from_u32(u) {
            assert_eq!(codex_sdd::lines::is_white(c), c.is_whitespace(), "char {u:#x}");
        }
    }
    for c in ['\u{feff}', '\u{180e}', '\u{200b}', 'x'] {
        assert_eq!(codex_sdd::lines::is_white(c), c.is_whitespace());
    }
}
