//! Reading git's output.
use gitview::git::{
    merge_stat, parse_name_status, parse_numstat, parse_porcelain_v2, sort_entries, ChangeKind,
    FileEntry, StageState, Stats,
};

#[test]
fn porcelain_ordinary_records() {
    // staged-only, unstaged-only, partial
    let raw = b"1 M. N... 100644 100644 100644 abc def staged.rs\0\
                1 .M N... 100644 100644 100644 abc def unstaged.rs\0\
                1 MM N... 100644 100644 100644 abc def partial.rs\0";
    let entries = parse_porcelain_v2(raw).unwrap();
    assert_eq!(entries.len(), 3);
    assert_eq!(entries[0].stage, StageState::Staged);
    assert_eq!(entries[1].stage, StageState::Unstaged);
    assert_eq!(entries[2].stage, StageState::Partial);
    assert!(entries.iter().all(|e| e.kind == ChangeKind::Modified));
}

#[test]
fn porcelain_rename_carries_orig_path() {
    let raw = b"2 R. N... 100644 100644 100644 abc def R100 new name.rs\0old name.rs\0";
    let entries = parse_porcelain_v2(raw).unwrap();
    assert_eq!(entries.len(), 1);
    assert_eq!(entries[0].path, String::from("new name.rs"));
    assert_eq!(entries[0].orig_path, Some(String::from("old name.rs")));
    assert_eq!(entries[0].kind, ChangeKind::Renamed);
    assert_eq!(entries[0].stage, StageState::Staged);
}

#[test]
fn porcelain_untracked_conflicted_ignored() {
    let raw = b"? new file.txt\0\
                u UU N... 100644 100644 100644 100644 a b c conflict.rs\0\
                ! ignored.log\0";
    let entries = parse_porcelain_v2(raw).unwrap();
    assert_eq!(entries.len(), 2);
    assert_eq!(entries[0].kind, ChangeKind::Untracked);
    assert_eq!(entries[0].path, String::from("new file.txt"));
    assert_eq!(entries[1].kind, ChangeKind::Conflicted);
    assert_eq!(entries[1].stage, StageState::NA);
}

#[test]
fn numstat_parses_plain_binary_and_rename() {
    let raw = b"3\t1\tsrc/a.rs\0-\t-\timg.png\x000\t0\0old.rs\0new.rs\0";
    let stats = parse_numstat(raw);
    assert_eq!(stats.len(), 3);
    assert_eq!(stats[0], (String::from("src/a.rs"), Some((3, 1))));
    assert_eq!(stats[1], (String::from("img.png"), None));
    assert_eq!(stats[2], (String::from("new.rs"), Some((0, 0))));
}

#[test]
fn name_status_kinds_and_rename() {
    let raw = b"M\0mod.rs\0A\0added.rs\0D\0gone.rs\0R087\0old.rs\0new.rs\0";
    let entries = parse_name_status(raw).unwrap();
    assert_eq!(entries.len(), 4);
    assert_eq!(entries[0].kind, ChangeKind::Modified);
    assert_eq!(entries[1].kind, ChangeKind::Added);
    assert_eq!(entries[2].kind, ChangeKind::Deleted);
    assert_eq!(entries[3].kind, ChangeKind::Renamed);
    assert_eq!(entries[3].path, String::from("new.rs"));
    assert_eq!(entries[3].orig_path, Some(String::from("old.rs")));
}

#[test]
fn merge_stat_sums_and_binary_is_contagious() {
    let mut stats = Stats::new();
    merge_stat(&mut stats, "a.rs".into(), Some((1, 2)));
    merge_stat(&mut stats, "a.rs".into(), Some((3, 4)));
    merge_stat(&mut stats, "b.png".into(), Some((5, 0)));
    merge_stat(&mut stats, "b.png".into(), None);
    assert_eq!(stats.get("a.rs"), Some(Some((4, 6))));
    assert_eq!(stats.get("b.png"), Some(None));
}

#[test]
fn counts_do_not_depend_on_their_order() {
    let pairs = [("a.rs", Some((1, 2))), ("b.png", None), ("a.rs", Some((3, 4))),
        ("b.png", Some((5, 0))), ("c.rs", Some((7, 0)))];
    let merged = |order: [usize; 5]| {
        let mut stats = Stats::new();
        for i in order {
            merge_stat(&mut stats, pairs[i].0.into(), pairs[i].1);
        }
        ["a.rs", "b.png", "c.rs", "d.rs"].map(|p| stats.get(p))
    };
    let want = [Some(Some((4, 6))), Some(None), Some(Some((7, 0))), None];
    assert_eq!(merged([0, 1, 2, 3, 4]), want);
    assert_eq!(merged([4, 3, 2, 1, 0]), want);
    assert_eq!(merged([2, 3, 0, 4, 1]), want);
}

#[test]
fn sort_puts_conflicts_first_then_paths() {
    let entry = |path: &str, kind| FileEntry {
        path: path.into(),
        orig_path: None,
        kind,
        stage: StageState::NA,
        adds: None,
        dels: None,
    };
    let mut entries = vec![
        entry("z/deep.rs", ChangeKind::Modified),
        entry("a.rs", ChangeKind::Modified),
        entry("m/conflict.rs", ChangeKind::Conflicted),
    ];
    sort_entries(&mut entries);
    let paths: Vec<_> = entries
        .iter()
        .map(|e| e.path.clone())
        .collect();
    assert_eq!(paths, vec!["m/conflict.rs", "a.rs", "z/deep.rs"]);
}
