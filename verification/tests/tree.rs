//! The directory tree.
use gitview::list::tree::{build_tree, TreeRow};

fn paths(items: &[(usize, &str)]) -> Vec<(usize, String)> {
    items.iter().map(|(i, p)| (*i, p.to_string())).collect()
}

fn dir(depth: usize, name: &str, path: &str, collapsed: bool) -> TreeRow {
    TreeRow::Dir {
        depth,
        name: name.to_string(),
        path: path.to_string(),
        collapsed,
    }
}

fn none() -> Vec<String> {
    Vec::new()
}

#[test]
fn nesting_and_depth() {
    let owned = paths(&[(0, "a/b/c.rs"), (1, "top.rs")]);
    let rows = build_tree(&owned, &none());
    // "a" and "b" are a single-child dir chain (no files at either
    // level) so they fold into one "a/b/" row at depth 0, with c.rs
    // nested one level deeper.
    assert_eq!(
        rows,
        vec![
            dir(0, "a/b/", "a/b/", false),
            TreeRow::File { depth: 1, idx: 0 },
            TreeRow::File { depth: 0, idx: 1 },
        ]
    );
}

#[test]
fn dirs_sort_before_files_alphabetically() {
    let owned = paths(&[(0, "z.rs"), (1, "a.rs"), (2, "m/one.rs")]);
    let rows = build_tree(&owned, &none());
    assert_eq!(
        rows,
        vec![
            dir(0, "m/", "m/", false),
            TreeRow::File { depth: 1, idx: 2 },
            TreeRow::File { depth: 0, idx: 1 }, // a.rs
            TreeRow::File { depth: 0, idx: 0 }, // z.rs
        ]
    );
}

#[test]
fn chain_does_not_fold_when_dir_has_multiple_children() {
    // "src" holds both "preview" (a dir) and "list.rs" (a file), so it
    // must NOT fold with anything below it — it has more than one child.
    let owned = paths(&[(0, "src/preview/mod.rs"), (1, "src/list.rs")]);
    let rows = build_tree(&owned, &none());
    assert_eq!(
        rows,
        vec![
            dir(0, "src/", "src/", false),
            dir(1, "preview/", "src/preview/", false),
            TreeRow::File { depth: 2, idx: 0 },
            TreeRow::File { depth: 1, idx: 1 },
        ]
    );
}

#[test]
fn long_single_child_chain_folds_fully() {
    let owned = paths(&[(0, "src/preview/inner/mod.rs")]);
    let rows = build_tree(&owned, &none());
    assert_eq!(
        rows,
        vec![
            dir(0, "src/preview/inner/", "src/preview/inner/", false),
            TreeRow::File { depth: 1, idx: 0 },
        ]
    );
}

#[test]
fn collapsed_dir_hides_everything_under_it() {
    let owned = paths(&[(0, "src/preview/mod.rs"), (1, "src/list.rs"), (2, "top.rs")]);
    let collapsed = Vec::from(["src/".to_string()]);
    let rows = build_tree(&owned, &collapsed);
    // The whole src/ subtree (including the nested preview/ dir) is
    // hidden; the dir row itself is marked collapsed.
    assert_eq!(
        rows,
        vec![
            dir(0, "src/", "src/", true),
            TreeRow::File { depth: 0, idx: 2 },
        ]
    );
}

#[test]
fn a_tree_does_not_depend_on_the_order_of_its_entries() {
    let one = paths(&[(0, "src/a.rs"), (1, "top.rs"), (2, "src/x/b.rs"), (3, "doc/c.md")]);
    let two = paths(&[(3, "doc/c.md"), (2, "src/x/b.rs"), (0, "src/a.rs"), (1, "top.rs")]);
    assert_eq!(build_tree(&one, &none()), build_tree(&two, &none()));
    let some = vec!["src/x/".to_string()];
    assert_eq!(build_tree(&one, &some), build_tree(&two, &some));
}

fn depth(row: &TreeRow) -> usize {
    match row {
        TreeRow::Dir { depth, .. } | TreeRow::File { depth, .. } => *depth,
    }
}

const MANY: [(usize, &str); 8] = [
    (0, "src/list/app.rs"),
    (1, "src/list/ui.rs"),
    (2, "src/main.rs"),
    (3, "a/b/c/d.rs"),
    (4, "a-b/x.rs"),
    (5, "top.rs"),
    (6, "a/b/c/e/f.rs"),
    (7, "Cargo.toml"),
];

#[test]
fn a_level_is_in_order() {
    let rows = build_tree(&paths(&MANY), &none());
    // "a" comes before "a-b", though "a/b/c/" comes behind "a-b/" as text.
    let top: Vec<&TreeRow> = rows.iter().filter(|r| depth(r) == 0).collect();
    assert_eq!(
        top,
        vec![
            &dir(0, "a/b/c/", "a/b/c/", false),
            &dir(0, "a-b/", "a-b/", false),
            &dir(0, "src/", "src/", false),
            &TreeRow::File { depth: 0, idx: 7 },
            &TreeRow::File { depth: 0, idx: 5 },
        ]
    );
    for (i, row) in rows.iter().enumerate() {
        let level = rows[i + 1..].iter().take_while(|r| depth(r) >= depth(row));
        for later in level.filter(|r| depth(r) == depth(row)) {
            let behind = matches!((row, later), (TreeRow::File { .. }, TreeRow::Dir { .. }));
            assert!(!behind, "{later:?} comes behind {row:?}");
        }
    }
}

#[test]
fn an_expanded_directory_never_holds_just_one_directory() {
    let rows = build_tree(&paths(&MANY), &none());
    for (i, row) in rows.iter().enumerate() {
        if let TreeRow::Dir { collapsed: false, depth: d, .. } = row {
            let under: Vec<&TreeRow> = rows[i + 1..]
                .iter()
                .take_while(|r| depth(r) > *d)
                .filter(|r| depth(r) == *d + 1)
                .collect();
            assert!(!matches!(under[..], [TreeRow::Dir { .. }]), "{row:?} holds {under:?}");
        }
    }
}

#[test]
fn each_file_has_one_row_unless_it_is_hidden() {
    let shown = |rows: &[TreeRow], i: usize| {
        rows.iter().filter(|r| matches!(r, TreeRow::File { idx, .. } if *idx == i)).count()
    };
    let whole = build_tree(&paths(&MANY), &none());
    let part = build_tree(&paths(&MANY), &vec!["src/list/".to_string(), "a/b/c/".to_string()]);
    for (i, path) in MANY {
        assert_eq!(shown(&whole, i), 1, "{path}");
        let hidden = path.starts_with("src/list/") || path.starts_with("a/b/c/");
        assert_eq!(shown(&part, i), if hidden { 0 } else { 1 }, "{path}");
    }
}

#[test]
fn collapsing_only_hides_rows() {
    let all = paths(&[(0, "src/a.rs"), (1, "top.rs"), (2, "src/x/b.rs"), (3, "doc/c.md")]);
    let whole = build_tree(&all, &none());
    let mut left = build_tree(&all, &vec!["doc/".to_string(), "src/x/".to_string()]);
    assert!(left.len() < whole.len());
    for row in &mut left {
        if let TreeRow::Dir { collapsed, .. } = row {
            *collapsed = false;
        }
    }
    let mut rest = whole.iter();
    for row in &left {
        assert!(rest.any(|r| r == row), "{row:?} is no row of the whole tree, in its order");
    }
}

#[test]
fn collapsing_a_nested_dir_keeps_siblings_visible() {
    let owned = paths(&[(0, "src/preview/mod.rs"), (1, "src/list.rs")]);
    let collapsed = Vec::from(["src/preview/".to_string()]);
    let rows = build_tree(&owned, &collapsed);
    assert_eq!(
        rows,
        vec![
            dir(0, "src/", "src/", false),
            dir(1, "preview/", "src/preview/", true),
            TreeRow::File { depth: 1, idx: 1 }, // src/list.rs stays
        ]
    );
}
