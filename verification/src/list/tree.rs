//! The file tree of the list: a flat sequence of rows, directories
//! (collapsible) followed by the files under them.
//!
//! Directories come before files at each level, both in alphabetical order. A
//! directory that holds nothing but one nested directory folds into one row
//! with it, so a chain like `src/preview/foo.rs` shows one `src/preview/` row.
//! A directory whose full path is collapsed is one row, with everything under
//! it hidden.
use crate::path::{
    chars_order, components, components_of, comps, is_proper, lemma_components_are_proper,
    lemma_order_chars_flip, lemma_order_chars_trans, order_chars, Component, Part,
};
use crate::text::{append, copy, has_string, join, joined, lemma_strs_push, strs};
use vstd::prelude::*;

verus! {

broadcast use {vstd::string::group_string_axioms, lemma_strs_push};

/// One visual row of a tree.
#[derive(Debug, PartialEq, Eq)]
pub enum TreeRow {
    /// A (possibly folded) directory chain, e.g. name = "src/preview/".
    /// `path` is the full path from the tree's root, with a trailing slash:
    /// the stable identity by which it is collapsed.
    Dir { depth: usize, name: String, path: String, collapsed: bool },
    /// A file, by the index that the caller gave it.
    File { depth: usize, idx: usize },
}

pub enum TreeRowView {
    Dir { depth: int, name: Seq<char>, path: Seq<char>, collapsed: bool },
    File { depth: int, idx: usize },
}

impl View for TreeRow {
    type V = TreeRowView;

    open spec fn view(&self) -> TreeRowView {
        match self {
            TreeRow::Dir { depth, name, path, collapsed } => TreeRowView::Dir {
                depth: *depth as int,
                name: name@,
                path: path@,
                collapsed: *collapsed,
            },
            TreeRow::File { depth, idx } => TreeRowView::File { depth: *depth as int, idx: *idx },
        }
    }
}

pub open spec fn rows_view(s: Seq<TreeRow>) -> Seq<TreeRowView> {
    s.map_values(|r: TreeRow| r@)
}

pub broadcast proof fn lemma_rows_push(s: Seq<TreeRow>, r: TreeRow)
    ensures
        #[trigger] rows_view(s.push(r)) == rows_view(s).push(r@),
{
    assert(rows_view(s.push(r)) =~= rows_view(s).push(r@));
}

// ---- the model -------------------------------------------------------------

/// A file of one level of the tree: the names that lead to it from there, and
/// its index.
pub struct Item {
    pub names: Seq<Seq<char>>,
    pub idx: usize,
}

/// How a component is shown.
pub open spec fn part_name(p: Part) -> Seq<char> {
    match p {
        Part::Root => "/"@,
        Part::Current => "."@,
        Part::Parent => ".."@,
        Part::Name(s) => s,
    }
}

/// The names on the way to a file.
pub open spec fn path_names(p: Seq<char>) -> Seq<Seq<char>> {
    components(p).map_values(|c: Part| part_name(c))
}

/// `x` added to the ordered names `s`, unless it is there.
pub open spec fn insert_name(s: Seq<Seq<char>>, x: Seq<char>) -> Seq<Seq<char>>
    decreases s.len(),
{
    if s.len() == 0 || order_chars(s.last(), x) < 0 {
        s.push(x)
    } else if s.last() == x {
        s
    } else {
        insert_name(s.drop_last(), x).push(s.last())
    }
}

/// The directories among the first `n` items, in order.
pub open spec fn dirs_upto(items: Seq<Item>, n: int) -> Seq<Seq<char>>
    decreases n,
{
    if n <= 0 {
        Seq::empty()
    } else if items[n - 1].names.len() >= 2 {
        insert_name(dirs_upto(items, n - 1), items[n - 1].names[0])
    } else {
        dirs_upto(items, n - 1)
    }
}

/// The directories of a level, in order.
pub open spec fn dir_names(items: Seq<Item>) -> Seq<Seq<char>> {
    dirs_upto(items, items.len() as int)
}

/// File `x` added to the files `s` in order of name; the last of one name stays.
pub open spec fn insert_file(
    s: Seq<(Seq<char>, usize)>,
    x: (Seq<char>, usize),
) -> Seq<(Seq<char>, usize)>
    decreases s.len(),
{
    if s.len() == 0 || order_chars(s.last().0, x.0) < 0 {
        s.push(x)
    } else if s.last().0 == x.0 {
        s.drop_last().push(x)
    } else {
        insert_file(s.drop_last(), x).push(s.last())
    }
}

pub open spec fn files_upto(items: Seq<Item>, n: int) -> Seq<(Seq<char>, usize)>
    decreases n,
{
    if n <= 0 {
        Seq::empty()
    } else if items[n - 1].names.len() == 1 {
        insert_file(files_upto(items, n - 1), (items[n - 1].names[0], items[n - 1].idx))
    } else {
        files_upto(items, n - 1)
    }
}

/// The files of a level, in order.
pub open spec fn files(items: Seq<Item>) -> Seq<(Seq<char>, usize)> {
    files_upto(items, items.len() as int)
}

pub open spec fn under_upto(items: Seq<Item>, name: Seq<char>, n: int) -> Seq<Item>
    decreases n,
{
    if n <= 0 {
        Seq::empty()
    } else {
        let it = items[n - 1];
        if it.names.len() >= 2 && it.names[0] == name {
            under_upto(items, name, n - 1).push(Item { names: it.names.skip(1), idx: it.idx })
        } else {
            under_upto(items, name, n - 1)
        }
    }
}

/// The items of directory `name`, one level down.
pub open spec fn under(items: Seq<Item>, name: Seq<char>) -> Seq<Item> {
    under_upto(items, name, items.len() as int)
}

pub open spec fn height_upto(items: Seq<Item>, n: int) -> nat
    decreases n,
{
    if n <= 0 {
        0
    } else {
        let h = height_upto(items, n - 1);
        if items[n - 1].names.len() > h {
            items[n - 1].names.len()
        } else {
            h
        }
    }
}

/// The most names that lead to a file.
pub open spec fn height(items: Seq<Item>) -> nat {
    height_upto(items, items.len() as int)
}

proof fn lemma_height(items: Seq<Item>, n: int)
    requires
        0 <= n <= items.len(),
    ensures
        forall|i: int| 0 <= i < n ==> (#[trigger] items[i]).names.len() <= height_upto(items, n),
    decreases n,
{
    if n > 0 {
        lemma_height(items, n - 1);
    }
}

proof fn lemma_height_bound(items: Seq<Item>, n: int, h: nat)
    requires
        0 <= n <= items.len(),
        forall|i: int| 0 <= i < n ==> (#[trigger] items[i]).names.len() <= h,
    ensures
        height_upto(items, n) <= h,
    decreases n,
{
    if n > 0 {
        lemma_height_bound(items, n - 1, h);
    }
}

/// Item `i` is in directory `name`, and `u` is that item one level down.
pub open spec fn steps_down(items: Seq<Item>, name: Seq<char>, i: int, u: Item) -> bool {
    &&& items[i].names.len() >= 2
    &&& items[i].names[0] == name
    &&& u == (Item { names: items[i].names.skip(1), idx: items[i].idx })
}

proof fn lemma_under(items: Seq<Item>, name: Seq<char>, n: int, k: int) -> (i: int)
    requires
        0 <= n <= items.len(),
        0 <= k < under_upto(items, name, n).len(),
    ensures
        0 <= i < n,
        steps_down(items, name, i, under_upto(items, name, n)[k]),
    decreases n,
{
    let before = under_upto(items, name, n - 1);
    if k < before.len() {
        lemma_under(items, name, n - 1, k)
    } else {
        n - 1
    }
}

/// A directory's items are at least one level less high.
pub proof fn lemma_under_lower(items: Seq<Item>, name: Seq<char>)
    ensures
        height(items) > 0 ==> height(under(items, name)) < height(items),
        height(items) == 0 ==> under(items, name).len() == 0,
{
    let n = items.len() as int;
    let u = under(items, name);
    lemma_height(items, n);
    if height(items) > 0 {
        assert forall|k: int| 0 <= k < u.len() implies (#[trigger] u[k]).names.len() <= height(items)
            - 1 by {
            let i = lemma_under(items, name, n, k);
            assert(items[i].names.len() <= height(items));
        }
        lemma_height_bound(u, u.len() as int, (height(items) - 1) as nat);
    } else if u.len() > 0 {
        let i = lemma_under(items, name, n, 0);
        assert(items[i].names.len() <= height(items));
    }
}

/// A level with directories has height.
pub proof fn lemma_dirs_high(items: Seq<Item>, n: int)
    requires
        0 <= n <= items.len(),
        dirs_upto(items, n).len() > 0,
    ensures
        height_upto(items, n) >= 2,
    decreases n,
{
    if n > 0 {
        if dirs_upto(items, n - 1).len() > 0 {
            lemma_dirs_high(items, n - 1);
        }
    }
}

/// A directory row's names and the items below it: a chain of directories
/// that each hold nothing but one directory folds into one row.
pub open spec fn fold_chain(chain: Seq<Seq<char>>, items: Seq<Item>) -> (
    Seq<Seq<char>>,
    Seq<Item>,
)
    decreases height(items),
{
    if files(items).len() == 0 && dir_names(items).len() == 1 {
        proof {
            lemma_dirs_high(items, items.len() as int);
            lemma_under_lower(items, dir_names(items)[0]);
        }
        fold_chain(chain.push(dir_names(items)[0]), under(items, dir_names(items)[0]))
    } else {
        (chain, items)
    }
}

pub proof fn lemma_fold_lower(chain: Seq<Seq<char>>, items: Seq<Item>)
    ensures
        height(fold_chain(chain, items).1) <= height(items),
    decreases height(items),
{
    if files(items).len() == 0 && dir_names(items).len() == 1 {
        lemma_dirs_high(items, items.len() as int);
        lemma_under_lower(items, dir_names(items)[0]);
        lemma_fold_lower(
            chain.push(dir_names(items)[0]),
            under(items, dir_names(items)[0]),
        );
    }
}

/// A directory row's text.
pub open spec fn chain_text(chain: Seq<Seq<char>>) -> Seq<char> {
    join(chain, "/"@) + "/"@
}

pub open spec fn file_rows(fs: Seq<(Seq<char>, usize)>, depth: int) -> Seq<TreeRowView> {
    fs.map_values(|f: (Seq<char>, usize)| TreeRowView::File { depth, idx: f.1 })
}

/// The rows of a level: its directories with what is under them, then its files.
pub open spec fn level_rows(
    items: Seq<Item>,
    depth: int,
    prefix: Seq<char>,
    collapsed: Seq<Seq<char>>,
) -> Seq<TreeRowView>
    decreases height(items), dir_names(items).len() + 1,
{
    dir_rows(items, dir_names(items).len(), depth, prefix, collapsed) + file_rows(
        files(items),
        depth,
    )
}

/// The rows of the first `k` directories of a level.
pub open spec fn dir_rows(
    items: Seq<Item>,
    k: nat,
    depth: int,
    prefix: Seq<char>,
    collapsed: Seq<Seq<char>>,
) -> Seq<TreeRowView>
    decreases height(items), k,
{
    if k == 0 || k > dir_names(items).len() {
        Seq::empty()
    } else {
        let name = dir_names(items)[k - 1];
        let (chain, sub) = fold_chain(seq![name], under(items, name));
        let path = prefix + chain_text(chain);
        let hidden = collapsed.contains(path);
        let row = TreeRowView::Dir { depth, name: chain_text(chain), path, collapsed: hidden };
        proof {
            lemma_dirs_high(items, items.len() as int);
            lemma_under_lower(items, name);
            lemma_fold_lower(seq![name], under(items, name));
        }
        dir_rows(items, (k - 1) as nat, depth, prefix, collapsed).push(row) + if hidden {
            Seq::empty()
        } else {
            level_rows(sub, depth + 1, path, collapsed)
        }
    }
}

/// The items of a list of files.
pub open spec fn items_of(entries: Seq<(usize, Seq<char>)>) -> Seq<Item> {
    entries.map_values(|e: (usize, Seq<char>)| Item { names: path_names(e.1), idx: e.0 })
}

/// The rows of a tree.
pub open spec fn tree(
    entries: Seq<(usize, Seq<char>)>,
    collapsed: Seq<Seq<char>>,
) -> Seq<TreeRowView> {
    level_rows(items_of(entries), 0, Seq::empty(), collapsed)
}

// ---- building --------------------------------------------------------------

/// A file with the names that lead to it.
struct Leaf {
    names: Vec<String>,
    idx: usize,
}

/// The items of the chosen leaves, `at` levels down.
spec fn chosen(all: Seq<Leaf>, sel: Seq<usize>, at: int) -> Seq<Item> {
    sel.map_values(
        |j: usize| Item { names: strs(all[j as int].names@).skip(at), idx: all[j as int].idx },
    )
}

spec fn chosen_ok(all: Seq<Leaf>, sel: Seq<usize>, at: int) -> bool {
    forall|k: int|
        0 <= k < sel.len() ==> (#[trigger] sel[k]) < all.len() && at <= all[sel[k] as int].names@.len()
}

proof fn lemma_chosen_push(all: Seq<Leaf>, sel: Seq<usize>, at: int, j: usize)
    ensures
        chosen(all, sel.push(j), at) == chosen(all, sel, at).push(
            Item { names: strs(all[j as int].names@).skip(at), idx: all[j as int].idx },
        ),
{
    assert(chosen(all, sel.push(j), at) =~= chosen(all, sel, at).push(
        Item { names: strs(all[j as int].names@).skip(at), idx: all[j as int].idx },
    ));
}

proof fn lemma_insert_name_at(s: Seq<Seq<char>>, x: Seq<char>, k: int)
    requires
        0 <= k <= s.len(),
        k > 0 ==> order_chars(s[k - 1], x) <= 0,
        forall|i: int| k <= i < s.len() ==> order_chars(#[trigger] s[i], x) > 0,
    ensures
        insert_name(s, x) == if k > 0 && s[k - 1] == x {
            s
        } else {
            s.insert(k, x)
        },
    decreases s.len() - k,
{
    if k < s.len() {
        lemma_order_chars_flip(s.last(), x);
        lemma_insert_name_at(s.drop_last(), x, k);
        if k > 0 && s[k - 1] == x {
            assert(s.drop_last().push(s.last()) =~= s);
        } else {
            assert(s.drop_last().insert(k, x).push(s.last()) =~= s.insert(k, x));
        }
    } else {
        if k > 0 {
            lemma_order_chars_flip(s.last(), x);
        }
        assert(s.insert(k, x) =~= s.push(x));
    }
}

proof fn lemma_insert_file_at(s: Seq<(Seq<char>, usize)>, x: (Seq<char>, usize), k: int)
    requires
        0 <= k <= s.len(),
        k > 0 ==> order_chars(s[k - 1].0, x.0) <= 0,
        forall|i: int| k <= i < s.len() ==> order_chars((#[trigger] s[i]).0, x.0) > 0,
    ensures
        insert_file(s, x) == if k > 0 && s[k - 1].0 == x.0 {
            s.update(k - 1, x)
        } else {
            s.insert(k, x)
        },
    decreases s.len() - k,
{
    if k < s.len() {
        lemma_order_chars_flip(s.last().0, x.0);
        lemma_insert_file_at(s.drop_last(), x, k);
        if k > 0 && s[k - 1].0 == x.0 {
            assert(s.drop_last().update(k - 1, x).push(s.last()) =~= s.update(k - 1, x));
        } else {
            assert(s.drop_last().insert(k, x).push(s.last()) =~= s.insert(k, x));
        }
    } else {
        if k > 0 {
            lemma_order_chars_flip(s.last().0, x.0);
            assert(s.drop_last().push(x) =~= s.update(k - 1, x));
        }
        assert(s.insert(k, x) =~= s.push(x));
    }
}

fn add_name(names: &mut Vec<String>, x: &str)
    ensures
        strs(final(names)@) == insert_name(strs(old(names)@), x@),
{
    let ghost s = strs(names@);
    let mut k: usize = names.len();
    while k > 0 && chars_order(names[k - 1].as_str(), x) > 0
        invariant
            k <= names@.len(),
            names@ == old(names)@,
            s == strs(names@),
            forall|i: int| k <= i < s.len() ==> order_chars(#[trigger] s[i], x@) > 0,
        decreases k,
    {
        assert(s[k - 1] == names@[k - 1]@);
        k -= 1;
    }
    proof {
        if k > 0 {
            assert(s[k - 1] == names@[k - 1]@);
            lemma_order_chars_flip(s[k - 1], x@);
        }
        lemma_insert_name_at(s, x@, k as int);
    }
    if k > 0 && chars_order(names[k - 1].as_str(), x) == 0 {
        return ;
    }
    names.insert(k, copy(x));
    assert(strs(names@) =~= s.insert(k as int, x@));
}

spec fn named(v: Seq<(String, usize)>) -> Seq<(Seq<char>, usize)> {
    v.map_values(|f: (String, usize)| (f.0@, f.1))
}

fn add_file(fs: &mut Vec<(String, usize)>, x: &str, idx: usize)
    ensures
        named(final(fs)@) == insert_file(named(old(fs)@), (x@, idx)),
{
    let ghost s = named(fs@);
    let mut k: usize = fs.len();
    while k > 0 && chars_order(fs[k - 1].0.as_str(), x) > 0
        invariant
            k <= fs@.len(),
            fs@ == old(fs)@,
            s == named(fs@),
            forall|i: int| k <= i < s.len() ==> order_chars((#[trigger] s[i]).0, x@) > 0,
        decreases k,
    {
        assert(s[k - 1] == (fs@[k - 1].0@, fs@[k - 1].1));
        k -= 1;
    }
    proof {
        if k > 0 {
            assert(s[k - 1] == (fs@[k - 1].0@, fs@[k - 1].1));
            lemma_order_chars_flip(s[k - 1].0, x@);
        }
        lemma_insert_file_at(s, (x@, idx), k as int);
    }
    if k > 0 && chars_order(fs[k - 1].0.as_str(), x) == 0 {
        fs.set(k - 1, (copy(x), idx));
        assert(named(fs@) =~= s.update(k - 1, (x@, idx)));
    } else {
        fs.insert(k, (copy(x), idx));
        assert(named(fs@) =~= s.insert(k as int, (x@, idx)));
    }
}

/// The directories of a level.
fn level_dirs(all: &Vec<Leaf>, sel: &Vec<usize>, at: usize) -> (r: Vec<String>)
    requires
        chosen_ok(all@, sel@, at as int),
    ensures
        strs(r@) == dir_names(chosen(all@, sel@, at as int)),
{
    let ghost items = chosen(all@, sel@, at as int);
    let mut out: Vec<String> = Vec::new();
    let mut i: usize = 0;
    assert(strs(out@) =~= dirs_upto(items, 0));
    while i < sel.len()
        invariant
            i <= sel@.len(),
            chosen_ok(all@, sel@, at as int),
            items == chosen(all@, sel@, at as int),
            strs(out@) == dirs_upto(items, i as int),
        decreases sel@.len() - i,
    {
        let leaf = &all[sel[i]];
        assert(items[i as int].names == strs(leaf.names@).skip(at as int));
        if leaf.names.len() - at >= 2 {
            assert(items[i as int].names[0] == leaf.names@[at as int]@);
            add_name(&mut out, leaf.names[at].as_str());
        }
        i += 1;
    }
    out
}

/// The files of a level.
fn level_files(all: &Vec<Leaf>, sel: &Vec<usize>, at: usize) -> (r: Vec<(String, usize)>)
    requires
        chosen_ok(all@, sel@, at as int),
    ensures
        named(r@) == files(chosen(all@, sel@, at as int)),
{
    let ghost items = chosen(all@, sel@, at as int);
    let mut out: Vec<(String, usize)> = Vec::new();
    let mut i: usize = 0;
    assert(named(out@) =~= files_upto(items, 0));
    while i < sel.len()
        invariant
            i <= sel@.len(),
            chosen_ok(all@, sel@, at as int),
            items == chosen(all@, sel@, at as int),
            named(out@) == files_upto(items, i as int),
        decreases sel@.len() - i,
    {
        let leaf = &all[sel[i]];
        assert(items[i as int].names == strs(leaf.names@).skip(at as int));
        if leaf.names.len() - at == 1 {
            assert(items[i as int].names[0] == leaf.names@[at as int]@);
            add_file(&mut out, leaf.names[at].as_str(), leaf.idx);
        }
        i += 1;
    }
    out
}

/// The leaves of directory `name`.
fn level_under(all: &Vec<Leaf>, sel: &Vec<usize>, at: usize, name: &str) -> (r: Vec<usize>)
    requires
        chosen_ok(all@, sel@, at as int),
        at < usize::MAX,
    ensures
        chosen_ok(all@, r@, at + 1),
        chosen(all@, r@, at + 1) == under(chosen(all@, sel@, at as int), name@),
{
    let ghost items = chosen(all@, sel@, at as int);
    let mut out: Vec<usize> = Vec::new();
    let mut i: usize = 0;
    assert(chosen(all@, out@, at + 1) =~= under_upto(items, name@, 0));
    while i < sel.len()
        invariant
            i <= sel@.len(),
            chosen_ok(all@, sel@, at as int),
            items == chosen(all@, sel@, at as int),
            chosen_ok(all@, out@, at + 1),
            chosen(all@, out@, at + 1) == under_upto(items, name@, i as int),
        decreases sel@.len() - i,
    {
        let j = sel[i];
        let leaf = &all[j];
        assert(items[i as int].names == strs(leaf.names@).skip(at as int));
        if leaf.names.len() - at >= 2 {
            assert(items[i as int].names[0] == leaf.names@[at as int]@);
            if chars_order(leaf.names[at].as_str(), name) == 0 {
                proof {
                    lemma_order_chars_flip(leaf.names@[at as int]@, name@);
                    lemma_chosen_push(all@, out@, at + 1, j);
                    assert(strs(leaf.names@).skip(at + 1) =~= items[i as int].names.skip(1));
                }
                out.push(j);
            } else {
                proof {
                    lemma_order_chars_flip(leaf.names@[at as int]@, name@);
                }
            }
        }
        i += 1;
    }
    out
}

fn emit(
    all: &Vec<Leaf>,
    sel: &Vec<usize>,
    at: usize,
    depth: usize,
    prefix: &str,
    collapsed: &Vec<String>,
    rows: &mut Vec<TreeRow>,
)
    requires
        chosen_ok(all@, sel@, at as int),
        depth <= at,
    ensures
        rows_view(final(rows)@) == rows_view(old(rows)@) + level_rows(
            chosen(all@, sel@, at as int),
            depth as int,
            prefix@,
            strs(collapsed@),
        ),
    decreases height(chosen(all@, sel@, at as int)),
{
    broadcast use lemma_rows_push;

    let ghost items = chosen(all@, sel@, at as int);
    let ghost hidden_paths = strs(collapsed@);
    let ghost start = rows_view(rows@);
    let dirs = level_dirs(all, sel, at);
    let mut d: usize = 0;
    assert(start + dir_rows(items, 0, depth as int, prefix@, hidden_paths) =~= start);
    while d < dirs.len()
        invariant
            d <= dirs@.len(),
            chosen_ok(all@, sel@, at as int),
            depth <= at,
            items == chosen(all@, sel@, at as int),
            hidden_paths == strs(collapsed@),
            strs(dirs@) == dir_names(items),
            rows_view(rows@) == start + dir_rows(
                items,
                d as nat,
                depth as int,
                prefix@,
                hidden_paths,
            ),
        decreases dirs@.len() - d,
    {
        let ghost done = dir_rows(items, d as nat, depth as int, prefix@, hidden_paths);
        let ghost name = dir_names(items)[d as int];
        proof {
            assert(name == dirs@[d as int]@);
            lemma_dirs_high(items, items.len() as int);
            lemma_height(items, items.len() as int);
            lemma_under_lower(items, name);
            lemma_fold_lower(seq![name], under(items, name));
            lemma_room(all@, sel@, at as int);
        }
        let mut chain: Vec<String> = Vec::new();
        chain.push(copy(dirs[d].as_str()));
        assert(strs(chain@) =~= seq![name]);
        let mut level: usize = at + 1;
        let mut cur = level_under(all, sel, at, dirs[d].as_str());
        loop
            invariant_except_break
                chosen_ok(all@, cur@, level as int),
                at < level,
                fold_chain(strs(chain@), chosen(all@, cur@, level as int)) == fold_chain(
                    seq![name],
                    under(items, name),
                ),
            ensures
                chosen_ok(all@, cur@, level as int),
                at < level,
                fold_chain(seq![name], under(items, name)) == (
                    strs(chain@),
                    chosen(all@, cur@, level as int),
                ),
            decreases height(chosen(all@, cur@, level as int)),
        {
            let ghost here = chosen(all@, cur@, level as int);
            let fs = level_files(all, &cur, level);
            if fs.len() > 0 {
                break;
            }
            let names = level_dirs(all, &cur, level);
            if names.len() != 1 {
                break;
            }
            proof {
                assert(strs(names@)[0] == names@[0]@);
                lemma_dirs_high(here, here.len() as int);
                lemma_under_lower(here, names@[0]@);
                lemma_room(all@, cur@, level as int);
            }
            let below = level_under(all, &cur, level, names[0].as_str());
            chain.push(copy(names[0].as_str()));
            cur = below;
            level += 1;
        }
        let mut label = joined(&chain, "/");
        append(&mut label, "/");
        let mut path = copy(prefix);
        append(&mut path, label.as_str());
        let hidden = has_string(collapsed, path.as_str());
        let ghost text = chain_text(strs(chain@));
        let row = TreeRow::Dir { depth, name: label, path: copy(path.as_str()), collapsed: hidden };
        proof {
            assert(row@ == TreeRowView::Dir {
                depth: depth as int,
                name: text,
                path: prefix@ + text,
                collapsed: hidden,
            });
            assert((start + done).push(row@) =~= start + done.push(row@));
        }
        rows.push(row);
        if !hidden {
            emit(all, &cur, level, depth + 1, path.as_str(), collapsed, rows);
            proof {
                let sub = level_rows(
                    chosen(all@, cur@, level as int),
                    depth + 1,
                    path@,
                    hidden_paths,
                );
                assert((start + done.push(row@)) + sub =~= start + (done.push(row@) + sub));
            }
        } else {
            assert(done.push(row@) + Seq::<TreeRowView>::empty() =~= done.push(row@));
        }
        d += 1;
        proof {
            assert(rows_view(rows@) == start + dir_rows(
                items,
                d as nat,
                depth as int,
                prefix@,
                hidden_paths,
            ));
        }
    }
    let fs = level_files(all, sel, at);
    let ghost before = rows_view(rows@);
    let mut i: usize = 0;
    assert(before + file_rows(files(items), depth as int).take(0) =~= before);
    while i < fs.len()
        invariant
            i <= fs@.len(),
            named(fs@) == files(items),
            rows_view(rows@) == before + file_rows(files(items), depth as int).take(i as int),
        decreases fs@.len() - i,
    {
        let ghost want = file_rows(files(items), depth as int);
        let row = TreeRow::File { depth, idx: fs[i].1 };
        proof {
            assert(named(fs@)[i as int] == (fs@[i as int].0@, fs@[i as int].1));
            assert(want[i as int] == row@);
            assert((before + want.take(i as int)).push(row@) =~= before + want.take(i + 1));
        }
        rows.push(row);
        i += 1;
    }
    proof {
        let want = file_rows(files(items), depth as int);
        assert(want.take(i as int) =~= want);
        let ds = dir_rows(items, dir_names(items).len(), depth as int, prefix@, hidden_paths);
        assert((start + ds) + want =~= start + (ds + want));
    }
}

/// A level with directories is not the last that can be counted.
proof fn lemma_room(all: Seq<Leaf>, sel: Seq<usize>, at: int)
    requires
        chosen_ok(all, sel, at),
        height(chosen(all, sel, at)) >= 1,
    ensures
        at < usize::MAX,
{
    let items = chosen(all, sel, at);
    if forall|i: int| 0 <= i < items.len() ==> (#[trigger] items[i]).names.len() == 0 {
        lemma_height_bound(items, items.len() as int, 0);
    }
    let i = choose|i: int| 0 <= i < items.len() && (#[trigger] items[i]).names.len() != 0;
    assert(items[i].names == strs(all[sel[i] as int].names@).skip(at));
    assert(all[sel[i] as int].names@.len() == all[sel[i] as int].names.len());
}

fn shown(c: &Component) -> (r: String)
    ensures
        r@ == part_name(c@),
{
    match c {
        Component::Root => copy("/"),
        Component::Current => copy("."),
        Component::Parent => copy(".."),
        Component::Name(s) => copy(s.as_str()),
    }
}

fn names_of(path: &str) -> (r: Vec<String>)
    ensures
        strs(r@) == path_names(path@),
{
    let parts = components_of(path);
    let mut out: Vec<String> = Vec::new();
    let mut i: usize = 0;
    assert(strs(out@) =~= path_names(path@).take(0));
    while i < parts.len()
        invariant
            i <= parts@.len(),
            comps(parts@) == components(path@),
            strs(out@) == path_names(path@).take(i as int),
        decreases parts@.len() - i,
    {
        proof {
            assert(comps(parts@)[i as int] == parts@[i as int]@);
            assert(path_names(path@).take(i + 1) =~= path_names(path@).take(i as int).push(
                part_name(parts@[i as int]@),
            ));
        }
        out.push(shown(&parts[i]));
        i += 1;
    }
    assert(path_names(path@).take(i as int) =~= path_names(path@));
    out
}

pub open spec fn pairs_view(entries: Seq<(usize, String)>) -> Seq<(usize, Seq<char>)> {
    entries.map_values(|e: (usize, String)| (e.0, e.1@))
}

/// Build the tree rows for one section's `(idx, path)` pairs. `idx` is
/// whatever the caller wants echoed back on `TreeRow::File` (its index into
/// the entries).
pub fn build_tree(entries: &Vec<(usize, String)>, collapsed: &Vec<String>) -> (r: Vec<TreeRow>)
    ensures
        rows_view(r@) == tree(pairs_view(entries@), strs(collapsed@)),
{
    let mut all: Vec<Leaf> = Vec::new();
    let mut sel: Vec<usize> = Vec::new();
    let ghost want = items_of(pairs_view(entries@));
    let mut i: usize = 0;
    while i < entries.len()
        invariant
            i <= entries@.len(),
            all@.len() == i,
            sel@.len() == i,
            want == items_of(pairs_view(entries@)),
            forall|k: int| 0 <= k < i ==> #[trigger] sel@[k] == k,
            forall|k: int|
                0 <= k < i ==> strs((#[trigger] all@[k]).names@) == want[k].names && all@[k].idx
                    == want[k].idx,
        decreases entries@.len() - i,
    {
        let names = names_of(entries[i].1.as_str());
        assert(want[i as int] == (Item { names: path_names(entries@[i as int].1@), idx: entries@[i as int].0 }));
        all.push(Leaf { names, idx: entries[i].0 });
        sel.push(i);
        i += 1;
    }
    proof {
        assert(chosen(all@, sel@, 0) =~= want) by {
            assert forall|k: int| 0 <= k < sel@.len() implies #[trigger] chosen(all@, sel@, 0)[k]
                == want[k] by {
                assert(sel@[k] == k);
                assert(strs(all@[k].names@).skip(0) =~= want[k].names);
            }
        }
    }
    let mut rows: Vec<TreeRow> = Vec::new();
    let ghost none = rows_view(rows@);
    let root = String::new();
    assert(root@ =~= Seq::<char>::empty());
    emit(&all, &sel, 0, 0, root.as_str(), collapsed, &mut rows);
    assert(none + level_rows(want, 0, root@, strs(collapsed@)) =~= level_rows(
        want,
        0,
        root@,
        strs(collapsed@),
    ));
    rows
}

// ---- what a tree shows -----------------------------------------------------

/// A row for file `idx` is among `rows`.
pub open spec fn shows(rows: Seq<TreeRowView>, idx: usize) -> bool {
    exists|k: int| 0 <= k < rows.len() && is_file(#[trigger] rows[k], idx)
}

pub open spec fn is_file(row: TreeRowView, idx: usize) -> bool {
    row matches TreeRowView::File { idx: i, .. } && i == idx
}

/// Items that lead to the same file have the same index, and each leads somewhere.
pub open spec fn coherent(items: Seq<Item>) -> bool {
    &&& forall|i: int| 0 <= i < items.len() ==> (#[trigger] items[i]).names.len() >= 1
    &&& forall|i: int, j: int|
        0 <= i < items.len() && 0 <= j < items.len() && (#[trigger] items[i]).names == (
        #[trigger] items[j]).names ==> items[i].idx == items[j].idx
}

pub open spec fn has_idx(items: Seq<Item>, idx: usize) -> bool {
    exists|i: int| 0 <= i < items.len() && (#[trigger] items[i]).idx == idx
}

proof fn lemma_shows_concat(a: Seq<TreeRowView>, b: Seq<TreeRowView>, idx: usize)
    ensures
        shows(a + b, idx) <==> shows(a, idx) || shows(b, idx),
{
    let c = a + b;
    if shows(a, idx) {
        let k = choose|k: int| 0 <= k < a.len() && is_file(#[trigger] a[k], idx);
        assert(is_file(c[k], idx));
    }
    if shows(b, idx) {
        let k = choose|k: int| 0 <= k < b.len() && is_file(#[trigger] b[k], idx);
        assert(is_file(c[k + a.len()], idx));
    }
    if shows(c, idx) {
        let k = choose|k: int| 0 <= k < c.len() && is_file(#[trigger] c[k], idx);
        if k < a.len() {
            assert(is_file(a[k], idx));
        } else {
            assert(is_file(b[k - a.len()], idx));
        }
    }
}

proof fn lemma_insert_name_has(s: Seq<Seq<char>>, x: Seq<char>)
    ensures
        insert_name(s, x).contains(x),
        forall|y: Seq<char>| #[trigger] s.contains(y) ==> insert_name(s, x).contains(y),
        forall|y: Seq<char>| #[trigger] insert_name(s, x).contains(y) ==> y == x || s.contains(y),
    decreases s.len(),
{
    let r = insert_name(s, x);
    if s.len() == 0 || order_chars(s.last(), x) < 0 {
        assert(r[s.len() as int] == x);
        assert forall|y: Seq<char>| #[trigger] s.contains(y) implies r.contains(y) by {
            let k = choose|k: int| 0 <= k < s.len() && s[k] == y;
            assert(r[k] == y);
        }
    } else if s.last() == x {
        assert(s[s.len() - 1] == x);
    } else {
        let t = s.drop_last();
        lemma_insert_name_has(t, x);
        let u = insert_name(t, x);
        let kx = choose|k: int| 0 <= k < u.len() && u[k] == x;
        assert(r[kx] == x);
        assert forall|y: Seq<char>| #[trigger] s.contains(y) implies r.contains(y) by {
            let k = choose|k: int| 0 <= k < s.len() && s[k] == y;
            if k < t.len() {
                assert(t[k] == y);
                assert(t.contains(y));
                let m = choose|m: int| 0 <= m < u.len() && u[m] == y;
                assert(r[m] == y);
            } else {
                assert(r[u.len() as int] == y);
            }
        }
        assert forall|y: Seq<char>| #[trigger] r.contains(y) implies y == x || s.contains(y) by {
            let k = choose|k: int| 0 <= k < r.len() && r[k] == y;
            if k < u.len() {
                assert(u[k] == y);
                assert(u.contains(y));
                if y != x {
                    let m = choose|m: int| 0 <= m < t.len() && t[m] == y;
                    assert(s[m] == y);
                }
            } else {
                assert(s[s.len() - 1] == y);
            }
        }
    }
}

proof fn lemma_dirs_have(items: Seq<Item>, n: int, i: int)
    requires
        0 <= i < n <= items.len(),
        items[i].names.len() >= 2,
    ensures
        dirs_upto(items, n).contains(items[i].names[0]),
    decreases n,
{
    if items[n - 1].names.len() >= 2 {
        lemma_insert_name_has(dirs_upto(items, n - 1), items[n - 1].names[0]);
    }
    if i < n - 1 {
        lemma_dirs_have(items, n - 1, i);
    }
}

proof fn lemma_insert_file_has(s: Seq<(Seq<char>, usize)>, x: (Seq<char>, usize))
    ensures
        insert_file(s, x).contains(x),
        forall|y: (Seq<char>, usize)|
            #[trigger] s.contains(y) && y.0 != x.0 ==> insert_file(s, x).contains(y),
        forall|y: (Seq<char>, usize)|
            #[trigger] insert_file(s, x).contains(y) ==> y == x || s.contains(y),
    decreases s.len(),
{
    let r = insert_file(s, x);
    if s.len() == 0 || order_chars(s.last().0, x.0) < 0 {
        assert(r[s.len() as int] == x);
        assert forall|y: (Seq<char>, usize)| #[trigger] s.contains(y) && y.0 != x.0 implies r.contains(
            y,
        ) by {
            let k = choose|k: int| 0 <= k < s.len() && s[k] == y;
            assert(r[k] == y);
        }
    } else if s.last().0 == x.0 {
        assert(r[s.len() - 1] == x);
        assert forall|y: (Seq<char>, usize)| #[trigger] s.contains(y) && y.0 != x.0 implies r.contains(
            y,
        ) by {
            let k = choose|k: int| 0 <= k < s.len() && s[k] == y;
            assert(r[k] == y);
        }
        assert forall|y: (Seq<char>, usize)| #[trigger] r.contains(y) implies y == x || s.contains(
            y,
        ) by {
            let k = choose|k: int| 0 <= k < r.len() && r[k] == y;
            if k < s.len() - 1 {
                assert(s[k] == y);
            }
        }
    } else {
        let t = s.drop_last();
        lemma_insert_file_has(t, x);
        let u = insert_file(t, x);
        let kx = choose|k: int| 0 <= k < u.len() && u[k] == x;
        assert(r[kx] == x);
        assert forall|y: (Seq<char>, usize)| #[trigger] s.contains(y) && y.0 != x.0 implies r.contains(
            y,
        ) by {
            let k = choose|k: int| 0 <= k < s.len() && s[k] == y;
            if k < t.len() {
                assert(t[k] == y);
                assert(t.contains(y));
                let m = choose|m: int| 0 <= m < u.len() && u[m] == y;
                assert(r[m] == y);
            } else {
                assert(r[u.len() as int] == y);
            }
        }
        assert forall|y: (Seq<char>, usize)| #[trigger] r.contains(y) implies y == x || s.contains(
            y,
        ) by {
            let k = choose|k: int| 0 <= k < r.len() && r[k] == y;
            if k < u.len() {
                assert(u[k] == y);
                assert(u.contains(y));
                if y != x {
                    let m = choose|m: int| 0 <= m < t.len() && t[m] == y;
                    assert(s[m] == y);
                }
            } else {
                assert(s[s.len() - 1] == y);
            }
        }
    }
}

proof fn lemma_files_have(items: Seq<Item>, n: int, i: int)
    requires
        coherent(items),
        0 <= i < n <= items.len(),
        items[i].names.len() == 1,
    ensures
        files_upto(items, n).contains((items[i].names[0], items[i].idx)),
    decreases n,
{
    let last = items[n - 1];
    if last.names.len() == 1 {
        lemma_insert_file_has(files_upto(items, n - 1), (last.names[0], last.idx));
        if last.names[0] == items[i].names[0] {
            assert(last.names =~= items[i].names);
        }
    }
    if i < n - 1 {
        lemma_files_have(items, n - 1, i);
    }
}

proof fn lemma_files_from(items: Seq<Item>, n: int, f: (Seq<char>, usize))
    requires
        0 <= n <= items.len(),
        files_upto(items, n).contains(f),
    ensures
        exists|i: int|
            0 <= i < n && items[i].names.len() == 1 && items[i].names[0] == f.0
                && (#[trigger] items[i]).idx == f.1,
    decreases n,
{
    if n > 0 {
        let last = items[n - 1];
        if last.names.len() == 1 {
            lemma_insert_file_has(files_upto(items, n - 1), (last.names[0], last.idx));
            if f == (last.names[0], last.idx) {
                assert(items[n - 1].idx == f.1);
            } else {
                lemma_files_from(items, n - 1, f);
            }
        } else {
            lemma_files_from(items, n - 1, f);
        }
    }
}

proof fn lemma_under_has(items: Seq<Item>, name: Seq<char>, n: int, i: int) -> (k: int)
    requires
        0 <= i < n <= items.len(),
        items[i].names.len() >= 2,
        items[i].names[0] == name,
    ensures
        0 <= k < under_upto(items, name, n).len(),
        steps_down(items, name, i, under_upto(items, name, n)[k]),
    decreases n,
{
    if i == n - 1 {
        under_upto(items, name, n - 1).len() as int
    } else {
        lemma_under_has(items, name, n - 1, i)
    }
}

proof fn lemma_under_coherent(items: Seq<Item>, name: Seq<char>)
    requires
        coherent(items),
    ensures
        coherent(under(items, name)),
{
    let n = items.len() as int;
    let u = under(items, name);
    assert forall|k: int| 0 <= k < u.len() implies (#[trigger] u[k]).names.len() >= 1 by {
        let i = lemma_under(items, name, n, k);
    }
    assert forall|a: int, b: int|
        0 <= a < u.len() && 0 <= b < u.len() && (#[trigger] u[a]).names == (#[trigger] u[b]).names
        implies u[a].idx == u[b].idx by {
        let i = lemma_under(items, name, n, a);
        let j = lemma_under(items, name, n, b);
        assert(items[i].names =~= seq![name] + items[i].names.skip(1));
        assert(items[j].names =~= seq![name] + items[j].names.skip(1));
    }
}

/// Folding a chain keeps the files below it.
proof fn lemma_fold_keeps(chain: Seq<Seq<char>>, items: Seq<Item>, idx: usize)
    requires
        coherent(items),
        has_idx(items, idx),
    ensures
        coherent(fold_chain(chain, items).1),
        has_idx(fold_chain(chain, items).1, idx),
    decreases height(items),
{
    if files(items).len() == 0 && dir_names(items).len() == 1 {
        let n = items.len() as int;
        let name = dir_names(items)[0];
        lemma_dirs_high(items, n);
        lemma_under_lower(items, name);
        lemma_under_coherent(items, name);
        let i = choose|i: int| 0 <= i < items.len() && (#[trigger] items[i]).idx == idx;
        if items[i].names.len() == 1 {
            lemma_files_have(items, n, i);
        }
        lemma_dirs_have(items, n, i);
        let k = lemma_under_has(items, name, n, i);
        assert(under(items, name)[k].idx == idx);
        lemma_fold_keeps(chain.push(name), under(items, name), idx);
    }
}

proof fn lemma_dir_rows_show(
    items: Seq<Item>,
    k: nat,
    m: nat,
    depth: int,
    prefix: Seq<char>,
    collapsed: Seq<Seq<char>>,
    idx: usize,
)
    requires
        k <= m <= dir_names(items).len(),
        shows(dir_rows(items, k, depth, prefix, collapsed), idx),
    ensures
        shows(dir_rows(items, m, depth, prefix, collapsed), idx),
    decreases m - k,
{
    if k < m {
        lemma_dir_rows_show(items, k, (m - 1) as nat, depth, prefix, collapsed, idx);
        let before = dir_rows(items, (m - 1) as nat, depth, prefix, collapsed);
        let name = dir_names(items)[m - 1];
        let (chain, sub) = fold_chain(seq![name], under(items, name));
        let path = prefix + chain_text(chain);
        let hidden = collapsed.contains(path);
        let row = TreeRowView::Dir { depth, name: chain_text(chain), path, collapsed: hidden };
        let tail = if hidden {
            Seq::empty()
        } else {
            level_rows(sub, depth + 1, path, collapsed)
        };
        assert(before.push(row) =~= before + seq![row]);
        lemma_shows_concat(before, seq![row], idx);
        lemma_shows_concat(before.push(row), tail, idx);
    }
}

proof fn lemma_level_shows(items: Seq<Item>, depth: int, prefix: Seq<char>, idx: usize)
    requires
        coherent(items),
        has_idx(items, idx),
    ensures
        shows(level_rows(items, depth, prefix, Seq::empty()), idx),
    decreases height(items),
{
    let none = Seq::<Seq<char>>::empty();
    let n = items.len() as int;
    let i = choose|i: int| 0 <= i < items.len() && (#[trigger] items[i]).idx == idx;
    let dirs = dir_rows(items, dir_names(items).len(), depth, prefix, none);
    let fs = file_rows(files(items), depth);
    lemma_shows_concat(dirs, fs, idx);
    if items[i].names.len() == 1 {
        lemma_files_have(items, n, i);
        let f = (items[i].names[0], idx);
        let k = choose|k: int| 0 <= k < files(items).len() && files(items)[k] == f;
        assert(is_file(fs[k], idx));
    } else {
        let name = items[i].names[0];
        lemma_dirs_have(items, n, i);
        let k = choose|k: int| 0 <= k < dir_names(items).len() && dir_names(items)[k] == name;
        let u = under(items, name);
        let j = lemma_under_has(items, name, n, i);
        assert(u[j].idx == idx);
        lemma_under_coherent(items, name);
        lemma_fold_keeps(seq![name], u, idx);
        let (chain, sub) = fold_chain(seq![name], u);
        let path = prefix + chain_text(chain);
        lemma_dirs_high(items, n);
        lemma_under_lower(items, name);
        lemma_fold_lower(seq![name], u);
        lemma_level_shows(sub, depth + 1, path, idx);
        let row = TreeRowView::Dir { depth, name: chain_text(chain), path, collapsed: false };
        let before = dir_rows(items, k as nat, depth, prefix, none).push(row);
        lemma_shows_concat(before, level_rows(sub, depth + 1, path, none), idx);
        assert(!none.contains(path));
        assert(dir_rows(items, (k + 1) as nat, depth, prefix, none) == before + level_rows(
            sub,
            depth + 1,
            path,
            none,
        ));
        lemma_dir_rows_show(
            items,
            (k + 1) as nat,
            dir_names(items).len(),
            depth,
            prefix,
            none,
            idx,
        );
    }
}

proof fn lemma_level_only(
    items: Seq<Item>,
    depth: int,
    prefix: Seq<char>,
    collapsed: Seq<Seq<char>>,
    idx: usize,
)
    requires
        shows(level_rows(items, depth, prefix, collapsed), idx),
    ensures
        has_idx(items, idx),
    decreases height(items), dir_names(items).len() + 1,
{
    let dirs = dir_rows(items, dir_names(items).len(), depth, prefix, collapsed);
    let fs = file_rows(files(items), depth);
    lemma_shows_concat(dirs, fs, idx);
    if shows(fs, idx) {
        let k = choose|k: int| 0 <= k < fs.len() && is_file(#[trigger] fs[k], idx);
        assert(files(items).contains(files(items)[k]));
        lemma_files_from(items, items.len() as int, files(items)[k]);
    } else {
        lemma_dir_rows_only(items, dir_names(items).len(), depth, prefix, collapsed, idx);
    }
}

proof fn lemma_fold_only(chain: Seq<Seq<char>>, items: Seq<Item>, idx: usize)
    requires
        has_idx(fold_chain(chain, items).1, idx),
    ensures
        has_idx(items, idx),
    decreases height(items),
{
    if files(items).len() == 0 && dir_names(items).len() == 1 {
        let name = dir_names(items)[0];
        lemma_dirs_high(items, items.len() as int);
        lemma_under_lower(items, name);
        lemma_fold_only(chain.push(name), under(items, name), idx);
        lemma_under_only(items, name, idx);
    }
}

proof fn lemma_under_only(items: Seq<Item>, name: Seq<char>, idx: usize)
    requires
        has_idx(under(items, name), idx),
    ensures
        has_idx(items, idx),
{
    let u = under(items, name);
    let k = choose|k: int| 0 <= k < u.len() && (#[trigger] u[k]).idx == idx;
    let i = lemma_under(items, name, items.len() as int, k);
    assert(items[i].idx == idx);
}

proof fn lemma_dir_rows_only(
    items: Seq<Item>,
    k: nat,
    depth: int,
    prefix: Seq<char>,
    collapsed: Seq<Seq<char>>,
    idx: usize,
)
    requires
        shows(dir_rows(items, k, depth, prefix, collapsed), idx),
    ensures
        has_idx(items, idx),
    decreases height(items), k,
{
    if 0 < k <= dir_names(items).len() {
        let before = dir_rows(items, (k - 1) as nat, depth, prefix, collapsed);
        let name = dir_names(items)[k - 1];
        let (chain, sub) = fold_chain(seq![name], under(items, name));
        let path = prefix + chain_text(chain);
        let hidden = collapsed.contains(path);
        let row = TreeRowView::Dir { depth, name: chain_text(chain), path, collapsed: hidden };
        let tail = if hidden {
            Seq::empty()
        } else {
            level_rows(sub, depth + 1, path, collapsed)
        };
        assert(before.push(row) =~= before + seq![row]);
        lemma_shows_concat(before, seq![row], idx);
        lemma_shows_concat(before.push(row), tail, idx);
        lemma_dirs_high(items, items.len() as int);
        lemma_under_lower(items, name);
        lemma_fold_lower(seq![name], under(items, name));
        if shows(before, idx) {
            lemma_dir_rows_only(items, (k - 1) as nat, depth, prefix, collapsed, idx);
        } else if shows(tail, idx) {
            lemma_level_only(sub, depth + 1, path, collapsed, idx);
            lemma_fold_only(seq![name], under(items, name), idx);
            lemma_under_only(items, name, idx);
        } else {
            let r = seq![row];
            let j = choose|j: int| 0 <= j < r.len() && is_file(#[trigger] r[j], idx);
            assert(r[j] == row);
        }
    }
}

/// No path is empty, and entries for one path carry one index; so it is where
/// the paths are pairwise different.
pub open spec fn unambiguous(entries: Seq<(usize, Seq<char>)>) -> bool {
    &&& forall|i: int| 0 <= i < entries.len() ==> components((#[trigger] entries[i]).1).len() >= 1
    &&& forall|i: int, j: int|
        0 <= i < entries.len() && 0 <= j < entries.len() && components((#[trigger] entries[i]).1)
            == components((#[trigger] entries[j]).1) ==> entries[i].0 == entries[j].0
}

proof fn lemma_part_names_differ(p: Part, q: Part)
    requires
        is_proper(p),
        is_proper(q),
        part_name(p) == part_name(q),
    ensures
        p == q,
{
    reveal_strlit("/");
    reveal_strlit(".");
    reveal_strlit("..");
    assert("/"@ =~= seq!['/']);
    assert("."@ =~= seq!['.']);
    assert(".."@ =~= seq!['.', '.']);
    assert(seq!['/'][0] == '/');
    assert(seq!['/'].contains('/'));
    assert(seq!['.'][0] == '.');
    assert(seq!['/'] != seq!['.']);
    assert(seq!['.'].len() != seq!['.', '.'].len());
    assert(seq!['/'].len() != seq!['.', '.'].len());
}

/// Different paths have different names.
proof fn lemma_path_names_differ(a: Seq<char>, b: Seq<char>)
    requires
        path_names(a) == path_names(b),
    ensures
        components(a) == components(b),
{
    let x = components(a);
    let y = components(b);
    lemma_components_are_proper(a);
    lemma_components_are_proper(b);
    assert(path_names(a).len() == x.len() && path_names(b).len() == y.len());
    assert forall|i: int| 0 <= i < x.len() implies x[i] == y[i] by {
        assert(path_names(a)[i] == part_name(x[i]));
        assert(path_names(b)[i] == part_name(y[i]));
        lemma_part_names_differ(x[i], y[i]);
    }
    assert(x =~= y);
}

proof fn lemma_unambiguous(entries: Seq<(usize, Seq<char>)>)
    requires
        unambiguous(entries),
    ensures
        coherent(items_of(entries)),
{
    let items = items_of(entries);
    assert forall|i: int| 0 <= i < items.len() implies (#[trigger] items[i]).names.len() >= 1 by {
        assert(items[i].names == path_names(entries[i].1));
        assert(components(entries[i].1).len() >= 1);
    }
    assert forall|i: int, j: int|
        0 <= i < items.len() && 0 <= j < items.len() && (#[trigger] items[i]).names == (
        #[trigger] items[j]).names implies items[i].idx == items[j].idx by {
        lemma_path_names_differ(entries[i].1, entries[j].1);
        assert(components(entries[i].1) == components(entries[j].1));
    }
}

/// A tree with nothing collapsed shows every file, as long as entries for one
/// path carry one index and no path is empty.
pub proof fn law_a_tree_shows_every_file(entries: Seq<(usize, Seq<char>)>, i: int)
    requires
        0 <= i < entries.len(),
        unambiguous(entries),
    ensures
        shows(tree(entries, Seq::empty()), entries[i].0),
{
    lemma_unambiguous(entries);
    assert(items_of(entries)[i].idx == entries[i].0);
    lemma_level_shows(items_of(entries), 0, Seq::empty(), entries[i].0);
}

/// Whatever is collapsed, a tree shows nothing but the entries' files.
pub proof fn law_a_tree_shows_only_entries(
    entries: Seq<(usize, Seq<char>)>,
    collapsed: Seq<Seq<char>>,
    idx: usize,
)
    requires
        shows(tree(entries, collapsed), idx),
    ensures
        exists|i: int| 0 <= i < entries.len() && (#[trigger] entries[i]).0 == idx,
{
    lemma_level_only(items_of(entries), 0, Seq::empty(), collapsed, idx);
    let items = items_of(entries);
    let i = choose|i: int| 0 <= i < items.len() && (#[trigger] items[i]).idx == idx;
    assert(entries[i].0 == idx);
}

// ---- the order of the entries ------------------------------------------------

/// Each element's key comes before the next one's.
pub open spec fn ascending<A>(s: Seq<A>, key: spec_fn(A) -> Seq<char>) -> bool {
    forall|i: int, j: int|
        0 <= i < j < s.len() ==> order_chars(key(#[trigger] s[i]), key(#[trigger] s[j])) < 0
}

proof fn lemma_before(a: Seq<char>, b: Seq<char>, c: Seq<char>)
    requires
        order_chars(a, b) < 0,
        order_chars(b, c) < 0,
    ensures
        order_chars(a, c) < 0,
{
    lemma_order_chars_trans(a, b, c);
}

/// An ascending sequence with one more element behind its last is ascending.
proof fn lemma_ascending_push<A>(s: Seq<A>, x: A, key: spec_fn(A) -> Seq<char>)
    requires
        ascending(s, key),
        forall|i: int| 0 <= i < s.len() ==> order_chars(key(#[trigger] s[i]), key(x)) < 0,
    ensures
        ascending(s.push(x), key),
{
    let r = s.push(x);
    assert forall|i: int, j: int| 0 <= i < j < r.len() implies order_chars(
        key(#[trigger] r[i]),
        key(#[trigger] r[j]),
    ) < 0 by {
        assert(r[i] == s[i]);
        if j < s.len() {
            assert(r[j] == s[j]);
        }
    }
}

proof fn lemma_ascending_drop<A>(s: Seq<A>, key: spec_fn(A) -> Seq<char>)
    requires
        s.len() > 0,
        ascending(s, key),
    ensures
        ascending(s.drop_last(), key),
        forall|i: int|
            0 <= i < s.len() - 1 ==> order_chars(key(#[trigger] s[i]), key(s.last())) < 0,
{
    let t = s.drop_last();
    assert forall|i: int, j: int| 0 <= i < j < t.len() implies order_chars(
        key(#[trigger] t[i]),
        key(#[trigger] t[j]),
    ) < 0 by {
        assert(t[i] == s[i] && t[j] == s[j]);
    }
    assert forall|i: int| 0 <= i < s.len() - 1 implies order_chars(
        key(#[trigger] s[i]),
        key(s.last()),
    ) < 0 by {
        assert(s.last() == s[s.len() - 1]);
    }
}

/// Ascending sequences of the same elements are the same.
proof fn lemma_ascending_unique<A>(a: Seq<A>, b: Seq<A>, key: spec_fn(A) -> Seq<char>)
    requires
        ascending(a, key),
        ascending(b, key),
        forall|x: A| #[trigger] a.contains(x) ==> b.contains(x),
        forall|x: A| #[trigger] b.contains(x) ==> a.contains(x),
    ensures
        a == b,
    decreases a.len(),
{
    if a.len() == 0 {
        if b.len() > 0 {
            assert(b.contains(b[0]));
        }
        assert(a =~= b);
    } else {
        let x = a.last();
        assert(a.contains(a[a.len() - 1]));
        assert(b.contains(x));
        let y = b.last();
        assert(b.contains(b[b.len() - 1]));
        assert(a.contains(y));
        let j = choose|j: int| 0 <= j < b.len() && b[j] == x;
        let i = choose|i: int| 0 <= i < a.len() && a[i] == y;
        lemma_ascending_drop(a, key);
        lemma_ascending_drop(b, key);
        lemma_order_chars_flip(key(x), key(y));
        assert(x == y);
        let s = a.drop_last();
        let t = b.drop_last();
        lemma_order_chars_flip(key(x), key(x));
        assert forall|z: A| #[trigger] s.contains(z) implies t.contains(z) by {
            let k = choose|k: int| 0 <= k < s.len() && s[k] == z;
            assert(a[k] == z);
            assert(a.contains(z));
            let m = choose|m: int| 0 <= m < b.len() && b[m] == z;
            assert(m < t.len());
            assert(t[m] == z);
        }
        assert forall|z: A| #[trigger] t.contains(z) implies s.contains(z) by {
            let k = choose|k: int| 0 <= k < t.len() && t[k] == z;
            assert(b[k] == z);
            assert(b.contains(z));
            let m = choose|m: int| 0 <= m < a.len() && a[m] == z;
            assert(m < s.len());
            assert(s[m] == z);
        }
        lemma_ascending_unique(s, t, key);
        assert(a =~= s.push(x));
        assert(b =~= t.push(y));
    }
}

pub open spec fn by_name() -> spec_fn(Seq<char>) -> Seq<char> {
    |s: Seq<char>| s
}

pub open spec fn by_file() -> spec_fn((Seq<char>, usize)) -> Seq<char> {
    |f: (Seq<char>, usize)| f.0
}

proof fn lemma_insert_name_ascending(s: Seq<Seq<char>>, x: Seq<char>)
    requires
        ascending(s, by_name()),
    ensures
        ascending(insert_name(s, x), by_name()),
    decreases s.len(),
{
    let key = by_name();
    if s.len() > 0 {
        lemma_ascending_drop(s, key);
        lemma_order_chars_flip(s.last(), x);
    }
    if s.len() == 0 || order_chars(s.last(), x) < 0 {
        assert forall|i: int| 0 <= i < s.len() implies order_chars(key(#[trigger] s[i]), key(x))
            < 0 by {
            if i < s.len() - 1 {
                lemma_before(s[i], s.last(), x);
            }
        }
        lemma_ascending_push(s, x, key);
    } else if s.last() != x {
        let t = s.drop_last();
        lemma_insert_name_ascending(t, x);
        lemma_insert_name_has(t, x);
        let u = insert_name(t, x);
        assert forall|i: int| 0 <= i < u.len() implies order_chars(
            key(#[trigger] u[i]),
            key(s.last()),
        ) < 0 by {
            assert(u.contains(u[i]));
            if u[i] != x {
                let m = choose|m: int| 0 <= m < t.len() && t[m] == u[i];
                assert(s[m] == u[i]);
            }
        }
        lemma_ascending_push(u, s.last(), key);
    }
}

proof fn lemma_dirs_ascending(items: Seq<Item>, n: int)
    requires
        0 <= n <= items.len(),
    ensures
        ascending(dirs_upto(items, n), by_name()),
    decreases n,
{
    if n > 0 {
        lemma_dirs_ascending(items, n - 1);
        if items[n - 1].names.len() >= 2 {
            lemma_insert_name_ascending(dirs_upto(items, n - 1), items[n - 1].names[0]);
        }
    }
}

proof fn lemma_dirs_from(items: Seq<Item>, n: int, x: Seq<char>) -> (i: int)
    requires
        0 <= n <= items.len(),
        dirs_upto(items, n).contains(x),
    ensures
        0 <= i < n,
        items[i].names.len() >= 2,
        items[i].names[0] == x,
    decreases n,
{
    let last = items[n - 1];
    if last.names.len() >= 2 {
        lemma_insert_name_has(dirs_upto(items, n - 1), last.names[0]);
        if x == last.names[0] {
            n - 1
        } else {
            lemma_dirs_from(items, n - 1, x)
        }
    } else {
        lemma_dirs_from(items, n - 1, x)
    }
}

proof fn lemma_insert_file_ascending(s: Seq<(Seq<char>, usize)>, x: (Seq<char>, usize))
    requires
        ascending(s, by_file()),
    ensures
        ascending(insert_file(s, x), by_file()),
    decreases s.len(),
{
    let key = by_file();
    if s.len() > 0 {
        lemma_ascending_drop(s, key);
        lemma_order_chars_flip(s.last().0, x.0);
    }
    if s.len() == 0 || order_chars(s.last().0, x.0) < 0 {
        assert forall|i: int| 0 <= i < s.len() implies order_chars(key(#[trigger] s[i]), key(x))
            < 0 by {
            if i < s.len() - 1 {
                lemma_before(s[i].0, s.last().0, x.0);
            }
        }
        lemma_ascending_push(s, x, key);
    } else if s.last().0 == x.0 {
        let t = s.drop_last();
        assert forall|i: int| 0 <= i < t.len() implies order_chars(key(#[trigger] t[i]), key(x))
            < 0 by {
            assert(t[i] == s[i]);
        }
        lemma_ascending_push(t, x, key);
    } else {
        let t = s.drop_last();
        lemma_insert_file_ascending(t, x);
        lemma_insert_file_has(t, x);
        let u = insert_file(t, x);
        assert forall|i: int| 0 <= i < u.len() implies order_chars(
            key(#[trigger] u[i]),
            key(s.last()),
        ) < 0 by {
            assert(u.contains(u[i]));
            if u[i] != x {
                let m = choose|m: int| 0 <= m < t.len() && t[m] == u[i];
                assert(s[m] == u[i]);
            }
        }
        lemma_ascending_push(u, s.last(), key);
    }
}

proof fn lemma_files_ascending(items: Seq<Item>, n: int)
    requires
        0 <= n <= items.len(),
    ensures
        ascending(files_upto(items, n), by_file()),
    decreases n,
{
    if n > 0 {
        lemma_files_ascending(items, n - 1);
        let last = items[n - 1];
        if last.names.len() == 1 {
            lemma_insert_file_ascending(files_upto(items, n - 1), (last.names[0], last.idx));
        }
    }
}

/// Every item of `a` is one of `b`.
spec fn among(a: Seq<Item>, b: Seq<Item>) -> bool {
    forall|i: int| 0 <= i < a.len() ==> b.contains(#[trigger] a[i])
}

/// Two levels hold the same items.
spec fn same_items(a: Seq<Item>, b: Seq<Item>) -> bool {
    among(a, b) && among(b, a)
}

proof fn lemma_dirs_among(a: Seq<Item>, b: Seq<Item>, x: Seq<char>)
    requires
        among(a, b),
        dir_names(a).contains(x),
    ensures
        dir_names(b).contains(x),
{
    let i = lemma_dirs_from(a, a.len() as int, x);
    assert(b.contains(a[i]));
    let j = choose|j: int| 0 <= j < b.len() && b[j] == a[i];
    lemma_dirs_have(b, b.len() as int, j);
}

proof fn lemma_files_among(a: Seq<Item>, b: Seq<Item>, f: (Seq<char>, usize))
    requires
        among(a, b),
        coherent(b),
        files(a).contains(f),
    ensures
        files(b).contains(f),
{
    lemma_files_from(a, a.len() as int, f);
    let i = choose|i: int|
        0 <= i < a.len() && a[i].names.len() == 1 && a[i].names[0] == f.0 && (#[trigger] a[i]).idx
            == f.1;
    assert(b.contains(a[i]));
    let j = choose|j: int| 0 <= j < b.len() && b[j] == a[i];
    lemma_files_have(b, b.len() as int, j);
}

proof fn lemma_same_level_names(a: Seq<Item>, b: Seq<Item>)
    requires
        same_items(a, b),
        coherent(a),
        coherent(b),
    ensures
        dir_names(a) == dir_names(b),
        files(a) == files(b),
{
    lemma_dirs_ascending(a, a.len() as int);
    lemma_dirs_ascending(b, b.len() as int);
    assert forall|x: Seq<char>| #[trigger] dir_names(a).contains(x) implies dir_names(b).contains(
        x,
    ) by {
        lemma_dirs_among(a, b, x);
    }
    assert forall|x: Seq<char>| #[trigger] dir_names(b).contains(x) implies dir_names(a).contains(
        x,
    ) by {
        lemma_dirs_among(b, a, x);
    }
    lemma_ascending_unique(dir_names(a), dir_names(b), by_name());
    lemma_files_ascending(a, a.len() as int);
    lemma_files_ascending(b, b.len() as int);
    assert forall|f: (Seq<char>, usize)| #[trigger] files(a).contains(f) implies files(b).contains(
        f,
    ) by {
        lemma_files_among(a, b, f);
    }
    assert forall|f: (Seq<char>, usize)| #[trigger] files(b).contains(f) implies files(a).contains(
        f,
    ) by {
        lemma_files_among(b, a, f);
    }
    lemma_ascending_unique(files(a), files(b), by_file());
}

proof fn lemma_under_among(a: Seq<Item>, b: Seq<Item>, name: Seq<char>)
    requires
        among(a, b),
    ensures
        among(under(a, name), under(b, name)),
{
    let u = under(a, name);
    assert forall|k: int| 0 <= k < u.len() implies under(b, name).contains(#[trigger] u[k]) by {
        let i = lemma_under(a, name, a.len() as int, k);
        assert(b.contains(a[i]));
        let j = choose|j: int| 0 <= j < b.len() && b[j] == a[i];
        let m = lemma_under_has(b, name, b.len() as int, j);
        assert(under(b, name)[m] == u[k]);
    }
}

proof fn lemma_same_fold(chain: Seq<Seq<char>>, a: Seq<Item>, b: Seq<Item>)
    requires
        same_items(a, b),
        coherent(a),
        coherent(b),
    ensures
        fold_chain(chain, a).0 == fold_chain(chain, b).0,
        same_items(fold_chain(chain, a).1, fold_chain(chain, b).1),
        coherent(fold_chain(chain, a).1),
        coherent(fold_chain(chain, b).1),
    decreases height(a),
{
    lemma_same_level_names(a, b);
    if files(a).len() == 0 && dir_names(a).len() == 1 {
        let name = dir_names(a)[0];
        lemma_dirs_high(a, a.len() as int);
        lemma_under_lower(a, name);
        lemma_under_among(a, b, name);
        lemma_under_among(b, a, name);
        lemma_under_coherent(a, name);
        lemma_under_coherent(b, name);
        lemma_same_fold(chain.push(name), under(a, name), under(b, name));
    }
}

proof fn lemma_same_rows(
    a: Seq<Item>,
    b: Seq<Item>,
    depth: int,
    prefix: Seq<char>,
    collapsed: Seq<Seq<char>>,
)
    requires
        same_items(a, b),
        coherent(a),
        coherent(b),
    ensures
        level_rows(a, depth, prefix, collapsed) == level_rows(b, depth, prefix, collapsed),
    decreases height(a), dir_names(a).len() + 1,
{
    lemma_same_level_names(a, b);
    lemma_same_dir_rows(a, b, dir_names(a).len(), depth, prefix, collapsed);
}

proof fn lemma_same_dir_rows(
    a: Seq<Item>,
    b: Seq<Item>,
    k: nat,
    depth: int,
    prefix: Seq<char>,
    collapsed: Seq<Seq<char>>,
)
    requires
        same_items(a, b),
        coherent(a),
        coherent(b),
    ensures
        dir_rows(a, k, depth, prefix, collapsed) == dir_rows(b, k, depth, prefix, collapsed),
    decreases height(a), k,
{
    lemma_same_level_names(a, b);
    if 0 < k <= dir_names(a).len() {
        let name = dir_names(a)[k - 1];
        lemma_dirs_high(a, a.len() as int);
        lemma_under_lower(a, name);
        lemma_fold_lower(seq![name], under(a, name));
        lemma_under_among(a, b, name);
        lemma_under_among(b, a, name);
        lemma_under_coherent(a, name);
        lemma_under_coherent(b, name);
        lemma_same_fold(seq![name], under(a, name), under(b, name));
        let (chain, sub) = fold_chain(seq![name], under(a, name));
        let path = prefix + chain_text(chain);
        lemma_same_rows(sub, fold_chain(seq![name], under(b, name)).1, depth + 1, path, collapsed);
        lemma_same_dir_rows(a, b, (k - 1) as nat, depth, prefix, collapsed);
    }
}

proof fn lemma_permuted_among(a: Seq<(usize, Seq<char>)>, b: Seq<(usize, Seq<char>)>)
    requires
        a.to_multiset() == b.to_multiset(),
    ensures
        among(items_of(a), items_of(b)),
{
    broadcast use vstd::seq_lib::group_to_multiset_ensures;

    let items = items_of(a);
    assert forall|i: int| 0 <= i < items.len() implies items_of(b).contains(#[trigger] items[i]) by {
        assert(a.contains(a[i]));
        assert(a.to_multiset().count(a[i]) > 0);
        assert(b.contains(a[i]));
        let j = choose|j: int| 0 <= j < b.len() && b[j] == a[i];
        assert(items_of(b)[j] == items[i]);
    }
}

proof fn lemma_among_coherent(a: Seq<Item>, b: Seq<Item>)
    requires
        among(a, b),
        coherent(b),
    ensures
        coherent(a),
{
    assert forall|i: int| 0 <= i < a.len() implies (#[trigger] a[i]).names.len() >= 1 by {
        assert(b.contains(a[i]));
    }
    assert forall|i: int, j: int|
        0 <= i < a.len() && 0 <= j < a.len() && (#[trigger] a[i]).names == (#[trigger] a[j]).names
        implies a[i].idx == a[j].idx by {
        assert(b.contains(a[i]) && b.contains(a[j]));
        let m = choose|m: int| 0 <= m < b.len() && b[m] == a[i];
        let n = choose|n: int| 0 <= n < b.len() && b[n] == a[j];
        assert(b[m].names == b[n].names);
    }
}

/// A tree does not depend on the order of its entries, as long as entries for
/// one path carry one index and no path is empty.
pub proof fn law_a_tree_does_not_depend_on_the_order(
    entries: Seq<(usize, Seq<char>)>,
    permuted: Seq<(usize, Seq<char>)>,
    collapsed: Seq<Seq<char>>,
)
    requires
        unambiguous(entries),
        entries.to_multiset() == permuted.to_multiset(),
    ensures
        tree(permuted, collapsed) == tree(entries, collapsed),
{
    lemma_unambiguous(entries);
    lemma_permuted_among(entries, permuted);
    lemma_permuted_among(permuted, entries);
    lemma_among_coherent(items_of(permuted), items_of(entries));
    lemma_same_rows(items_of(entries), items_of(permuted), 0, Seq::empty(), collapsed);
}

// ---- what collapsing hides -----------------------------------------------------

pub open spec fn expanded_row(row: TreeRowView) -> TreeRowView {
    match row {
        TreeRowView::Dir { depth, name, path, .. } => TreeRowView::Dir {
            depth,
            name,
            path,
            collapsed: false,
        },
        file => file,
    }
}

/// The rows with no directory marked as collapsed.
pub open spec fn expanded(rows: Seq<TreeRowView>) -> Seq<TreeRowView> {
    rows.map_values(|r: TreeRowView| expanded_row(r))
}

/// `a` are the rows of `b` at the ascending positions `at`.
pub open spec fn picks(at: Seq<int>, a: Seq<TreeRowView>, b: Seq<TreeRowView>) -> bool {
    &&& at.len() == a.len()
    &&& forall|i: int| 0 <= i < a.len() ==> 0 <= #[trigger] at[i] < b.len() && a[i] == b[at[i]]
    &&& forall|i: int, j: int| 0 <= i < j < at.len() ==> (#[trigger] at[i]) < (#[trigger] at[j])
}

/// `a` are rows of `b`, in their order.
pub open spec fn subsequence(a: Seq<TreeRowView>, b: Seq<TreeRowView>) -> bool {
    exists|at: Seq<int>| picks(at, a, b)
}

proof fn lemma_subsequence_concat(
    a: Seq<TreeRowView>,
    b: Seq<TreeRowView>,
    c: Seq<TreeRowView>,
    d: Seq<TreeRowView>,
)
    requires
        subsequence(a, b),
        subsequence(c, d),
    ensures
        subsequence(a + c, b + d),
{
    let f = choose|at: Seq<int>| picks(at, a, b);
    let g = choose|at: Seq<int>| picks(at, c, d);
    let h = f + g.map_values(|x: int| x + b.len());
    assert forall|i: int| 0 <= i < (a + c).len() implies 0 <= #[trigger] h[i] < (b + d).len() && (a
        + c)[i] == (b + d)[h[i]] by {
        if i < a.len() {
            assert(h[i] == f[i]);
        } else {
            assert(h[i] == g[i - a.len()] + b.len());
        }
    }
    assert forall|i: int, j: int| 0 <= i < j < h.len() implies (#[trigger] h[i]) < (
    #[trigger] h[j]) by {
        if j < a.len() {
            assert(h[i] == f[i] && h[j] == f[j]);
        } else if i < a.len() {
            assert(h[i] == f[i] && h[j] == g[j - a.len()] + b.len());
        } else {
            assert(h[i] == g[i - a.len()] + b.len() && h[j] == g[j - a.len()] + b.len());
        }
    }
    assert(picks(h, a + c, b + d));
}

proof fn lemma_subsequence_self(a: Seq<TreeRowView>)
    ensures
        subsequence(a, a),
{
    assert(picks(Seq::new(a.len(), |i: int| i), a, a));
}

proof fn lemma_subsequence_none(b: Seq<TreeRowView>)
    ensures
        subsequence(Seq::empty(), b),
{
    assert(picks(Seq::empty(), Seq::empty(), b));
}

proof fn lemma_level_hides(
    items: Seq<Item>,
    depth: int,
    prefix: Seq<char>,
    collapsed: Seq<Seq<char>>,
)
    ensures
        subsequence(
            expanded(level_rows(items, depth, prefix, collapsed)),
            level_rows(items, depth, prefix, Seq::empty()),
        ),
    decreases height(items), dir_names(items).len() + 1,
{
    let n = dir_names(items).len();
    let dirs = dir_rows(items, n, depth, prefix, collapsed);
    let fs = file_rows(files(items), depth);
    lemma_dir_rows_hide(items, n, depth, prefix, collapsed);
    assert(expanded(fs) =~= fs);
    lemma_subsequence_self(fs);
    assert(expanded(dirs + fs) =~= expanded(dirs) + fs);
    lemma_subsequence_concat(
        expanded(dirs),
        dir_rows(items, n, depth, prefix, Seq::empty()),
        fs,
        fs,
    );
}

proof fn lemma_dir_rows_hide(
    items: Seq<Item>,
    k: nat,
    depth: int,
    prefix: Seq<char>,
    collapsed: Seq<Seq<char>>,
)
    ensures
        subsequence(
            expanded(dir_rows(items, k, depth, prefix, collapsed)),
            dir_rows(items, k, depth, prefix, Seq::empty()),
        ),
    decreases height(items), k,
{
    let none = Seq::<Seq<char>>::empty();
    if 0 < k <= dir_names(items).len() {
        let name = dir_names(items)[k - 1];
        let (chain, sub) = fold_chain(seq![name], under(items, name));
        let path = prefix + chain_text(chain);
        let hidden = collapsed.contains(path);
        let row = TreeRowView::Dir { depth, name: chain_text(chain), path, collapsed: hidden };
        let shown = TreeRowView::Dir { depth, name: chain_text(chain), path, collapsed: false };
        lemma_dirs_high(items, items.len() as int);
        lemma_under_lower(items, name);
        lemma_fold_lower(seq![name], under(items, name));
        let before = dir_rows(items, (k - 1) as nat, depth, prefix, collapsed);
        let before_all = dir_rows(items, (k - 1) as nat, depth, prefix, none);
        lemma_dir_rows_hide(items, (k - 1) as nat, depth, prefix, collapsed);
        lemma_subsequence_self(seq![shown]);
        lemma_subsequence_concat(expanded(before), before_all, seq![shown], seq![shown]);
        let below_all = level_rows(sub, depth + 1, path, none);
        let below = if hidden {
            Seq::empty()
        } else {
            level_rows(sub, depth + 1, path, collapsed)
        };
        if hidden {
            lemma_subsequence_none(below_all);
            assert(expanded(below) =~= Seq::empty());
        } else {
            lemma_level_hides(sub, depth + 1, path, collapsed);
        }
        lemma_subsequence_concat(
            expanded(before) + seq![shown],
            before_all + seq![shown],
            expanded(below),
            below_all,
        );
        assert(!none.contains(path));
        assert(expanded(before.push(row) + below) =~= expanded(before) + seq![shown] + expanded(
            below,
        ));
        assert(before_all.push(shown) + below_all =~= before_all + seq![shown] + below_all);
    } else {
        assert(expanded(dir_rows(items, k, depth, prefix, collapsed)) =~= Seq::empty());
        lemma_subsequence_none(dir_rows(items, k, depth, prefix, none));
    }
}

/// Collapsing only hides rows: what is left are rows of the whole tree in their
/// order, none renamed, moved or indented otherwise.
pub proof fn law_collapsing_only_hides_rows(
    entries: Seq<(usize, Seq<char>)>,
    collapsed: Seq<Seq<char>>,
)
    ensures
        subsequence(expanded(tree(entries, collapsed)), tree(entries, Seq::empty())),
{
    lemma_level_hides(items_of(entries), 0, Seq::empty(), collapsed);
}

// ---- the order within a level --------------------------------------------------

pub open spec fn depth_of(row: TreeRowView) -> int {
    match row {
        TreeRowView::Dir { depth, .. } => depth,
        TreeRowView::File { depth, .. } => depth,
    }
}

pub open spec fn on_depth(depth: int) -> spec_fn(TreeRowView) -> bool {
    |row: TreeRowView| depth_of(row) == depth
}

/// The row of the `k`-th directory of a level.
pub open spec fn dir_row(
    items: Seq<Item>,
    k: int,
    depth: int,
    prefix: Seq<char>,
    collapsed: Seq<Seq<char>>,
) -> TreeRowView {
    let name = dir_names(items)[k];
    let text = chain_text(fold_chain(seq![name], under(items, name)).0);
    TreeRowView::Dir {
        depth,
        name: text,
        path: prefix + text,
        collapsed: collapsed.contains(prefix + text),
    }
}

/// The rows of the first `n` directories of a level, without what is under them.
pub open spec fn dir_heads(
    items: Seq<Item>,
    n: nat,
    depth: int,
    prefix: Seq<char>,
    collapsed: Seq<Seq<char>>,
) -> Seq<TreeRowView> {
    Seq::new(n, |k: int| dir_row(items, k, depth, prefix, collapsed))
}

/// What is shown under the `k`-th directory of a level.
spec fn below(
    items: Seq<Item>,
    k: int,
    depth: int,
    prefix: Seq<char>,
    collapsed: Seq<Seq<char>>,
) -> Seq<TreeRowView> {
    let name = dir_names(items)[k];
    let (chain, sub) = fold_chain(seq![name], under(items, name));
    let path = prefix + chain_text(chain);
    if collapsed.contains(path) {
        Seq::empty()
    } else {
        level_rows(sub, depth + 1, path, collapsed)
    }
}

proof fn lemma_dir_rows_step(
    items: Seq<Item>,
    k: nat,
    depth: int,
    prefix: Seq<char>,
    collapsed: Seq<Seq<char>>,
)
    requires
        0 < k <= dir_names(items).len(),
    ensures
        dir_rows(items, k, depth, prefix, collapsed) == dir_rows(
            items,
            (k - 1) as nat,
            depth,
            prefix,
            collapsed,
        ) + (seq![dir_row(items, k - 1, depth, prefix, collapsed)] + below(
            items,
            k - 1,
            depth,
            prefix,
            collapsed,
        )),
{
    let before = dir_rows(items, (k - 1) as nat, depth, prefix, collapsed);
    let row = dir_row(items, k - 1, depth, prefix, collapsed);
    let rest = below(items, k - 1, depth, prefix, collapsed);
    assert(before.push(row) + rest =~= before + (seq![row] + rest));
}

/// Every row is at this depth or deeper.
spec fn deep(rows: Seq<TreeRowView>, depth: int) -> bool {
    forall|i: int| 0 <= i < rows.len() ==> depth_of(#[trigger] rows[i]) >= depth
}

proof fn lemma_deep_concat(a: Seq<TreeRowView>, b: Seq<TreeRowView>, depth: int)
    requires
        deep(a, depth),
        deep(b, depth),
    ensures
        deep(a + b, depth),
{
    assert forall|i: int| 0 <= i < (a + b).len() implies depth_of(#[trigger] (a + b)[i])
        >= depth by {
        if i < a.len() {
            assert((a + b)[i] == a[i]);
        } else {
            assert((a + b)[i] == b[i - a.len()]);
        }
    }
}

proof fn lemma_level_deep(
    items: Seq<Item>,
    depth: int,
    prefix: Seq<char>,
    collapsed: Seq<Seq<char>>,
)
    ensures
        deep(level_rows(items, depth, prefix, collapsed), depth),
    decreases height(items), dir_names(items).len() + 1,
{
    let n = dir_names(items).len();
    lemma_dir_rows_deep(items, n, depth, prefix, collapsed);
    lemma_deep_concat(
        dir_rows(items, n, depth, prefix, collapsed),
        file_rows(files(items), depth),
        depth,
    );
}

proof fn lemma_dir_rows_deep(
    items: Seq<Item>,
    k: nat,
    depth: int,
    prefix: Seq<char>,
    collapsed: Seq<Seq<char>>,
)
    ensures
        deep(dir_rows(items, k, depth, prefix, collapsed), depth),
        0 < k <= dir_names(items).len() ==> deep(
            below(items, k - 1, depth, prefix, collapsed),
            depth + 1,
        ),
    decreases height(items), k,
{
    if 0 < k <= dir_names(items).len() {
        let name = dir_names(items)[k - 1];
        let (chain, sub) = fold_chain(seq![name], under(items, name));
        lemma_dirs_high(items, items.len() as int);
        lemma_under_lower(items, name);
        lemma_fold_lower(seq![name], under(items, name));
        lemma_dir_rows_deep(items, (k - 1) as nat, depth, prefix, collapsed);
        lemma_level_deep(sub, depth + 1, prefix + chain_text(chain), collapsed);
        lemma_dir_rows_step(items, k, depth, prefix, collapsed);
        let row = dir_row(items, k - 1, depth, prefix, collapsed);
        let rest = below(items, k - 1, depth, prefix, collapsed);
        lemma_deep_concat(seq![row], rest, depth);
        lemma_deep_concat(
            dir_rows(items, (k - 1) as nat, depth, prefix, collapsed),
            seq![row] + rest,
            depth,
        );
    }
}

proof fn lemma_filter_none(rows: Seq<TreeRowView>, depth: int)
    requires
        deep(rows, depth + 1),
    ensures
        rows.filter(on_depth(depth)) == Seq::<TreeRowView>::empty(),
    decreases rows.len(),
{
    reveal(Seq::filter);
    if rows.len() > 0 {
        let t = rows.drop_last();
        assert forall|i: int| 0 <= i < t.len() implies depth_of(#[trigger] t[i]) >= depth + 1 by {
            assert(t[i] == rows[i]);
        }
        lemma_filter_none(t, depth);
        assert(rows.last() == rows[rows.len() - 1]);
    }
}

proof fn lemma_filter_all(rows: Seq<TreeRowView>, depth: int)
    requires
        forall|i: int| 0 <= i < rows.len() ==> depth_of(#[trigger] rows[i]) == depth,
    ensures
        rows.filter(on_depth(depth)) == rows,
    decreases rows.len(),
{
    reveal(Seq::filter);
    if rows.len() > 0 {
        let t = rows.drop_last();
        assert forall|i: int| 0 <= i < t.len() implies depth_of(#[trigger] t[i]) == depth by {
            assert(t[i] == rows[i]);
        }
        lemma_filter_all(t, depth);
        assert(rows.last() == rows[rows.len() - 1]);
        assert(rows =~= t.push(rows.last()));
    }
}

proof fn lemma_dir_rows_heads(
    items: Seq<Item>,
    k: nat,
    depth: int,
    prefix: Seq<char>,
    collapsed: Seq<Seq<char>>,
)
    requires
        k <= dir_names(items).len(),
    ensures
        dir_rows(items, k, depth, prefix, collapsed).filter(on_depth(depth)) == dir_heads(
            items,
            k,
            depth,
            prefix,
            collapsed,
        ),
    decreases k,
{
    let p = on_depth(depth);
    let heads = dir_heads(items, k, depth, prefix, collapsed);
    if k == 0 {
        reveal(Seq::filter);
        assert(heads =~= Seq::<TreeRowView>::empty());
    } else {
        let before = dir_rows(items, (k - 1) as nat, depth, prefix, collapsed);
        let row = dir_row(items, k - 1, depth, prefix, collapsed);
        let rest = below(items, k - 1, depth, prefix, collapsed);
        lemma_dir_rows_heads(items, (k - 1) as nat, depth, prefix, collapsed);
        lemma_dir_rows_step(items, k, depth, prefix, collapsed);
        lemma_dir_rows_deep(items, k, depth, prefix, collapsed);
        lemma_filter_all(seq![row], depth);
        lemma_filter_none(rest, depth);
        Seq::filter_distributes_over_add(seq![row], rest, p);
        Seq::filter_distributes_over_add(before, seq![row] + rest, p);
        assert(heads =~= dir_heads(items, (k - 1) as nat, depth, prefix, collapsed) + (seq![row]
            + Seq::<TreeRowView>::empty()));
    }
}

/// The rows at a level's own depth are its directories and then its files, each
/// in strict alphabetical order of their names.
pub proof fn law_a_level_is_in_order(
    items: Seq<Item>,
    depth: int,
    prefix: Seq<char>,
    collapsed: Seq<Seq<char>>,
)
    ensures
        level_rows(items, depth, prefix, collapsed).filter(on_depth(depth)) == dir_heads(
            items,
            dir_names(items).len(),
            depth,
            prefix,
            collapsed,
        ) + file_rows(files(items), depth),
        ascending(dir_names(items), by_name()),
        ascending(files(items), by_file()),
{
    let n = dir_names(items).len();
    lemma_dir_rows_heads(items, n, depth, prefix, collapsed);
    lemma_filter_all(file_rows(files(items), depth), depth);
    Seq::filter_distributes_over_add(
        dir_rows(items, n, depth, prefix, collapsed),
        file_rows(files(items), depth),
        on_depth(depth),
    );
    lemma_dirs_ascending(items, items.len() as int);
    lemma_files_ascending(items, items.len() as int);
}

/// Rows `i` and `j` are of one level: at one depth, and none between is above it.
pub open spec fn siblings(rows: Seq<TreeRowView>, i: int, j: int) -> bool {
    &&& 0 <= i < j < rows.len()
    &&& depth_of(rows[i]) == depth_of(rows[j])
    &&& forall|m: int| i < m < j ==> depth_of(#[trigger] rows[m]) >= depth_of(rows[i])
}

/// No directory comes behind a file of its level.
pub open spec fn dirs_first(rows: Seq<TreeRowView>) -> bool {
    forall|i: int, j: int| #[trigger]
        siblings(rows, i, j) && rows[i] is File ==> rows[j] is File
}

/// The files among `rows` are below this depth.
spec fn files_below(rows: Seq<TreeRowView>, depth: int) -> bool {
    forall|i: int|
        0 <= i < rows.len() && rows[i] is File ==> depth_of(#[trigger] rows[i]) > depth
}

proof fn lemma_dirs_first_concat(a: Seq<TreeRowView>, b: Seq<TreeRowView>, depth: int)
    requires
        dirs_first(a),
        dirs_first(b),
        files_below(a, depth),
        b.len() > 0 ==> depth_of(b[0]) <= depth,
    ensures
        dirs_first(a + b),
{
    let c = a + b;
    assert forall|i: int, j: int| #[trigger] siblings(c, i, j) && c[i] is File implies c[j] is File by {
        if j < a.len() {
            assert(c[i] == a[i] && c[j] == a[j]);
            assert forall|m: int| i < m < j implies depth_of(#[trigger] a[m]) >= depth_of(a[i]) by {
                assert(a[m] == c[m]);
            }
            assert(siblings(a, i, j));
        } else if i >= a.len() {
            let n = a.len() as int;
            assert(c[i] == b[i - n] && c[j] == b[j - n]);
            assert forall|m: int| i - n < m < j - n implies depth_of(#[trigger] b[m]) >= depth_of(
                b[i - n],
            ) by {
                assert(b[m] == c[m + n]);
            }
            assert(siblings(b, i - n, j - n));
        } else {
            assert(c[i] == a[i]);
            assert(c[a.len() as int] == b[0]);
        }
    }
}

proof fn lemma_level_dirs_first(
    items: Seq<Item>,
    depth: int,
    prefix: Seq<char>,
    collapsed: Seq<Seq<char>>,
)
    ensures
        dirs_first(level_rows(items, depth, prefix, collapsed)),
    decreases height(items), dir_names(items).len() + 1,
{
    let n = dir_names(items).len();
    lemma_dir_rows_dirs_first(items, n, depth, prefix, collapsed);
    lemma_dirs_first_concat(
        dir_rows(items, n, depth, prefix, collapsed),
        file_rows(files(items), depth),
        depth,
    );
}

proof fn lemma_dir_rows_dirs_first(
    items: Seq<Item>,
    k: nat,
    depth: int,
    prefix: Seq<char>,
    collapsed: Seq<Seq<char>>,
)
    ensures
        dirs_first(dir_rows(items, k, depth, prefix, collapsed)),
        files_below(dir_rows(items, k, depth, prefix, collapsed), depth),
    decreases height(items), k,
{
    if 0 < k <= dir_names(items).len() {
        let name = dir_names(items)[k - 1];
        let (chain, sub) = fold_chain(seq![name], under(items, name));
        let before = dir_rows(items, (k - 1) as nat, depth, prefix, collapsed);
        let row = dir_row(items, k - 1, depth, prefix, collapsed);
        let rest = below(items, k - 1, depth, prefix, collapsed);
        lemma_dirs_high(items, items.len() as int);
        lemma_under_lower(items, name);
        lemma_fold_lower(seq![name], under(items, name));
        lemma_dir_rows_dirs_first(items, (k - 1) as nat, depth, prefix, collapsed);
        lemma_level_dirs_first(sub, depth + 1, prefix + chain_text(chain), collapsed);
        lemma_dir_rows_step(items, k, depth, prefix, collapsed);
        lemma_dir_rows_deep(items, k, depth, prefix, collapsed);
        let block = seq![row] + rest;
        assert forall|i: int, j: int| #[trigger]
            siblings(block, i, j) && block[i] is File implies block[j] is File by {
            assert(block[i] == rest[i - 1] && block[j] == rest[j - 1]);
            assert forall|m: int| i - 1 < m < j - 1 implies depth_of(#[trigger] rest[m])
                >= depth_of(rest[i - 1]) by {
                assert(rest[m] == block[m + 1]);
            }
            assert(siblings(rest, i - 1, j - 1));
        }
        lemma_dirs_first_concat(before, block, depth);
        let all = before + block;
        assert forall|i: int| 0 <= i < all.len() && all[i] is File implies depth_of(
            #[trigger] all[i],
        ) > depth by {
            if i < before.len() {
                assert(all[i] == before[i]);
            } else if i == before.len() {
                assert(all[i] == row);
            } else {
                assert(all[i] == rest[i - before.len() - 1]);
            }
        }
    }
}

/// At every level of a tree, directories come before files.
pub proof fn law_directories_come_first(
    entries: Seq<(usize, Seq<char>)>,
    collapsed: Seq<Seq<char>>,
)
    ensures
        dirs_first(tree(entries, collapsed)),
{
    lemma_level_dirs_first(items_of(entries), 0, Seq::empty(), collapsed);
}

// ---- folded chains -------------------------------------------------------------

/// A second row of the level right under row `i`.
pub open spec fn has_second_child(rows: Seq<TreeRowView>, i: int) -> bool {
    exists|j: int| i + 1 < j < rows.len() && #[trigger] siblings(rows, i + 1, j)
}

/// Row `i` is an expanded directory, and the first row under it is one too.
pub open spec fn starts_with_dir(rows: Seq<TreeRowView>, i: int) -> bool {
    &&& 0 <= i
    &&& i + 1 < rows.len()
    &&& rows[i] matches TreeRowView::Dir { collapsed: false, .. }
    &&& rows[i + 1] is Dir
    &&& depth_of(rows[i + 1]) == depth_of(rows[i]) + 1
}

/// No expanded directory holds nothing but one directory.
pub open spec fn chains_folded(rows: Seq<TreeRowView>) -> bool {
    forall|i: int| #[trigger] starts_with_dir(rows, i) ==> has_second_child(rows, i)
}

proof fn lemma_second_child_shift(
    a: Seq<TreeRowView>,
    b: Seq<TreeRowView>,
    c: Seq<TreeRowView>,
    i: int,
)
    requires
        0 <= i,
        has_second_child(b, i),
    ensures
        has_second_child(a + b + c, a.len() + i),
{
    let all = a + b + c;
    let n = a.len() as int;
    let j = choose|j: int| i + 1 < j < b.len() && #[trigger] siblings(b, i + 1, j);
    assert(all[n + i + 1] == b[i + 1] && all[n + j] == b[j]);
    assert forall|m: int| n + i + 1 < m < n + j implies depth_of(#[trigger] all[m]) >= depth_of(
        all[n + i + 1],
    ) by {
        assert(all[m] == b[m - n]);
    }
    assert(siblings(all, n + i + 1, n + j));
}

proof fn lemma_chains_folded_concat(a: Seq<TreeRowView>, b: Seq<TreeRowView>, depth: int)
    requires
        chains_folded(a),
        chains_folded(b),
        deep(a, depth),
        b.len() > 0 ==> depth_of(b[0]) <= depth,
    ensures
        chains_folded(a + b),
{
    let c = a + b;
    let none = Seq::<TreeRowView>::empty();
    assert forall|i: int| #[trigger] starts_with_dir(c, i) implies has_second_child(c, i) by {
        if i + 1 < a.len() {
            assert(c[i] == a[i] && c[i + 1] == a[i + 1]);
            assert(starts_with_dir(a, i));
            lemma_second_child_shift(none, a, b, i);
            assert(none + a + b =~= c);
        } else if i >= a.len() {
            assert(c[i] == b[i - a.len()] && c[i + 1] == b[i + 1 - a.len()]);
            assert(starts_with_dir(b, i - a.len()));
            lemma_second_child_shift(a, b, none, i - a.len());
            assert(a + b + none =~= c);
        } else {
            assert(c[i] == a[i] && c[i + 1] == b[0]);
        }
    }
}

proof fn lemma_fold_ends(chain: Seq<Seq<char>>, items: Seq<Item>)
    ensures
        ({
            let sub = fold_chain(chain, items).1;
            !(files(sub).len() == 0 && dir_names(sub).len() == 1)
        }),
    decreases height(items),
{
    if files(items).len() == 0 && dir_names(items).len() == 1 {
        let name = dir_names(items)[0];
        lemma_dirs_high(items, items.len() as int);
        lemma_under_lower(items, name);
        lemma_fold_ends(chain.push(name), under(items, name));
    }
}

/// The rows of fewer directories come first.
proof fn lemma_dir_rows_prefix(
    items: Seq<Item>,
    k: nat,
    m: nat,
    depth: int,
    prefix: Seq<char>,
    collapsed: Seq<Seq<char>>,
)
    requires
        k <= m <= dir_names(items).len(),
    ensures
        dir_rows(items, k, depth, prefix, collapsed).is_prefix_of(
            dir_rows(items, m, depth, prefix, collapsed),
        ),
    decreases m - k,
{
    let a = dir_rows(items, k, depth, prefix, collapsed);
    if k < m {
        lemma_dir_rows_prefix(items, k, (m - 1) as nat, depth, prefix, collapsed);
        lemma_dir_rows_step(items, m, depth, prefix, collapsed);
        let b = dir_rows(items, (m - 1) as nat, depth, prefix, collapsed);
        let c = dir_rows(items, m, depth, prefix, collapsed);
        assert(c.subrange(0, a.len() as int) =~= b.subrange(0, a.len() as int));
    } else {
        assert(a.subrange(0, a.len() as int) =~= a);
    }
}

/// A level that starts with a directory and is not that directory alone has a
/// second row at its depth.
proof fn lemma_level_second(
    items: Seq<Item>,
    depth: int,
    prefix: Seq<char>,
    collapsed: Seq<Seq<char>>,
) -> (j: int)
    requires
        !(files(items).len() == 0 && dir_names(items).len() == 1),
        level_rows(items, depth, prefix, collapsed).len() > 0,
        level_rows(items, depth, prefix, collapsed)[0] is Dir,
    ensures
        0 < j,
        siblings(level_rows(items, depth, prefix, collapsed), 0, j),
{
    let rows = level_rows(items, depth, prefix, collapsed);
    let n = dir_names(items).len();
    let dirs = dir_rows(items, n, depth, prefix, collapsed);
    let fs = file_rows(files(items), depth);
    lemma_level_deep(items, depth, prefix, collapsed);
    if n == 0 {
        assert(dirs =~= Seq::<TreeRowView>::empty());
        assert(rows[0] == fs[0]);
    }
    lemma_dir_rows_step(items, 1, depth, prefix, collapsed);
    let first = dir_rows(items, 1, depth, prefix, collapsed);
    assert(dir_rows(items, 0, depth, prefix, collapsed) =~= Seq::<TreeRowView>::empty());
    assert(first[0] == dir_row(items, 0, depth, prefix, collapsed));
    lemma_dir_rows_prefix(items, 1, n, depth, prefix, collapsed);
    assert(dirs.subrange(0, first.len() as int)[0] == dirs[0]);
    assert(rows[0] == first[0]);
    let j = first.len() as int;
    if n >= 2 {
        let two = dir_rows(items, 2, depth, prefix, collapsed);
        lemma_dir_rows_step(items, 2, depth, prefix, collapsed);
        lemma_dir_rows_prefix(items, 2, n, depth, prefix, collapsed);
        assert(two[j] == dir_row(items, 1, depth, prefix, collapsed));
        assert(dirs.subrange(0, two.len() as int)[j] == dirs[j]);
        assert(rows[j] == two[j]);
    } else {
        assert(dirs == first);
        assert(rows[j] == fs[0]);
    }
    assert(siblings(rows, 0, j));
    j
}

proof fn lemma_level_chains_folded(
    items: Seq<Item>,
    depth: int,
    prefix: Seq<char>,
    collapsed: Seq<Seq<char>>,
)
    ensures
        chains_folded(level_rows(items, depth, prefix, collapsed)),
    decreases height(items), dir_names(items).len() + 1,
{
    let n = dir_names(items).len();
    lemma_dir_rows_chains_folded(items, n, depth, prefix, collapsed);
    lemma_dir_rows_deep(items, n, depth, prefix, collapsed);
    lemma_chains_folded_concat(
        dir_rows(items, n, depth, prefix, collapsed),
        file_rows(files(items), depth),
        depth,
    );
}

proof fn lemma_dir_rows_chains_folded(
    items: Seq<Item>,
    k: nat,
    depth: int,
    prefix: Seq<char>,
    collapsed: Seq<Seq<char>>,
)
    ensures
        chains_folded(dir_rows(items, k, depth, prefix, collapsed)),
    decreases height(items), k,
{
    if 0 < k <= dir_names(items).len() {
        let name = dir_names(items)[k - 1];
        let (chain, sub) = fold_chain(seq![name], under(items, name));
        let path = prefix + chain_text(chain);
        let before = dir_rows(items, (k - 1) as nat, depth, prefix, collapsed);
        let row = dir_row(items, k - 1, depth, prefix, collapsed);
        let rest = below(items, k - 1, depth, prefix, collapsed);
        lemma_dirs_high(items, items.len() as int);
        lemma_under_lower(items, name);
        lemma_fold_lower(seq![name], under(items, name));
        lemma_fold_ends(seq![name], under(items, name));
        lemma_dir_rows_chains_folded(items, (k - 1) as nat, depth, prefix, collapsed);
        lemma_level_chains_folded(sub, depth + 1, path, collapsed);
        lemma_dir_rows_step(items, k, depth, prefix, collapsed);
        lemma_dir_rows_deep(items, k, depth, prefix, collapsed);
        let block = seq![row] + rest;
        let none = Seq::<TreeRowView>::empty();
        assert forall|i: int| #[trigger] starts_with_dir(block, i) implies has_second_child(
            block,
            i,
        ) by {
            if i == 0 {
                assert(block[1] == rest[0]);
                let j = lemma_level_second(sub, depth + 1, path, collapsed);
                assert(block[j + 1] == rest[j]);
                assert forall|m: int| 1 < m < j + 1 implies depth_of(#[trigger] block[m])
                    >= depth_of(block[1]) by {
                    assert(block[m] == rest[m - 1]);
                }
                assert(siblings(block, i + 1, j + 1));
            } else {
                assert(block[i] == rest[i - 1] && block[i + 1] == rest[i]);
                assert(starts_with_dir(rest, i - 1));
                lemma_second_child_shift(seq![row], rest, none, i - 1);
                assert(seq![row] + rest + none =~= block);
            }
        }
        lemma_dir_rows_deep(items, (k - 1) as nat, depth, prefix, collapsed);
        lemma_chains_folded_concat(before, block, depth);
    }
}

/// An expanded directory never holds just one directory: such a chain is folded
/// into one row.
pub proof fn law_chains_are_folded(
    entries: Seq<(usize, Seq<char>)>,
    collapsed: Seq<Seq<char>>,
)
    ensures
        chains_folded(tree(entries, collapsed)),
{
    lemma_level_chains_folded(items_of(entries), 0, Seq::empty(), collapsed);
}

// ---- one row per file ------------------------------------------------------------

/// How many rows show file `idx`.
pub open spec fn times_shown(rows: Seq<TreeRowView>, idx: usize) -> nat
    decreases rows.len(),
{
    if rows.len() == 0 {
        0
    } else {
        times_shown(rows.drop_last(), idx) + if is_file(rows.last(), idx) {
            1nat
        } else {
            0
        }
    }
}

/// A collapsed directory that the path `text` leads through is among `rows`.
pub open spec fn hides(rows: Seq<TreeRowView>, text: Seq<char>) -> bool {
    exists|k: int| 0 <= k < rows.len() && hides_path(#[trigger] rows[k], text)
}

pub open spec fn hides_path(row: TreeRowView, text: Seq<char>) -> bool {
    row matches TreeRowView::Dir { path, collapsed: true, .. } && path.is_prefix_of(text)
}

/// A path as the rows show it.
pub open spec fn path_text(p: Seq<char>) -> Seq<char> {
    join(path_names(p), "/"@)
}

proof fn lemma_times_concat(a: Seq<TreeRowView>, b: Seq<TreeRowView>, idx: usize)
    ensures
        times_shown(a + b, idx) == times_shown(a, idx) + times_shown(b, idx),
    decreases b.len(),
{
    if b.len() == 0 {
        assert(a + b =~= a);
    } else {
        assert((a + b).drop_last() =~= a + b.drop_last());
        lemma_times_concat(a, b.drop_last(), idx);
    }
}

proof fn lemma_times_zero(rows: Seq<TreeRowView>, idx: usize)
    requires
        !shows(rows, idx),
    ensures
        times_shown(rows, idx) == 0,
    decreases rows.len(),
{
    if rows.len() > 0 {
        let t = rows.drop_last();
        if shows(t, idx) {
            let k = choose|k: int| 0 <= k < t.len() && is_file(#[trigger] t[k], idx);
            assert(is_file(rows[k], idx));
        }
        lemma_times_zero(t, idx);
        assert(!is_file(rows[rows.len() - 1], idx));
    }
}

proof fn lemma_hides_concat(a: Seq<TreeRowView>, b: Seq<TreeRowView>, text: Seq<char>)
    requires
        hides(a, text) || hides(b, text),
    ensures
        hides(a + b, text),
{
    if hides(a, text) {
        let k = choose|k: int| 0 <= k < a.len() && hides_path(#[trigger] a[k], text);
        assert(hides_path((a + b)[k], text));
    } else {
        let k = choose|k: int| 0 <= k < b.len() && hides_path(#[trigger] b[k], text);
        assert(hides_path((a + b)[k + a.len()], text));
    }
}

/// No two items carry one index.
spec fn distinct(items: Seq<Item>) -> bool {
    forall|i: int, j: int|
        0 <= i < j < items.len() ==> (#[trigger] items[i]).idx != (#[trigger] items[j]).idx
}

proof fn lemma_under_ordered(items: Seq<Item>, name: Seq<char>, n: int, a: int, b: int) -> (r: (
    int,
    int,
))
    requires
        0 <= n <= items.len(),
        0 <= a < b < under_upto(items, name, n).len(),
    ensures
        0 <= r.0 < r.1 < n,
        steps_down(items, name, r.0, under_upto(items, name, n)[a]),
        steps_down(items, name, r.1, under_upto(items, name, n)[b]),
    decreases n,
{
    let before = under_upto(items, name, n - 1);
    if b < before.len() {
        lemma_under_ordered(items, name, n - 1, a, b)
    } else {
        let i = lemma_under(items, name, n - 1, a);
        (i, n - 1)
    }
}

proof fn lemma_under_distinct(items: Seq<Item>, name: Seq<char>)
    requires
        distinct(items),
    ensures
        distinct(under(items, name)),
{
    let u = under(items, name);
    assert forall|a: int, b: int| 0 <= a < b < u.len() implies (#[trigger] u[a]).idx != (
    #[trigger] u[b]).idx by {
        let (i, j) = lemma_under_ordered(items, name, items.len() as int, a, b);
        assert(items[i].idx != items[j].idx);
    }
}

proof fn lemma_join_concat(a: Seq<Seq<char>>, b: Seq<Seq<char>>, sep: Seq<char>)
    requires
        a.len() > 0,
        b.len() > 0,
    ensures
        join(a + b, sep) == join(a, sep) + sep + join(b, sep),
    decreases b.len(),
{
    let c = a + b;
    assert(c.last() == b.last());
    assert(c.drop_last() =~= a + b.drop_last());
    if b.len() == 1 {
        assert(c.drop_last() =~= a);
    } else {
        lemma_join_concat(a, b.drop_last(), sep);
        assert(join(c, sep) =~= join(a, sep) + sep + join(b, sep));
    }
}

/// Folding a chain leads to the same file, and goes no other way.
proof fn lemma_fold_leads(chain: Seq<Seq<char>>, items: Seq<Item>, i: int) -> (k: int)
    requires
        coherent(items),
        distinct(items),
        0 <= i < items.len(),
    ensures
        ({
            let (names, sub) = fold_chain(chain, items);
            &&& coherent(sub)
            &&& distinct(sub)
            &&& 0 <= k < sub.len()
            &&& sub[k].idx == items[i].idx
            &&& names + sub[k].names == chain + items[i].names
            &&& names.len() >= chain.len()
        }),
    decreases height(items),
{
    if files(items).len() == 0 && dir_names(items).len() == 1 {
        let n = items.len() as int;
        let name = dir_names(items)[0];
        lemma_dirs_high(items, n);
        lemma_under_lower(items, name);
        lemma_under_coherent(items, name);
        lemma_under_distinct(items, name);
        assert(items[i].names.len() >= 1);
        if items[i].names.len() == 1 {
            lemma_files_have(items, n, i);
        }
        lemma_dirs_have(items, n, i);
        assert(items[i].names[0] == name);
        let u = lemma_under_has(items, name, n, i);
        let k = lemma_fold_leads(chain.push(name), under(items, name), u);
        assert(chain.push(name) + items[i].names.skip(1) =~= chain + items[i].names);
        k
    } else {
        i
    }
}

/// The file of item `i` is not under another directory of its level.
proof fn lemma_not_below(
    items: Seq<Item>,
    i: int,
    k: int,
    depth: int,
    prefix: Seq<char>,
    collapsed: Seq<Seq<char>>,
)
    requires
        distinct(items),
        0 <= i < items.len(),
        0 <= k < dir_names(items).len(),
        items[i].names.len() < 2 || items[i].names[0] != dir_names(items)[k],
    ensures
        times_shown(below(items, k, depth, prefix, collapsed), items[i].idx) == 0,
{
    let idx = items[i].idx;
    let name = dir_names(items)[k];
    let (chain, sub) = fold_chain(seq![name], under(items, name));
    let rows = below(items, k, depth, prefix, collapsed);
    if shows(rows, idx) {
        lemma_level_only(sub, depth + 1, prefix + chain_text(chain), collapsed, idx);
        lemma_fold_only(seq![name], under(items, name), idx);
        let u = under(items, name);
        let m = choose|m: int| 0 <= m < u.len() && (#[trigger] u[m]).idx == idx;
        let j = lemma_under(items, name, items.len() as int, m);
        assert(items[j].idx == items[i].idx);
        assert(i == j);
    }
    lemma_times_zero(rows, idx);
}

/// File `idx` is shown once, or hidden by a collapsed directory on its way.
spec fn once_or_hidden(rows: Seq<TreeRowView>, idx: usize, text: Seq<char>) -> bool {
    ||| times_shown(rows, idx) == 1
    ||| times_shown(rows, idx) == 0 && hides(rows, text)
}

proof fn lemma_file_row_once(items: Seq<Item>, i: int, depth: int, n: int)
    requires
        coherent(items),
        distinct(items),
        0 <= i < items.len(),
        0 <= n <= files(items).len(),
    ensures
        times_shown(file_rows(files(items), depth).take(n), items[i].idx) == if exists|k: int|
            0 <= k < n && (#[trigger] files(items)[k]) == (items[i].names[0], items[i].idx)
                && items[i].names.len() == 1 {
            1nat
        } else {
            0
        },
    decreases n,
{
    let fs = files(items);
    let rows = file_rows(fs, depth);
    let f = (items[i].names[0], items[i].idx);
    if n > 0 {
        lemma_file_row_once(items, i, depth, n - 1);
        assert(rows.take(n).drop_last() =~= rows.take(n - 1));
        assert(rows.take(n).last() == rows[n - 1]);
        lemma_files_ascending(items, items.len() as int);
        assert(fs.contains(fs[n - 1]));
        lemma_files_from(items, items.len() as int, fs[n - 1]);
        let j = choose|j: int|
            0 <= j < items.len() && items[j].names.len() == 1 && items[j].names[0] == fs[n - 1].0
                && (#[trigger] items[j]).idx == fs[n - 1].1;
        if fs[n - 1].1 == items[i].idx {
            assert(items[j].idx == items[i].idx);
            assert(i == j);
            assert(fs[n - 1] == f);
            if exists|k: int|
                0 <= k < n - 1 && (#[trigger] fs[k]) == f && items[i].names.len() == 1 {
                let k = choose|k: int|
                    0 <= k < n - 1 && (#[trigger] fs[k]) == f && items[i].names.len() == 1;
                assert(order_chars(by_file()(fs[k]), by_file()(fs[n - 1])) < 0);
                lemma_order_chars_flip(f.0, f.0);
            }
        }
        if exists|k: int| 0 <= k < n && (#[trigger] fs[k]) == f && items[i].names.len() == 1 {
            let k = choose|k: int|
                0 <= k < n && (#[trigger] fs[k]) == f && items[i].names.len() == 1;
            if k < n - 1 {
                assert(fs[k] == f);
            }
        }
    } else {
        assert(rows.take(0) =~= Seq::<TreeRowView>::empty());
    }
}

proof fn lemma_level_once(
    items: Seq<Item>,
    i: int,
    depth: int,
    prefix: Seq<char>,
    collapsed: Seq<Seq<char>>,
)
    requires
        coherent(items),
        distinct(items),
        0 <= i < items.len(),
    ensures
        once_or_hidden(
            level_rows(items, depth, prefix, collapsed),
            items[i].idx,
            prefix + join(items[i].names, "/"@),
        ),
    decreases height(items), dir_names(items).len() + 1,
{
    let n = dir_names(items).len();
    let idx = items[i].idx;
    let text = prefix + join(items[i].names, "/"@);
    let fs = files(items);
    let rows = file_rows(fs, depth);
    let dirs = dir_rows(items, n, depth, prefix, collapsed);
    lemma_dir_rows_once(items, i, n, depth, prefix, collapsed);
    lemma_file_row_once(items, i, depth, fs.len() as int);
    assert(rows.take(fs.len() as int) =~= rows);
    lemma_times_concat(dirs, rows, idx);
    assert(items[i].names.len() >= 1);
    if items[i].names.len() == 1 {
        lemma_files_have(items, items.len() as int, i);
        let k = choose|k: int|
            0 <= k < fs.len() && fs[k] == (items[i].names[0], items[i].idx);
        assert(fs[k] == (items[i].names[0], items[i].idx));
    } else {
        lemma_dirs_have(items, items.len() as int, i);
        let k = choose|k: int| 0 <= k < n && dir_names(items)[k] == items[i].names[0];
        assert(dir_names(items)[k] == items[i].names[0]);
        if hides(dirs, text) {
            lemma_hides_concat(dirs, rows, text);
        }
    }
}

/// Whether item `i` is in one of the first `k` directories of its level.
spec fn in_dirs(items: Seq<Item>, i: int, k: nat) -> bool {
    items[i].names.len() >= 2 && exists|m: int|
        0 <= m < k && #[trigger] dir_names(items)[m] == items[i].names[0]
}

proof fn lemma_dir_rows_once(
    items: Seq<Item>,
    i: int,
    k: nat,
    depth: int,
    prefix: Seq<char>,
    collapsed: Seq<Seq<char>>,
)
    requires
        coherent(items),
        distinct(items),
        0 <= i < items.len(),
        k <= dir_names(items).len(),
    ensures
        !in_dirs(items, i, k) ==> times_shown(
            dir_rows(items, k, depth, prefix, collapsed),
            items[i].idx,
        ) == 0,
        in_dirs(items, i, k) ==> once_or_hidden(
            dir_rows(items, k, depth, prefix, collapsed),
            items[i].idx,
            prefix + join(items[i].names, "/"@),
        ),
    decreases height(items), k,
{
    if k > 0 {
        let idx = items[i].idx;
        let text = prefix + join(items[i].names, "/"@);
        let name = dir_names(items)[k - 1];
        let before = dir_rows(items, (k - 1) as nat, depth, prefix, collapsed);
        let row = dir_row(items, k - 1, depth, prefix, collapsed);
        let rest = below(items, k - 1, depth, prefix, collapsed);
        lemma_dir_rows_once(items, i, (k - 1) as nat, depth, prefix, collapsed);
        lemma_dir_rows_step(items, k, depth, prefix, collapsed);
        let block = seq![row] + rest;
        lemma_times_concat(before, block, idx);
        lemma_times_concat(seq![row], rest, idx);
        let head = seq![row];
        if shows(head, idx) {
            let m = choose|m: int| 0 <= m < head.len() && is_file(#[trigger] head[m], idx);
            assert(head[m] == row);
        }
        lemma_times_zero(head, idx);
        if items[i].names.len() >= 2 && items[i].names[0] == name {
            assert(dir_names(items)[k - 1] == items[i].names[0]);
            lemma_dirs_ascending(items, items.len() as int);
            if in_dirs(items, i, (k - 1) as nat) {
                let m = choose|m: int|
                    0 <= m < k - 1 && #[trigger] dir_names(items)[m] == items[i].names[0];
                assert(order_chars(
                    by_name()(dir_names(items)[m]),
                    by_name()(dir_names(items)[k - 1]),
                ) < 0);
                lemma_order_chars_flip(name, name);
            }
            let (chain, sub) = fold_chain(seq![name], under(items, name));
            let path = prefix + chain_text(chain);
            lemma_dirs_high(items, items.len() as int);
            lemma_under_lower(items, name);
            lemma_fold_lower(seq![name], under(items, name));
            lemma_under_coherent(items, name);
            lemma_under_distinct(items, name);
            let u = lemma_under_has(items, name, items.len() as int, i);
            let s = lemma_fold_leads(seq![name], under(items, name), u);
            assert(seq![name] + items[i].names.skip(1) =~= items[i].names);
            lemma_join_concat(chain, sub[s].names, "/"@);
            let shown = path + join(sub[s].names, "/"@);
            assert(shown =~= text);
            if collapsed.contains(path) {
                assert(text.subrange(0, path.len() as int) =~= path);
                assert(hides_path(seq![row][0], text));
                assert(times_shown(rest, idx) == 0);
                lemma_hides_concat(seq![row], rest, text);
                lemma_hides_concat(before, block, text);
            } else {
                lemma_level_once(sub, s, depth + 1, path, collapsed);
                if hides(rest, text) {
                    lemma_hides_concat(seq![row], rest, text);
                    lemma_hides_concat(before, block, text);
                }
            }
        } else {
            lemma_not_below(items, i, k - 1, depth, prefix, collapsed);
            if in_dirs(items, i, k) {
                let m = choose|m: int|
                    0 <= m < k && #[trigger] dir_names(items)[m] == items[i].names[0];
                assert(m < k - 1);
                assert(in_dirs(items, i, (k - 1) as nat));
            }
            if in_dirs(items, i, (k - 1) as nat) {
                let m = choose|m: int|
                    0 <= m < k - 1 && #[trigger] dir_names(items)[m] == items[i].names[0];
                assert(dir_names(items)[m] == items[i].names[0]);
                if hides(before, text) {
                    lemma_hides_concat(before, block, text);
                }
            }
        }
    }
}

proof fn lemma_none_hidden(
    items: Seq<Item>,
    depth: int,
    prefix: Seq<char>,
    text: Seq<char>,
)
    ensures
        !hides(level_rows(items, depth, prefix, Seq::empty()), text),
{
    let none = Seq::<Seq<char>>::empty();
    let rows = level_rows(items, depth, prefix, none);
    lemma_level_expanded(items, depth, prefix);
    if hides(rows, text) {
        let k = choose|k: int| 0 <= k < rows.len() && hides_path(#[trigger] rows[k], text);
        assert(expanded(rows)[k] == expanded_row(rows[k]));
    }
}

/// A level with nothing collapsed has no row that is marked so.
proof fn lemma_level_expanded(items: Seq<Item>, depth: int, prefix: Seq<char>)
    ensures
        expanded(level_rows(items, depth, prefix, Seq::empty())) == level_rows(
            items,
            depth,
            prefix,
            Seq::empty(),
        ),
    decreases height(items), dir_names(items).len() + 1,
{
    let none = Seq::<Seq<char>>::empty();
    let n = dir_names(items).len();
    let dirs = dir_rows(items, n, depth, prefix, none);
    let fs = file_rows(files(items), depth);
    lemma_dir_rows_expanded(items, n, depth, prefix);
    assert(expanded(fs) =~= fs);
    assert(expanded(dirs + fs) =~= expanded(dirs) + expanded(fs));
}

proof fn lemma_dir_rows_expanded(items: Seq<Item>, k: nat, depth: int, prefix: Seq<char>)
    ensures
        expanded(dir_rows(items, k, depth, prefix, Seq::empty())) == dir_rows(
            items,
            k,
            depth,
            prefix,
            Seq::empty(),
        ),
    decreases height(items), k,
{
    let none = Seq::<Seq<char>>::empty();
    if 0 < k <= dir_names(items).len() {
        let name = dir_names(items)[k - 1];
        let (chain, sub) = fold_chain(seq![name], under(items, name));
        let path = prefix + chain_text(chain);
        lemma_dirs_high(items, items.len() as int);
        lemma_under_lower(items, name);
        lemma_fold_lower(seq![name], under(items, name));
        lemma_dir_rows_expanded(items, (k - 1) as nat, depth, prefix);
        lemma_level_expanded(sub, depth + 1, path);
        lemma_dir_rows_step(items, k, depth, prefix, none);
        let before = dir_rows(items, (k - 1) as nat, depth, prefix, none);
        let row = dir_row(items, k - 1, depth, prefix, none);
        let rest = below(items, k - 1, depth, prefix, none);
        assert(!none.contains(path));
        assert(expanded_row(row) == row);
        assert(expanded(before + (seq![row] + rest)) =~= expanded(before) + (seq![row] + expanded(
            rest,
        )));
    } else {
        assert(expanded(dir_rows(items, k, depth, prefix, none)) =~= Seq::empty());
    }
}

/// Each file has exactly one row, unless a collapsed directory on its path hides
/// it; with nothing collapsed each has its row. Entries have different indices.
pub proof fn law_each_file_has_one_row(
    entries: Seq<(usize, Seq<char>)>,
    collapsed: Seq<Seq<char>>,
    i: int,
)
    requires
        unambiguous(entries),
        forall|a: int, b: int|
            0 <= a < b < entries.len() ==> (#[trigger] entries[a]).0 != (#[trigger] entries[b]).0,
        0 <= i < entries.len(),
    ensures
        ({
            let rows = tree(entries, collapsed);
            ||| times_shown(rows, entries[i].0) == 1
            ||| times_shown(rows, entries[i].0) == 0 && hides(rows, path_text(entries[i].1))
        }),
        times_shown(tree(entries, Seq::empty()), entries[i].0) == 1,
{
    let items = items_of(entries);
    let none = Seq::<char>::empty();
    lemma_unambiguous(entries);
    assert forall|a: int, b: int| 0 <= a < b < items.len() implies (#[trigger] items[a]).idx != (
    #[trigger] items[b]).idx by {
        assert(entries[a].0 != entries[b].0);
    }
    let text = path_text(entries[i].1);
    assert(none + join(items[i].names, "/"@) =~= text);
    lemma_level_once(items, i, 0, none, collapsed);
    lemma_level_once(items, i, 0, none, Seq::empty());
    lemma_none_hidden(items, 0, none, text);
}

} // verus!
