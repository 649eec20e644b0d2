//! The repository and the list, against a small stand-in for git that keeps its
//! commits, index and working tree in memory.
use gitview::config::Config;
use gitview::git::{parse_porcelain_v2, ChangeKind, FileEntry, Scope, StageState};
use gitview::input::{Action, Key, KeyCode};
use gitview::list::app::{App, Effect, Mode, LOG_LIMIT};
use gitview::list::rows::{ListRow, Section};
use gitview::list::session::Activation;
use gitview::repo::{BaseProbe, Output, Repo};
use std::collections::{BTreeMap, BTreeSet};

type Tree = BTreeMap<String, String>;

struct Commit {
    parent: Option<usize>,
    tree: Tree,
    subject: String,
}

struct Git {
    commits: Vec<Commit>,
    branches: BTreeMap<String, usize>,
    branch: String,
    index: Tree,
    work: Tree,
    conflicts: BTreeSet<String>,
}

fn ok(stdout: Vec<u8>) -> Output {
    Output { code: Some(0), stdout, stderr: Vec::new() }
}

fn fail(code: i32, stderr: &str) -> Output {
    Output { code: Some(code), stdout: Vec::new(), stderr: stderr.into() }
}

/// Lines that only the old and only the new text has, by longest common
/// subsequence.
fn changed_lines(old: &str, new: &str) -> (Vec<String>, Vec<String>) {
    let a: Vec<&str> = old.lines().collect();
    let b: Vec<&str> = new.lines().collect();
    let mut best = vec![vec![0usize; b.len() + 1]; a.len() + 1];
    for i in (0..a.len()).rev() {
        for j in (0..b.len()).rev() {
            best[i][j] = if a[i] == b[j] {
                best[i + 1][j + 1] + 1
            } else {
                best[i + 1][j].max(best[i][j + 1])
            };
        }
    }
    let (mut i, mut j) = (0, 0);
    let (mut dels, mut adds) = (Vec::new(), Vec::new());
    while i < a.len() || j < b.len() {
        if i < a.len() && j < b.len() && a[i] == b[j] {
            i += 1;
            j += 1;
        } else if j == b.len() || (i < a.len() && best[i + 1][j] >= best[i][j + 1]) {
            dels.push(a[i].to_string());
            i += 1;
        } else {
            adds.push(b[j].to_string());
            j += 1;
        }
    }
    (dels, adds)
}

/// A change between two trees: its letter, its path and the path it came from.
fn changes(from: &Tree, to: &Tree) -> Vec<(char, String, Option<String>)> {
    let mut out = Vec::new();
    let mut moved = BTreeSet::new();
    for (path, text) in to {
        match from.get(path) {
            Some(old) if old == text => {}
            Some(_) => out.push(('M', path.clone(), None)),
            None => {
                let source = from
                    .iter()
                    .find(|(p, t)| !to.contains_key(*p) && *t == text && !moved.contains(*p));
                match source {
                    Some((p, _)) => {
                        moved.insert(p.clone());
                        out.push(('R', path.clone(), Some(p.clone())));
                    }
                    None => out.push(('A', path.clone(), None)),
                }
            }
        }
    }
    for path in from.keys() {
        if !to.contains_key(path) && !moved.contains(path) {
            out.push(('D', path.clone(), None));
        }
    }
    out.sort_by(|a, b| a.1.cmp(&b.1));
    out
}

fn names(from: &Tree, to: &Tree) -> Vec<u8> {
    let mut out = String::new();
    for (kind, path, orig) in changes(from, to) {
        match orig {
            Some(orig) => out += &format!("R100\0{orig}\0{path}\0"),
            None => out += &format!("{kind}\0{path}\0"),
        }
    }
    out.into_bytes()
}

fn counts(from: &Tree, to: &Tree) -> Vec<u8> {
    let mut out = String::new();
    let empty = String::new();
    for (_, path, orig) in changes(from, to) {
        let old = from.get(orig.as_ref().unwrap_or(&path)).unwrap_or(&empty);
        let new = to.get(&path).unwrap_or(&empty);
        let count = if old.contains('\0') || new.contains('\0') {
            "-\t-".to_string()
        } else {
            let (dels, adds) = changed_lines(old, new);
            format!("{}\t{}", adds.len(), dels.len())
        };
        match orig {
            Some(orig) => out += &format!("{count}\t\0{orig}\0{path}\0"),
            None => out += &format!("{count}\t{path}\0"),
        }
    }
    out.into_bytes()
}

/// The coloured diff of the given paths.
fn colored(from: &Tree, to: &Tree, paths: &[String]) -> Vec<u8> {
    let mut out = String::new();
    let empty = String::new();
    for (kind, path, orig) in changes(from, to) {
        let source = orig.clone().unwrap_or(path.clone());
        if !paths.contains(&path) && !paths.contains(&source) {
            continue;
        }
        out += &format!("\x1b[1mdiff --git a/{source} b/{path}\x1b[m\n");
        if kind == 'R' {
            out += &format!("\x1b[1mrename from {source}\x1b[m\n\x1b[1mrename to {path}\x1b[m\n");
        }
        let (dels, adds) =
            changed_lines(from.get(&source).unwrap_or(&empty), to.get(&path).unwrap_or(&empty));
        for l in dels {
            out += &format!("\x1b[31m-{l}\x1b[m\n");
        }
        for l in adds {
            out += &format!("\x1b[32m+{l}\x1b[m\n");
        }
    }
    out.into_bytes()
}

impl Git {
    /// A repo with one committed file (`base.txt` = "one\ntwo\n") on `main`.
    fn new() -> Git {
        let mut git = Git {
            commits: Vec::new(),
            branches: BTreeMap::new(),
            branch: "main".to_string(),
            index: Tree::new(),
            work: Tree::new(),
            conflicts: BTreeSet::new(),
        };
        git.write("base.txt", "one\ntwo\n");
        git.add(".");
        git.commit("base");
        git
    }

    fn write(&mut self, path: &str, text: &str) {
        self.work.insert(path.to_string(), text.to_string());
    }

    fn has_file(&self, path: &str) -> bool {
        self.work.contains_key(path)
    }

    fn add(&mut self, path: &str) {
        let under = |p: &String| path == "." || p == path || p.starts_with(&format!("{path}/"));
        let gone: Vec<String> =
            self.index.keys().filter(|p| under(p) && !self.work.contains_key(*p)).cloned().collect();
        for p in gone {
            self.index.remove(&p);
        }
        for (p, t) in &self.work {
            if under(p) {
                self.index.insert(p.clone(), t.clone());
            }
        }
    }

    fn mv(&mut self, from: &str, to: &str) {
        let text = self.work.remove(from).unwrap();
        self.index.remove(from);
        self.work.insert(to.to_string(), text.clone());
        self.index.insert(to.to_string(), text);
    }

    fn commit(&mut self, subject: &str) {
        let parent = self.branches.get(&self.branch).copied();
        self.commits.push(Commit { parent, tree: self.index.clone(), subject: subject.to_string() });
        self.branches.insert(self.branch.clone(), self.commits.len() - 1);
    }

    fn commit_all(&mut self, subject: &str) {
        let known: Vec<String> = self.index.keys().cloned().collect();
        for p in known {
            self.add(&p);
        }
        self.commit(subject);
    }

    fn new_branch(&mut self, name: &str) {
        let at = self.branches[&self.branch];
        self.branches.insert(name.to_string(), at);
        self.branch = name.to_string();
    }

    fn checkout(&mut self, name: &str) {
        self.branch = name.to_string();
        self.index = self.head().clone();
        self.work = self.head().clone();
    }

    fn head(&self) -> &Tree {
        &self.commits[self.branches[&self.branch]].tree
    }

    fn ancestors(&self, mut at: usize) -> Vec<usize> {
        let mut out = vec![at];
        while let Some(p) = self.commits[at].parent {
            out.push(p);
            at = p;
        }
        out
    }

    fn sha(at: usize) -> String {
        format!("{:07}{}", at + 1, "0".repeat(33))
    }

    fn find(&self, rev: &str) -> Option<usize> {
        if rev == "HEAD" {
            return self.branches.get(&self.branch).copied();
        }
        self.branches
            .get(rev)
            .copied()
            .or_else(|| (0..self.commits.len()).find(|i| Git::sha(*i) == rev))
    }

    /// The known part of the working tree.
    fn known(&self) -> Tree {
        self.work
            .iter()
            .filter(|(p, _)| self.index.contains_key(*p))
            .map(|(p, t)| (p.clone(), t.clone()))
            .collect()
    }

    fn status(&self, untracked: bool) -> Vec<u8> {
        let mut out = String::new();
        let staged = changes(self.head(), &self.index);
        let letter = |path: &String| match (self.index.get(path), self.work.get(path)) {
            (Some(a), Some(b)) if a == b => '.',
            (Some(_), Some(_)) => 'M',
            (Some(_), None) => 'D',
            _ => '.',
        };
        let mut paths: BTreeSet<String> = self.index.keys().cloned().collect();
        paths.extend(staged.iter().map(|c| c.1.clone()));
        for path in paths {
            let y = letter(&path);
            if self.conflicts.contains(&path) {
                out += &format!("u UU N... 100644 100644 100644 100644 a b c {path}\0");
                continue;
            }
            match staged.iter().find(|c| c.1 == path) {
                Some((_, _, Some(orig))) => {
                    out += &format!(
                        "2 R{y} N... 100644 100644 100644 abc def R100 {path}\0{orig}\0"
                    );
                }
                Some((x, _, None)) => {
                    out += &format!("1 {x}{y} N... 100644 100644 100644 abc def {path}\0");
                }
                None if y != '.' => {
                    out += &format!("1 .{y} N... 100644 100644 100644 abc def {path}\0");
                }
                None => {}
            }
        }
        if untracked {
            for path in self.work.keys() {
                if !self.index.contains_key(path) {
                    out += &format!("? {path}\0");
                }
            }
        }
        out.into_bytes()
    }

    fn run(&mut self, args: &[String]) -> Output {
        let mut args: Vec<&str> = args.iter().map(String::as_str).collect();
        while args.first() == Some(&"-c") {
            args.drain(..2);
        }
        let paths: Vec<String> = match args.iter().position(|a| *a == "--") {
            Some(i) => args[i + 1..].iter().map(|s| s.to_string()).collect(),
            None => Vec::new(),
        };
        match args.as_slice() {
            ["status", "--porcelain=v2", "-z", u] => ok(self.status(*u == "--untracked-files=all")),
            ["diff", "--numstat", "-z", "-M", "--cached"] => ok(counts(self.head(), &self.index)),
            ["diff", "--numstat", "-z", "-M"] => {
                let index: Tree = self
                    .index
                    .iter()
                    .filter(|(p, _)| !self.conflicts.contains(*p))
                    .map(|(p, t)| (p.clone(), t.clone()))
                    .collect();
                ok(counts(&index, &self.known()))
            }
            ["diff", "--cached", "--name-only", "-z"] => {
                let list: String =
                    changes(self.head(), &self.index).iter().map(|c| format!("{}\0", c.1)).collect();
                ok(list.into_bytes())
            }
            ["diff", base, how, "-z", "-M"] => {
                let tree = self.commits[self.find(base).unwrap()].tree.clone();
                match *how {
                    "--name-status" => ok(names(&tree, &self.known())),
                    _ => ok(counts(&tree, &self.known())),
                }
            }
            ["diff", "--color=always", "--no-ext-diff", "--no-index", "--", "/dev/null", path] => {
                let mut to = Tree::new();
                to.insert(path.to_string(), self.work[*path].clone());
                // Two different files: git says so with its exit code.
                Output { code: Some(1), stdout: colored(&Tree::new(), &to, &paths), stderr: Vec::new() }
            }
            ["diff", "--color=always", "--no-ext-diff", "--cached", "--", ..] => {
                ok(colored(self.head(), &self.index, &paths))
            }
            ["diff", "--color=always", "--no-ext-diff", "-M", base, "--", ..] => {
                let tree = self.commits[self.find(base).unwrap()].tree.clone();
                ok(colored(&tree, &self.known(), &paths))
            }
            ["diff", "--color=always", "--no-ext-diff", "--", ..] => {
                ok(colored(&self.index, &self.known(), &paths))
            }
            ["diff-tree", "-r", "--root", how, "-z", "-M", sha] => {
                let at = self.find(sha).unwrap();
                let from = match self.commits[at].parent {
                    Some(p) => self.commits[p].tree.clone(),
                    None => Tree::new(),
                };
                let to = &self.commits[at].tree;
                // diff-tree puts the commit's id in front.
                let mut out = format!("{sha}\0").into_bytes();
                out.extend(match *how {
                    "--name-status" => names(&from, to),
                    _ => counts(&from, to),
                });
                ok(out)
            }
            ["log", "--format=%H%x00%h%x00%an%x00%ad%x00%s%x00", "--date=short", "-n", n, rest @ ..] => {
                let head = self.find("HEAD").unwrap();
                let mut list = self.ancestors(head);
                if let Some(range) = rest.first() {
                    let base = range.strip_suffix("..HEAD").unwrap();
                    let hidden = self.ancestors(self.find(base).unwrap());
                    list.retain(|c| !hidden.contains(c));
                }
                let mut out = String::new();
                for at in list.into_iter().take(n.parse().unwrap()) {
                    let sha = Git::sha(at);
                    out += &format!(
                        "{sha}\0{}\0t\02024-01-01\0{}\0\n",
                        &sha[..7],
                        self.commits[at].subject
                    );
                }
                ok(out.into_bytes())
            }
            ["symbolic-ref", "--quiet", "--short", "HEAD"] => {
                ok(format!("{}\n", self.branch).into_bytes())
            }
            ["symbolic-ref", "refs/remotes/origin/HEAD"] => fail(128, "fatal: no such ref"),
            ["rev-parse", "--verify", "--quiet", name] => match self.find(name) {
                Some(at) => ok(format!("{}\n", Git::sha(at)).into_bytes()),
                None => fail(1, ""),
            },
            ["merge-base", "HEAD", base] => {
                let ours = self.ancestors(self.find("HEAD").unwrap());
                match self.find(base) {
                    Some(at) => {
                        let theirs = self.ancestors(at);
                        let both = ours.into_iter().find(|c| theirs.contains(c)).unwrap();
                        ok(format!("{}\n", Git::sha(both)).into_bytes())
                    }
                    None => fail(128, "fatal: Not a valid object name"),
                }
            }
            ["add", "--", ..] => {
                for p in &paths {
                    self.add(p);
                }
                ok(Vec::new())
            }
            ["restore", "--staged", "--", ..] => {
                for p in &paths {
                    match self.head().get(p).cloned() {
                        Some(text) => {
                            self.index.insert(p.clone(), text);
                        }
                        None => {
                            self.index.remove(p);
                        }
                    }
                }
                ok(Vec::new())
            }
            ["restore", "--", ..] => {
                for p in &paths {
                    match self.index.get(p) {
                        Some(text) => {
                            let text = text.clone();
                            self.work.insert(p.clone(), text);
                        }
                        None => return fail(1, "error: pathspec did not match"),
                    }
                }
                ok(Vec::new())
            }
            ["clean", "-f", "--", ..] => {
                for p in &paths {
                    if !self.index.contains_key(p) {
                        self.work.remove(p);
                    }
                }
                ok(Vec::new())
            }
            other => panic!("git {other:?}"),
        }
    }

    fn stdout(&mut self, args: &[String]) -> Result<Vec<u8>, String> {
        Repo::answer(&self.run(args), false)
    }

    fn worktree_status(&mut self, show_untracked: bool) -> Result<Vec<FileEntry>, String> {
        let status = self.stdout(&Repo::worktree_status_args(show_untracked))?;
        let unstaged = self.stdout(&Repo::numstat_args(false))?;
        let staged = self.stdout(&Repo::numstat_args(true))?;
        let contents: Vec<Option<Vec<u8>>> = parse_porcelain_v2(&status)
            .map_err(|e| e.message())?
            .iter()
            .map(|e| self.work.get(&e.path).map(|t| t.clone().into_bytes()))
            .collect();
        Repo::worktree_status(&status, &unstaged, &staged, &contents).map_err(|e| e.message())
    }

    fn branch_changes(&mut self, merge_base: &str) -> Result<Vec<FileEntry>, String> {
        let names = self.stdout(&Repo::branch_changes_args(merge_base, false))?;
        let counts = self.stdout(&Repo::branch_changes_args(merge_base, true))?;
        Repo::branch_changes(&names, &counts).map_err(|e| e.message())
    }

    fn commit_files(&mut self, sha: &str) -> Result<Vec<FileEntry>, String> {
        let names = self.stdout(&Repo::commit_files_args(sha, false))?;
        let counts = self.stdout(&Repo::commit_files_args(sha, true))?;
        Repo::commit_files(&names, &counts).map_err(|e| e.message())
    }

    fn detect_base(&mut self) -> String {
        let mut at = BaseProbe::Origin;
        while let Some(args) = Repo::detect_base_args(&at) {
            let out = self.run(&args);
            at = Repo::detect_base(at, &Some(out));
        }
        match at {
            BaseProbe::Found(name) => name,
            other => panic!("{other:?}"),
        }
    }

    fn merge_base(&mut self, base: &str) -> Result<String, String> {
        let out = self.stdout(&Repo::merge_base_args(base))?;
        Ok(Repo::merge_base(&out))
    }

    fn diff_ansi(&mut self, e: &FileEntry, scope: Scope, cached: bool) -> Vec<u8> {
        let base = self.detect_base();
        let merge_base = self.merge_base(&base).unwrap();
        let cmd = Repo::diff_ansi(e, scope, cached, None, &merge_base);
        Repo::answer(&self.run(&cmd.args), cmd.tristate).unwrap()
    }

    fn discard(&mut self, e: &FileEntry) -> Result<(), String> {
        for args in Repo::discard(e)? {
            self.stdout(&args)?;
        }
        Ok(())
    }

    fn fingerprint(&mut self) -> u64 {
        let out = self.stdout(&Repo::worktree_status_args(true)).unwrap();
        Repo::fingerprint(&out)
    }

    fn staged_count(&mut self) -> usize {
        let out = self.stdout(&Repo::staged_count_args()).unwrap();
        Repo::staged_count(&out)
    }

    // ---- the list's effects ------------------------------------------------

    fn load(&mut self, app: &App) -> Result<Vec<FileEntry>, String> {
        match app.scope {
            Scope::Worktree => self.worktree_status(app.cfg.show_untracked),
            Scope::Branch => {
                let base = app.merge_base.clone().unwrap_or("HEAD".to_string());
                self.branch_changes(&base)
            }
        }
    }

    fn perform(&mut self, app: &mut App, mut effect: Effect) {
        loop {
            effect = match effect {
                Effect::Nothing => return,
                Effect::Reload(then) => {
                    let loaded = self.load(app);
                    app.reloaded(then, loaded);
                    Effect::Nothing
                }
                Effect::ResolveBase(purpose) => {
                    let base = self.detect_base();
                    let found = self.merge_base(&base).map(|mb| (base, mb));
                    app.base_resolved(purpose, found)
                }
                Effect::LoadLog { branch_only } => {
                    let range = app.merge_base.as_ref().map(|mb| format!("{mb}..HEAD"));
                    let range = if branch_only { range.as_deref() } else { None };
                    let loaded = self
                        .stdout(&Repo::log_commits_args(LOG_LIMIT, range))
                        .map(|out| Repo::log_commits(&out));
                    app.log_loaded(branch_only, loaded);
                    Effect::Nothing
                }
                Effect::LoadCommit { info } => {
                    let loaded = self.commit_files(&info.sha);
                    app.commit_loaded(info, loaded);
                    Effect::Nothing
                }
                Effect::Mutate(m) => {
                    let args = if m.unstage {
                        Repo::unstage_many(&m.paths)
                    } else {
                        Repo::stage_many(&m.paths)
                    };
                    let failure = self.stdout(&args).err();
                    app.mutated(m, failure)
                }
                Effect::Discard(entries) => {
                    let failure = entries.iter().find_map(|e| self.discard(e).err());
                    app.discarded(failure)
                }
                Effect::CloseEditor { .. } => panic!("no editor here"),
            };
        }
    }
}

fn fixture(_name: &str) -> Git {
    Git::new()
}

impl Git {
    fn head_branch(&mut self) -> Option<String> {
        Repo::head_branch(&self.run(&Repo::head_branch_args()))
    }

    fn stage(&mut self, path: &str) {
        self.stdout(&Repo::stage(path)).unwrap();
    }

    fn unstage(&mut self, path: &str) {
        self.stdout(&Repo::unstage(path)).unwrap();
    }

    /// A merge that leaves one file conflicted.
    fn merge_conflict(&mut self, path: &str, theirs: &str) {
        let other = self.commits[self.branches[theirs]].tree[path].clone();
        let text = format!("<<<<<<< HEAD\n{}=======\n{other}>>>>>>> {theirs}\n", self.work[path]);
        self.write(path, &text);
        self.conflicts.insert(path.to_string());
    }
}

fn app_for(git: &mut Git) -> App {
    let entries = git.worktree_status(true).unwrap();
    let branch = git.head_branch();
    let repo = Repo { root: "/repo".to_string() };
    App::from_entries(repo, Config::default(), branch, false, entries)
}

/// Press a key by its default binding.
fn press(git: &mut Git, app: &mut App, key: &str) {
    let action = match key {
        "s" => Some(Action::Stage),
        "u" => Some(Action::Unstage),
        "x" => Some(Action::Discard),
        "w" => Some(Action::ToggleScope),
        "l" => Some(Action::Log),
        "q" => Some(Action::Quit),
        "n" => Some(Action::NotesView),
        "y" => None,
        other => panic!("{other}"),
    };
    let ev = Key::plain(KeyCode::Char(key.chars().next().unwrap()));
    let effect = app.on_key(ev, action);
    git.perform(app, effect);
}

fn open_commit(git: &mut Git, app: &mut App) {
    match app.activate_selection(true) {
        Activation::Load(effect) => git.perform(app, effect),
        other => panic!("{other:?}"),
    }
}

#[test]
fn staged_unstaged_partial() {
    let mut t = fixture("stage-states");
    // staged-only
    t.write("staged.txt", "s\n");
    t.add("staged.txt");
    // unstaged-only (known, then modified)
    t.write("base.txt", "one\ntwo\nthree\n");
    // partial: add, then modify again
    t.write("partial.txt", "p1\n");
    t.add("partial.txt");
    t.write("partial.txt", "p1\np2\n");

    let entries = t.worktree_status(true).unwrap();
    let by_path = |p: &str| entries.iter().find(|e| e.path == *p).unwrap();

    let staged = by_path("staged.txt");
    assert_eq!(
        (staged.kind, staged.stage),
        (ChangeKind::Added, StageState::Staged)
    );
    assert_eq!((staged.adds, staged.dels), (Some(1), Some(0)));

    let unstaged = by_path("base.txt");
    assert_eq!(
        (unstaged.kind, unstaged.stage),
        (ChangeKind::Modified, StageState::Unstaged)
    );
    assert_eq!((unstaged.adds, unstaged.dels), (Some(1), Some(0)));

    let partial = by_path("partial.txt");
    assert_eq!(partial.stage, StageState::Partial);
    assert_eq!((partial.adds, partial.dels), (Some(2), Some(0))); // 1 staged + 1 unstaged
}

#[test]
fn rename_untracked_spaces_binary() {
    let mut t = fixture("mixed");
    // rename, staged
    t.mv("base.txt", "renamed.txt");
    // untracked with spaces in the name
    t.write("new file.txt", "a\nb\nc\n");
    // binary, staged
    t.write("blob.bin", "\u{0}\u{7f}\u{0}\u{1}");
    t.add("blob.bin");

    let entries = t.worktree_status(true).unwrap();
    let by_path = |p: &str| entries.iter().find(|e| e.path == *p).unwrap();

    let renamed = by_path("renamed.txt");
    assert_eq!(renamed.kind, ChangeKind::Renamed);
    assert_eq!(renamed.orig_path, Some(String::from("base.txt")));
    assert_eq!(renamed.stage, StageState::Staged);

    let untracked = by_path("new file.txt");
    assert_eq!(
        (untracked.kind, untracked.stage),
        (ChangeKind::Untracked, StageState::Untracked)
    );
    assert_eq!((untracked.adds, untracked.dels), (Some(3), Some(0)));

    let binary = by_path("blob.bin");
    assert_eq!(binary.kind, ChangeKind::Added);
    assert_eq!((binary.adds, binary.dels), (None, None));
}

#[test]
fn untracked_hidden_when_disabled() {
    let mut t = fixture("no-untracked");
    t.write("loose.txt", "x\n");
    assert_eq!(t.worktree_status(true).unwrap().len(), 1);
    assert_eq!(t.worktree_status(false).unwrap().len(), 0);
}

#[test]
fn branch_scope_changes_vs_main() {
    let mut t = fixture("branch");
    t.new_branch("feature");
    t.write("feat.txt", "f1\nf2\n");
    t.add(".");
    t.commit("feat 1");
    t.write("base.txt", "one\ntwo\nchanged\n");
    t.add(".");
    t.commit("feat 2");

    assert_eq!(t.head_branch().as_deref(), Some("feature"));
    assert_eq!(t.detect_base(), "main");
    let mb = t.merge_base("main").unwrap();
    let entries = t.branch_changes(&mb).unwrap();

    assert_eq!(entries.len(), 2);
    let by_path = |p: &str| entries.iter().find(|e| e.path == *p).unwrap();
    let feat = by_path("feat.txt");
    assert_eq!((feat.kind, feat.stage), (ChangeKind::Added, StageState::NA));
    assert_eq!((feat.adds, feat.dels), (Some(2), Some(0)));
    let base = by_path("base.txt");
    assert_eq!(base.kind, ChangeKind::Modified);
    assert_eq!((base.adds, base.dels), (Some(1), Some(0))); // appended one line
}

#[test]
fn conflicted_file_sorts_first() {
    let mut t = fixture("conflict");
    t.new_branch("feature");
    t.write("base.txt", "feature version\n");
    t.commit_all("feature edit");
    t.checkout("main");
    t.write("base.txt", "main version\n");
    t.commit_all("main edit");
    t.merge_conflict("base.txt", "feature");
    // add a second, boring change that would sort before by path
    t.write("aaa.txt", "x\n");

    let entries = t.worktree_status(true).unwrap();
    assert_eq!(entries[0].path, String::from("base.txt"));
    assert_eq!(entries[0].kind, ChangeKind::Conflicted);
    assert_eq!(entries[0].stage, StageState::NA);
    assert_eq!(entries[1].path, String::from("aaa.txt"));
}

// ---- diff_ansi ------------------------------------------------------------

fn find<'a>(
    entries: &'a [FileEntry],
    p: &str,
) -> &'a FileEntry {
    entries
        .iter()
        .find(|e| e.path == *p)
        .expect("entry for path")
}

#[test]
fn diff_ansi_unstaged_has_color_and_line() {
    let mut t = fixture("diff-unstaged");
    t.write("base.txt", "one\ntwo\nthree\n");
    let entries = t.worktree_status(true).unwrap();
    let e = find(&entries, "base.txt");
    let out = t.diff_ansi(e, Scope::Worktree, false);
    // ANSI escape byte present + the newly added line shows up.
    assert!(out.contains(&0x1b), "expected ANSI escape bytes in diff");
    assert!(
        String::from_utf8_lossy(&out).contains("three"),
        "expected added line"
    );
}

#[test]
fn diff_ansi_cached_vs_unstaged() {
    let mut t = fixture("diff-cached");
    t.write("base.txt", "one\ntwo\nstaged\n");
    t.add("base.txt");
    let entries = t.worktree_status(true).unwrap();
    let e = find(&entries, "base.txt");
    // Staged view shows the change; unstaged view is empty (nothing left).
    let cached = t.diff_ansi(e, Scope::Worktree, true);
    assert!(String::from_utf8_lossy(&cached).contains("staged"));
    let unstaged = t.diff_ansi(e, Scope::Worktree, false);
    assert!(unstaged.is_empty(), "no unstaged changes expected");
}

#[test]
fn diff_ansi_untracked_full_add() {
    let mut t = fixture("diff-untracked");
    t.write("fresh.txt", "alpha\nbeta\n");
    let entries = t.worktree_status(true).unwrap();
    let e = find(&entries, "fresh.txt");
    let out = t.diff_ansi(e, Scope::Worktree, false);
    let text = String::from_utf8_lossy(&out);
    assert!(
        text.contains("alpha") && text.contains("beta"),
        "full-file add diff"
    );
    assert!(out.contains(&0x1b), "expected ANSI escape bytes");
}

#[test]
fn diff_ansi_branch_scope() {
    let mut t = fixture("diff-branch");
    t.new_branch("feature");
    t.write("base.txt", "one\ntwo\nbranch\n");
    t.commit_all("edit");
    let mb = t.merge_base("main").unwrap();
    let entries = t.branch_changes(&mb).unwrap();
    let e = find(&entries, "base.txt");
    let out = t.diff_ansi(e, Scope::Branch, false);
    assert!(
        String::from_utf8_lossy(&out).contains("branch"),
        "branch-scope change line"
    );
    assert!(out.contains(&0x1b), "expected ANSI escape bytes");
}

#[test]
fn diff_ansi_branch_rename() {
    let mut t = fixture("diff-rename");
    t.new_branch("feature");
    t.mv("base.txt", "moved.txt");
    t.commit("rename");
    let mb = t.merge_base("main").unwrap();
    let entries = t.branch_changes(&mb).unwrap();
    let e = entries
        .iter()
        .find(|e| e.kind == ChangeKind::Renamed)
        .expect("renamed entry");
    assert_eq!(e.orig_path, Some(String::from("base.txt")));
    let out = t.diff_ansi(e, Scope::Branch, false);
    let text = String::from_utf8_lossy(&out);
    // Rename diff references the paths (pathspec included both orig + new).
    assert!(
        text.contains("moved.txt") || text.contains("base.txt"),
        "rename diff mentions paths"
    );
}

#[test]
fn fingerprint_changes_with_worktree() {
    let mut t = fixture("fingerprint");
    let clean = t.fingerprint();
    t.write("new.txt", "x\n");
    let dirty = t.fingerprint();
    assert_ne!(clean, dirty);
    t.work.remove("new.txt");
    assert_eq!(t.fingerprint(), clean);
}

// ---- phase 5: write side ---------------------------------------------------

fn entry_for<'a>(
    entries: &'a [FileEntry],
    p: &str,
) -> &'a FileEntry {
    entries
        .iter()
        .find(|e| e.path == *p)
        .unwrap_or_else(|| panic!("no entry for {p}"))
}

fn status_len(t: &mut Git) -> usize {
    t.worktree_status(true).unwrap().len()
}

#[test]
fn stage_unstage_round_trip() {
    let mut t = fixture("stage-round-trip");
    t.write("base.txt", "one\ntwo\nmore\n");

    t.stage("base.txt");
    let entries = t.worktree_status(true).unwrap();
    assert_eq!(entry_for(&entries, "base.txt").stage, StageState::Staged);
    assert_eq!(t.staged_count(), 1);

    t.unstage("base.txt");
    let entries = t.worktree_status(true).unwrap();
    assert_eq!(entry_for(&entries, "base.txt").stage, StageState::Unstaged);
    assert_eq!(t.staged_count(), 0);
}

#[test]
fn discard_untracked_deletes_file() {
    let mut t = fixture("discard-untracked");
    t.write("loose.txt", "x\n");
    let entries = t.worktree_status(true).unwrap();
    t.discard(entry_for(&entries, "loose.txt")).unwrap();
    assert!(!t.has_file("loose.txt"));
    assert_eq!(status_len(&mut t), 0);
}

#[test]
fn discard_unstaged_restores_head() {
    let mut t = fixture("discard-unstaged");
    t.write("base.txt", "changed\n");
    let entries = t.worktree_status(true).unwrap();
    t.discard(entry_for(&entries, "base.txt")).unwrap();
    assert_eq!(
        t.work["base.txt"],
        "one\ntwo\n"
    );
    assert_eq!(status_len(&mut t), 0);
}

#[test]
fn discard_staged_and_partial_full_revert() {
    let mut t = fixture("discard-staged");
    // staged modification
    t.write("base.txt", "staged edit\n");
    t.stage("base.txt");
    // …then another unstaged edit on top → partial
    t.write("base.txt", "staged edit\nplus unstaged\n");

    let entries = t.worktree_status(true).unwrap();
    assert_eq!(entry_for(&entries, "base.txt").stage, StageState::Partial);
    t.discard(entry_for(&entries, "base.txt")).unwrap();
    assert_eq!(
        t.work["base.txt"],
        "one\ntwo\n"
    );
    assert_eq!(status_len(&mut t), 0);
}

#[test]
fn discard_staged_new_file_removes_it() {
    let mut t = fixture("discard-added");
    t.write("brand-new.txt", "n\n");
    t.stage("brand-new.txt");
    let entries = t.worktree_status(true).unwrap();
    t.discard(entry_for(&entries, "brand-new.txt"))
        .unwrap();
    assert!(!t.has_file("brand-new.txt"));
    assert_eq!(status_len(&mut t), 0);
}

#[test]
fn discard_rename_restores_old_path() {
    let mut t = fixture("discard-rename");
    t.mv("base.txt", "moved.txt");
    let entries = t.worktree_status(true).unwrap();
    t.discard(entry_for(&entries, "moved.txt")).unwrap();
    assert!(t.has_file("base.txt"));
    assert!(!t.has_file("moved.txt"));
    assert_eq!(status_len(&mut t), 0);
}

#[test]
fn discard_conflicted_is_refused() {
    let mut t = fixture("discard-conflict");
    t.new_branch("feature");
    t.write("base.txt", "feature\n");
    t.commit_all("f");
    t.checkout("main");
    t.write("base.txt", "main\n");
    t.commit_all("m");
    t.merge_conflict("base.txt", "feature");

    let entries = t.worktree_status(true).unwrap();
    let err = t.discard(entry_for(&entries, "base.txt")).unwrap_err();
    assert!(err.contains("conflict"), "got: {err}");
    // file untouched by the refusal
    assert!(
        t.work["base.txt"]
            .contains("<<<<<<<")
    );
}

/// Move the cursor onto the directory row whose full path is `path`, in
/// `section`. Panics when that row isn't on screen.
fn select_dir(app: &mut App, path: &str, section: Section) {
    let idx = app
        .rows
        .iter()
        .position(|row| {
            matches!(row, ListRow::Dir { path: p, section: s, .. } if p == path && *s == section)
        })
        .unwrap_or_else(|| panic!("no dir row {path:?} in {section:?} in {:?}", app.rows));
    app.cursor = idx;
}

fn stage_of(app: &App, path: &str) -> StageState {
    app.entries
        .iter()
        .find(|e| e.path == path)
        .unwrap_or_else(|| panic!("no entry for {path}"))
        .stage
}

/// A repo with `src/a.rs`, `src/deep/b.rs` and `other.rs` all untracked.
fn folder_repo(name: &str) -> Git {
    let mut t = fixture(name);
    t.write("src/a.rs", "a\n");
    t.write("src/deep/b.rs", "b\n");
    t.write("other.rs", "o\n");
    t
}

// ---- folder staging --------------------------------------------------------

#[test]
fn stage_on_a_folder_row_stages_everything_under_it() {
    let mut t = folder_repo("folder-stage");
    let mut app = app_for(&mut t);

    select_dir(&mut app, "src/", Section::Changes);
    press(&mut t, &mut app, "s");

    assert_eq!(stage_of(&app, "src/a.rs"), StageState::Staged);
    assert_eq!(stage_of(&app, "src/deep/b.rs"), StageState::Staged);
    // the sibling outside the folder never moved
    assert_eq!(stage_of(&app, "other.rs"), StageState::Untracked);
}

#[test]
fn stage_on_a_nested_folder_row_stops_at_that_subtree() {
    let mut t = folder_repo("folder-stage-nested");
    let mut app = app_for(&mut t);

    select_dir(&mut app, "src/deep/", Section::Changes);
    press(&mut t, &mut app, "s");

    assert_eq!(stage_of(&app, "src/deep/b.rs"), StageState::Staged);
    assert_eq!(stage_of(&app, "src/a.rs"), StageState::Untracked);
}

#[test]
fn stage_on_the_staged_section_folder_row_unstages_it() {
    let mut t = folder_repo("folder-unstage");
    t.add("src");
    let mut app = app_for(&mut t);

    // `s` is section-aware: on the staged side of the tree it unstages.
    select_dir(&mut app, "src/", Section::Staged);
    press(&mut t, &mut app, "s");

    assert_eq!(stage_of(&app, "src/a.rs"), StageState::Untracked);
    assert_eq!(stage_of(&app, "src/deep/b.rs"), StageState::Untracked);
}

#[test]
fn unstage_on_a_folder_row_only_touches_the_staged_side() {
    let mut t = fixture("folder-unstage-mixed");
    t.write("src/staged.rs", "s\n");
    t.write("src/loose.rs", "l\n");
    t.add("src/staged.rs");
    let mut app = app_for(&mut t);

    select_dir(&mut app, "src/", Section::Staged);
    press(&mut t, &mut app, "u");

    assert_eq!(stage_of(&app, "src/staged.rs"), StageState::Untracked);
    assert_eq!(stage_of(&app, "src/loose.rs"), StageState::Untracked);
}

#[test]
fn discard_on_a_folder_row_confirms_then_removes_the_subtree() {
    let mut t = folder_repo("folder-discard");
    let mut app = app_for(&mut t);

    select_dir(&mut app, "src/", Section::Changes);
    press(&mut t, &mut app, "x");
    assert!(app.modal.is_some(), "discard must ask first");

    press(&mut t, &mut app, "y"); // confirm

    assert!(!t.has_file("src/a.rs"));
    assert!(!t.has_file("src/deep/b.rs"));
    assert!(t.has_file("other.rs"), "sibling survives");
}

#[test]
fn discard_on_a_folder_row_can_be_cancelled() {
    let mut t = folder_repo("folder-discard-cancel");
    let mut app = app_for(&mut t);

    select_dir(&mut app, "src/", Section::Changes);
    press(&mut t, &mut app, "x");
    press(&mut t, &mut app, "n"); // decline

    assert!(t.has_file("src/a.rs"));
    assert!(t.has_file("src/deep/b.rs"));
}

#[test]
fn folder_actions_are_refused_in_branch_scope() {
    let mut t = fixture("folder-branch-scope");
    // Commit the folder on a feature branch so branch scope actually has
    // something to show (diff vs the merge base with main).
    t.new_branch("feature");
    t.write("src/a.rs", "a\n");
    t.write("src/deep/b.rs", "b\n");
    t.add(".");
    t.commit("files");
    let mut app = app_for(&mut t);

    press(&mut t, &mut app, "w"); // -> branch scope
    assert_eq!(app.scope, Scope::Branch);
    // Branch scope is one unsectioned tree.
    select_dir(&mut app, "src/", Section::Flat);
    press(&mut t, &mut app, "s");

    assert!(
        app.active_status(app.now).unwrap().contains("working-tree scope"),
        "got: {:?}",
        app.active_status(app.now)
    );
}

/// Regression: "merge conflicts" and "changes" are both unstaged sections, so
/// a `Dir { staged: bool }` row could not tell them apart — two identical
/// `("src/", false)` rows. Acting on the conflicts one reached into changes
/// and staged (or offered to discard) a file the user could not even see
/// under that row.
#[test]
fn a_folder_row_never_reaches_into_another_section() {
    let mut t = fixture("folder-section-isolation");
    t.write("src/a.rs", "base\n");
    t.write("src/b.rs", "base\n");
    t.add(".");
    t.commit("base");
    t.new_branch("feature");
    t.write("src/a.rs", "feature\n");
    t.commit_all("f");
    t.checkout("main");
    t.write("src/a.rs", "main\n");
    t.commit_all("m");
    t.conflicts.insert("src/a.rs".to_string()); // leaves src/a.rs conflicted
    t.write("src/b.rs", "modified\n"); // ...and src/b.rs merely modified

    let mut app = app_for(&mut t);
    // Both sections render a `src/` folder row; they must be distinguishable.
    let sections: Vec<Section> = app
        .rows
        .iter()
        .filter_map(|row| match row {
            ListRow::Dir { path, section, .. } if path == "src/" => Some(*section),
            _ => None,
        })
        .collect();
    assert_eq!(sections, vec![Section::Conflicts, Section::Changes]);

    // `s` on the conflicts folder is refused, and touches nothing.
    select_dir(&mut app, "src/", Section::Conflicts);
    press(&mut t, &mut app, "s");
    assert!(
        app.active_status(app.now).unwrap().contains("conflict"),
        "got: {:?}",
        app.active_status(app.now)
    );
    assert_eq!(stage_of(&app, "src/b.rs"), StageState::Unstaged);

    // `x` on it is refused too, rather than offering to discard src/b.rs.
    press(&mut t, &mut app, "x");
    assert!(app.modal.is_none(), "must not open a discard confirm");
    assert_eq!(stage_of(&app, "src/b.rs"), StageState::Unstaged);

    // The changes folder still works, and only on its own section.
    select_dir(&mut app, "src/", Section::Changes);
    press(&mut t, &mut app, "s");
    assert_eq!(stage_of(&app, "src/b.rs"), StageState::Staged);
}

/// A folder path is prefix-matched, so a sibling sharing its prefix must not
/// be swept in: `src/` and `src-old/` are different folders.
#[test]
fn a_folder_row_does_not_match_a_prefix_sibling() {
    let mut t = fixture("folder-prefix-sibling");
    t.write("src/a.rs", "a\n");
    t.write("src-old/b.rs", "b\n");
    let mut app = app_for(&mut t);

    select_dir(&mut app, "src/", Section::Changes);
    press(&mut t, &mut app, "s");
    assert_eq!(stage_of(&app, "src/a.rs"), StageState::Staged);
    assert_eq!(stage_of(&app, "src-old/b.rs"), StageState::Untracked);
}

// ---- branch-scoped log -----------------------------------------------------

/// `main` gets an extra commit, then `feature` adds two of its own.
fn branch_repo(name: &str) -> Git {
    let mut t = fixture(name);
    t.write("base.txt", "main2\n");
    t.commit_all("main second");
    t.new_branch("feature");
    t.write("f1.txt", "a\n");
    t.add(".");
    t.commit("feature one");
    t.write("f2.txt", "b\n");
    t.add(".");
    t.commit("feature two");
    t
}

fn subjects(app: &App) -> Vec<String> {
    app.commits.iter().map(|c| c.subject.clone()).collect()
}

#[test]
fn w_in_the_log_view_filters_to_this_branchs_commits() {
    let mut t = branch_repo("log-toggle");
    let mut app = app_for(&mut t);

    press(&mut t, &mut app, "l");
    assert_eq!(app.mode, Mode::Log);
    assert!(!app.log_branch_only);
    assert_eq!(subjects(&app).len(), 4);

    press(&mut t, &mut app, "w");
    assert!(app.log_branch_only);
    assert_eq!(subjects(&app), vec!["feature two", "feature one"]);

    press(&mut t, &mut app, "w"); // back to everything
    assert!(!app.log_branch_only);
    assert_eq!(subjects(&app).len(), 4);
}

#[test]
fn entering_the_log_from_branch_scope_starts_filtered() {
    let mut t = branch_repo("log-from-branch-scope");
    let mut app = app_for(&mut t);

    press(&mut t, &mut app, "w"); // worktree -> branch scope
    assert_eq!(app.scope, Scope::Branch);
    press(&mut t, &mut app, "l");

    assert_eq!(app.mode, Mode::Log);
    assert!(
        app.log_branch_only,
        "branch scope should carry into the log"
    );
    assert_eq!(subjects(&app), vec!["feature two", "feature one"]);
}

#[test]
fn filtered_log_still_opens_a_commits_files() {
    let mut t = branch_repo("log-filtered-open");
    let mut app = app_for(&mut t);

    press(&mut t, &mut app, "l");
    press(&mut t, &mut app, "w");
    open_commit(&mut t, &mut app);

    assert_eq!(app.mode, Mode::CommitFiles);
    assert_eq!(
        app.entries
            .iter()
            .map(|e| e.path.clone())
            .collect::<Vec<_>>(),
        vec!["f2.txt"]
    );
}

#[test]
fn filtering_the_log_on_the_base_branch_yields_nothing() {
    let mut t = fixture("log-filter-on-base");
    let mut app = app_for(&mut t);

    press(&mut t, &mut app, "l");
    press(&mut t, &mut app, "w");

    assert!(app.log_branch_only);
    assert!(app.commits.is_empty());

    // and it is reversible — no dead end
    press(&mut t, &mut app, "w");
    assert_eq!(subjects(&app), vec!["base"]);
}

#[test]
fn leaving_the_log_returns_to_the_file_list() {
    let mut t = branch_repo("log-leave");
    let mut app = app_for(&mut t);

    press(&mut t, &mut app, "l");
    press(&mut t, &mut app, "w");
    press(&mut t, &mut app, "q");

    assert_eq!(app.mode, Mode::Files);
    assert_ne!(app.scope, Scope::Branch, "the log filter is not the scope");
}
