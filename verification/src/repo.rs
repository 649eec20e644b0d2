//! The repository: the git commands that the viewer runs, and what their
//! answers mean.
use crate::git::{
    count_entry, counted, ended_by, entries_view, law_sorting_permutes, lemma_entries_push, lossy,
    lossy_text, merge_stats, merged, name_status, numstat, opt_bytes, parse_name_status,
    parse_numstat, parse_porcelain_v2, porcelain, result_view, sort_entries, sorted_entries,
    stats_view, untracked_counts, untracked_stats, ChangeKind, CommitInfo, CommitView, EntryView,
    FileEntry, ParseError, Scope, StageState, Stat, Stats,
};
use crate::path::Part;
use crate::text::{
    append, arg, copy, dec, decimal, lemma_strs_push, no_args, opt_str, push_all, split,
    split_at_char, starts_with, strip_prefix, strs, trim, trim_start, trimmed,
    without_leading_space,
};
use vstd::prelude::*;

verus! {

broadcast use {vstd::string::group_string_axioms, lemma_strs_push, lemma_entries_push};

/// What a finished command left behind.
#[derive(Debug)]
pub struct Output {
    /// The exit code; `None` when a signal ended the command.
    pub code: Option<i32>,
    pub stdout: Vec<u8>,
    pub stderr: Vec<u8>,
}

impl Output {
    pub open spec fn ok(self) -> bool {
        self.code == Some(0i32)
    }

    /// Whether the command exited with zero.
    pub fn success(&self) -> (r: bool)
        ensures
            r == self.ok(),
    {
        match self.code {
            Some(c) => c == 0,
            None => false,
        }
    }
}

/// The repository at `root`.
#[derive(Debug)]
pub struct Repo {
    pub root: String,
}

/// A command to run in the repository: git's arguments, and whether exit code
/// 1 is an answer ("differences found") rather than a failure.
#[derive(Debug)]
pub struct GitCommand {
    pub args: Vec<String>,
    pub tristate: bool,
}

// ---- where the probe for the base branch stands ----------------------------

/// The next question on the way to the base branch, or the answer.
#[derive(Debug)]
pub enum BaseProbe {
    /// Ask for `refs/remotes/origin/HEAD`.
    Origin,
    /// Ask whether candidate `n` exists.
    Candidate(usize),
    Found(String),
}

pub enum BaseProbeView {
    Origin,
    Candidate(int),
    Found(Seq<char>),
}

impl View for BaseProbe {
    type V = BaseProbeView;

    open spec fn view(&self) -> BaseProbeView {
        match self {
            BaseProbe::Origin => BaseProbeView::Origin,
            BaseProbe::Candidate(n) => BaseProbeView::Candidate(*n as int),
            BaseProbe::Found(s) => BaseProbeView::Found(s@),
        }
    }
}

/// Branches that may be the base, in order.
pub open spec fn base_candidates() -> Seq<Seq<char>> {
    seq!["origin/main"@, "origin/master"@, "main"@, "master"@]
}

/// The probe after git's answer to the question `at`: `None` stands for a git
/// that could not be started.
pub open spec fn next_probe(at: BaseProbeView, ok: bool, text: Seq<char>) -> BaseProbeView {
    match at {
        BaseProbeView::Origin => {
            if ok && starts_with(trim(text), "refs/remotes/"@) {
                BaseProbeView::Found(trim(text).skip("refs/remotes/"@.len() as int))
            } else {
                BaseProbeView::Candidate(0)
            }
        },
        BaseProbeView::Candidate(n) => {
            if ok && 0 <= n < base_candidates().len() {
                BaseProbeView::Found(base_candidates()[n])
            } else if 0 <= n < base_candidates().len() - 1 {
                BaseProbeView::Candidate(n + 1)
            } else {
                BaseProbeView::Found("HEAD"@)
            }
        },
        BaseProbeView::Found(s) => BaseProbeView::Found(s),
    }
}

fn base_candidate(n: usize) -> (r: Option<String>)
    ensures
        opt_str(r) == if n < base_candidates().len() {
            Some(base_candidates()[n as int])
        } else {
            None
        },
{
    if n == 0 {
        Some(copy("origin/main"))
    } else if n == 1 {
        Some(copy("origin/master"))
    } else if n == 2 {
        Some(copy("main"))
    } else if n == 3 {
        Some(copy("master"))
    } else {
        None
    }
}

/// Answering the probe's questions until it has found a base, `fuel` at most.
pub open spec fn run_probe(
    at: BaseProbeView,
    origin: (bool, Seq<char>),
    exists_at: spec_fn(int) -> bool,
    fuel: nat,
) -> BaseProbeView
    decreases fuel,
{
    if fuel == 0 {
        at
    } else {
        match at {
            BaseProbeView::Origin => run_probe(
                next_probe(at, origin.0, origin.1),
                origin,
                exists_at,
                (fuel - 1) as nat,
            ),
            BaseProbeView::Candidate(n) => run_probe(
                next_probe(at, exists_at(n), Seq::empty()),
                origin,
                exists_at,
                (fuel - 1) as nat,
            ),
            BaseProbeView::Found(_) => at,
        }
    }
}

/// The probe ends within five questions. It finds origin's head where there
/// is one, else the first candidate that exists, else `HEAD`.
pub proof fn law_the_base_probe_ends(origin: (bool, Seq<char>), exists_at: spec_fn(int) -> bool)
    ensures
        ({
            let end = run_probe(BaseProbeView::Origin, origin, exists_at, 5);
            let t = trim(origin.1);
            if origin.0 && starts_with(t, "refs/remotes/"@) {
                end == BaseProbeView::Found(t.skip("refs/remotes/"@.len() as int))
            } else if exists_at(0) {
                end == BaseProbeView::Found("origin/main"@)
            } else if exists_at(1) {
                end == BaseProbeView::Found("origin/master"@)
            } else if exists_at(2) {
                end == BaseProbeView::Found("main"@)
            } else if exists_at(3) {
                end == BaseProbeView::Found("master"@)
            } else {
                end == BaseProbeView::Found("HEAD"@)
            }
        }),
{
    reveal_with_fuel(run_probe, 6);
}

// ---- reading git's answers -------------------------------------------------

/// The bytes of `out` that stand for one commit's records: `git diff-tree`
/// puts the commit's id in front, which is the first NUL-terminated field when
/// no tab is among the first forty bytes.
pub open spec fn body(raw: Seq<u8>) -> Seq<u8> {
    let i = first_nul(raw, 0);
    if i < raw.len() && raw.len() >= 40 && !raw.take(40).contains(9u8) {
        raw.skip(i + 1)
    } else {
        raw
    }
}

pub open spec fn first_nul(raw: Seq<u8>, from: int) -> int
    decreases raw.len() - from,
{
    if from < 0 || from >= raw.len() || raw[from] == 0 {
        from
    } else {
        first_nul(raw, from + 1)
    }
}

fn body_of(raw: &[u8]) -> (r: Vec<u8>)
    ensures
        r@ == body(raw@),
{
    let mut i: usize = 0;
    while i < raw.len() && raw[i] != 0
        invariant
            i <= raw@.len(),
            first_nul(raw@, i as int) == first_nul(raw@, 0),
        decreases raw@.len() - i,
    {
        i += 1;
    }
    let mut start: usize = 0;
    if i < raw.len() && raw.len() >= 40 {
        let mut tab = false;
        let mut k: usize = 0;
        while k < 40
            invariant
                k <= 40,
                raw@.len() >= 40,
                tab == exists|j: int| 0 <= j < k && #[trigger] raw@[j] == 9,
            decreases 40 - k,
        {
            if raw[k] == 9 {
                tab = true;
            }
            k += 1;
        }
        proof {
            let head = raw@.take(40);
            if tab {
                let j = choose|j: int| 0 <= j < 40 && #[trigger] raw@[j] == 9;
                assert(head[j] == 9);
                assert(head.contains(9u8));
            }
            if head.contains(9u8) {
                let j = choose|j: int| 0 <= j < head.len() && head[j] == 9;
                assert(raw@[j] == 9);
            }
        }
        if !tab {
            start = i + 1;
        }
    }
    let mut out: Vec<u8> = Vec::new();
    let mut k: usize = start;
    while k < raw.len()
        invariant
            start <= k <= raw@.len(),
            out@ == raw@.subrange(start as int, k as int),
        decreases raw@.len() - k,
    {
        out.push(raw[k]);
        k += 1;
        assert(raw@.subrange(start as int, k as int).drop_last() =~= raw@.subrange(
            start as int,
            k - 1,
        ));
    }
    assert(out@ =~= raw@.skip(start as int));
    assert(raw@.skip(0) =~= raw@);
    out
}

/// The NUL-separated fields of `git diff` for a list of names.
pub open spec fn nul_fields(raw: Seq<u8>) -> Seq<Seq<char>> {
    split(lossy_text(raw), '\0')
}

/// Entries with the counts of their paths, in order.
pub open spec fn counted_entries(
    entries: Result<Seq<EntryView>, ParseError>,
    stats: Seq<(Seq<char>, Stat)>,
) -> Result<Seq<EntryView>, ParseError> {
    match entries {
        Err(e) => Err(e),
        Ok(list) => match merged(Map::empty(), stats, stats.len() as int) {
            Err(e) => Err(e),
            Ok(sums) => Ok(sorted_entries(list.map_values(|e: EntryView| counted(e, sums)))),
        },
    }
}

/// One entry of the working tree: an untracked file's lines are counted from
/// its content, any other's come from the sums.
pub open spec fn worktree_entry(
    e: EntryView,
    sums: Map<Seq<Part>, Stat>,
    content: Option<Seq<u8>>,
) -> EntryView {
    if e.kind == ChangeKind::Untracked {
        EntryView { adds: untracked_counts(content).0, dels: untracked_counts(content).1, ..e }
    } else {
        counted(e, sums)
    }
}

/// The content of the file of entry `i`, where it was read.
pub open spec fn content_at(contents: Seq<Option<Vec<u8>>>, i: int) -> Option<Seq<u8>> {
    if 0 <= i < contents.len() {
        opt_bytes(contents[i])
    } else {
        None
    }
}

/// The working tree's entries, in order.
pub open spec fn worktree_entries(
    entries: Result<Seq<EntryView>, ParseError>,
    stats: Seq<(Seq<char>, Stat)>,
    contents: Seq<Option<Vec<u8>>>,
) -> Result<Seq<EntryView>, ParseError> {
    match entries {
        Err(e) => Err(e),
        Ok(list) => match merged(Map::empty(), stats, stats.len() as int) {
            Err(e) => Err(e),
            Ok(sums) => Ok(
                sorted_entries(
                    Seq::new(
                        list.len(),
                        |i: int| worktree_entry(list[i], sums, content_at(contents, i)),
                    ),
                ),
            ),
        },
    }
}

/// `entries` with the sums of `stats`, in order.
fn count_and_sort(
    entries: Result<Vec<FileEntry>, ParseError>,
    stats: &Vec<(String, Stat)>,
) -> (r: Result<Vec<FileEntry>, ParseError>)
    ensures
        result_view(r) == counted_entries(result_view(entries), stats_view(stats@)),
{
    let mut list = match entries {
        Ok(v) => v,
        Err(e) => {
            return Err(e);
        },
    };
    let mut sums = Stats::new();
    match merge_stats(&mut sums, stats) {
        Ok(_) => {},
        Err(e) => {
            return Err(e);
        },
    }
    let ghost before = entries_view(list@);
    let ghost want = before.map_values(|e: EntryView| counted(e, sums@));
    let mut i: usize = 0;
    while i < list.len()
        invariant
            i <= list@.len(),
            list@.len() == before.len(),
            want == before.map_values(|e: EntryView| counted(e, sums@)),
            forall|k: int| 0 <= k < i ==> (#[trigger] list@[k])@ == want[k],
            forall|k: int| i <= k < list@.len() ==> (#[trigger] list@[k])@ == before[k],
        decreases list@.len() - i,
    {
        let mut e = list[i].clone();
        count_entry(&mut e, &sums);
        list.set(i, e);
        i += 1;
    }
    assert(entries_view(list@) =~= want);
    sort_entries(&mut list);
    Ok(list)
}

proof fn lemma_stats_concat(a: Seq<(String, Stat)>, b: Seq<(String, Stat)>)
    ensures
        stats_view(a + b) == stats_view(a) + stats_view(b),
{
    assert(stats_view(a + b) =~= stats_view(a) + stats_view(b));
}

/// The arguments that list the newest commits, of a range where one is given.
pub open spec fn log_args(limit: nat, range: Option<Seq<char>>) -> Seq<Seq<char>> {
    seq![
        "log"@,
        "--format=%H%x00%h%x00%an%x00%ad%x00%s%x00"@,
        "--date=short"@,
        "-n"@,
        dec(limit),
    ] + (match range {
        Some(s) => seq![s],
        None => seq![],
    })
}

/// The entries of `git log`, five fields each, until one has no id.
pub open spec fn commits(fields: Seq<Seq<char>>, i: int) -> Seq<CommitView>
    decreases fields.len() - i,
{
    if i < 0 || i + 5 > fields.len() || trim_start(fields[i]).len() == 0 {
        Seq::empty()
    } else {
        seq![
            CommitView {
                // behind the line feed that ends the record before it
                sha: trim_start(fields[i]),
                short: fields[i + 1],
                author: fields[i + 2],
                date: fields[i + 3],
                subject: fields[i + 4],
            },
        ] + commits(fields, i + 5)
    }
}

pub open spec fn commits_view(s: Seq<CommitInfo>) -> Seq<CommitView> {
    s.map_values(|c: CommitInfo| c@)
}

/// The commits of the text of `git log`.
pub fn parse_log_text(text: &str) -> (r: Vec<CommitInfo>)
    ensures
        commits_view(r@) == commits(split(text@, '\0'), 0),
{
    let fields = split_at_char(text, '\0');
    let ghost all = strs(fields@);
    let mut out: Vec<CommitInfo> = Vec::new();
    let mut i: usize = 0;
    assert(commits_view(out@) + commits(all, 0) =~= commits(all, 0));
    while fields.len() - i >= 5
        invariant
            i <= fields@.len(),
            all == strs(fields@),
            all == split(text@, '\0'),
            commits_view(out@) + commits(all, i as int) == commits(all, 0),
        decreases fields@.len() - i,
    {
        let ghost at = i as int;
        let ghost done = commits_view(out@);
        proof {
            assert(all[at] == fields@[at]@);
            assert(all[at + 1] == fields@[at + 1]@);
            assert(all[at + 2] == fields@[at + 2]@);
            assert(all[at + 3] == fields@[at + 3]@);
            assert(all[at + 4] == fields@[at + 4]@);
        }
        let sha = without_leading_space(fields[i].as_str());
        if sha.as_str().is_empty() {
            assert(done + Seq::<CommitView>::empty() =~= done);
            return out;
        }
        let c = CommitInfo {
            sha,
            short: copy(fields[i + 1].as_str()),
            author: copy(fields[i + 2].as_str()),
            date: copy(fields[i + 3].as_str()),
            subject: copy(fields[i + 4].as_str()),
        };
        let ghost before = out@;
        out.push(c);
        i += 5;
        proof {
            assert(commits(all, at) == seq![c@] + commits(all, i as int));
            assert(done + (seq![c@] + commits(all, i as int)) =~= done.push(c@) + commits(
                all,
                i as int,
            ));
            assert(commits_view(out@) =~= done.push(c@));
        }
    }
    assert(commits_view(out@) + Seq::<CommitView>::empty() =~= commits_view(out@));
    out
}

/// Runs of bytes between the NULs of `raw[..n]`: the non-empty fields.
pub open spec fn nonempty_fields(raw: Seq<u8>, n: int) -> nat
    decreases n,
{
    if n <= 0 {
        0
    } else {
        nonempty_fields(raw, n - 1) + if raw[n - 1] != 0 && (n == 1 || raw[n - 2] == 0) {
            1nat
        } else {
            0
        }
    }
}

/// One step of the 64-bit FNV-1a hash.
pub open spec fn fnv_step(hash: u64, byte: u8) -> u64 {
    (hash ^ (byte as u64)).wrapping_mul(0x0000_0100_0000_01b3)
}

/// The 64-bit FNV-1a hash of `raw[..n]`.
pub open spec fn fnv(raw: Seq<u8>, n: int) -> u64
    decreases n,
{
    if n <= 0 {
        0xcbf2_9ce4_8422_2325
    } else {
        fnv_step(fnv(raw, n - 1), raw[n - 1])
    }
}

/// The arguments that force colour and no pager in front of a subcommand.
pub open spec fn plain_color() -> Seq<Seq<char>> {
    seq!["-c"@, "color.diff=always"@, "-c"@, "core.pager=cat"@]
}

/// The original path, if there is one, then the path.
pub open spec fn both_paths(e: EntryView) -> Seq<Seq<char>> {
    match e.orig_path {
        Some(orig) => seq![orig, e.path],
        None => seq![e.path],
    }
}

/// The diff of an untracked file is against an empty one.
pub open spec fn diffs_untracked(e: EntryView, scope: Scope, commit: Option<Seq<char>>) -> bool {
    commit is None && scope == Scope::Worktree && e.kind == ChangeKind::Untracked
}

/// The arguments of the coloured diff of one entry.
///
/// - of a commit: `show`, which handles root commits;
/// - untracked: `diff --no-index -- /dev/null <path>`;
/// - worktree: `diff -- <path>`, with `--cached` for the staged view;
/// - branch: `diff -M <merge base> -- <paths>`.
pub open spec fn diff_args(
    e: EntryView,
    scope: Scope,
    cached: bool,
    commit: Option<Seq<char>>,
    merge_base: Seq<char>,
) -> Seq<Seq<char>> {
    match commit {
        Some(sha) => plain_color() + seq![
            "show"@,
            "--color=always"@,
            "--no-ext-diff"@,
            "--format="@,
            "-M"@,
            sha,
            "--"@,
        ] + both_paths(e),
        None => {
            let head = plain_color() + seq!["diff"@, "--color=always"@, "--no-ext-diff"@];
            if diffs_untracked(e, scope, commit) {
                head + seq!["--no-index"@, "--"@, "/dev/null"@, e.path]
            } else if scope == Scope::Worktree {
                head + (if cached {
                    seq!["--cached"@]
                } else {
                    seq![]
                }) + seq!["--"@, e.path]
            } else {
                head + seq!["-M"@, merge_base, "--"@] + both_paths(e)
            }
        },
    }
}

/// The commands that throw away all changes of an entry, in order; `None` for
/// a conflicted one, which has to be resolved first.
pub open spec fn discard_plan(e: EntryView) -> Option<Seq<Seq<Seq<char>>>> {
    let clean = seq!["clean"@, "-f"@, "--"@, e.path];
    let restore = seq!["restore"@, "--"@, e.path];
    if e.kind == ChangeKind::Conflicted {
        None
    } else if e.kind == ChangeKind::Untracked {
        Some(seq![clean])
    } else if e.kind == ChangeKind::Renamed {
        let orig = match e.orig_path {
            Some(p) => p,
            None => e.path,
        };
        Some(
            seq![
                seq!["restore"@, "--staged"@, "--"@, orig, e.path],
                seq!["restore"@, "--"@, orig],
                clean,
            ],
        )
    } else if e.stage == StageState::Unstaged {
        Some(seq![restore])
    } else {
        Some(
            seq![
                seq!["restore"@, "--staged"@, "--"@, e.path],
                if e.kind == ChangeKind::Added {
                    clean
                } else {
                    restore
                },
            ],
        )
    }
}

/// The arguments that stage paths.
pub open spec fn stage_args(paths: Seq<Seq<char>>) -> Seq<Seq<char>> {
    seq!["add"@, "--"@] + paths
}

/// The arguments that take paths out of the index.
pub open spec fn unstage_args(paths: Seq<Seq<char>>) -> Seq<Seq<char>> {
    seq!["restore"@, "--staged"@, "--"@] + paths
}

/// What refuses to discard a conflicted entry.
pub open spec fn conflict_text() -> Seq<char> {
    "resolve the conflict in the editor first"@
}

/// A list of argument lists.
pub open spec fn plans(v: Seq<Vec<String>>) -> Seq<Seq<Seq<char>>> {
    v.map_values(|a: Vec<String>| strs(a@))
}

fn color_head() -> (r: Vec<String>)
    ensures
        strs(r@) == plain_color(),
{
    let mut v = no_args();
    arg(&mut v, "-c");
    arg(&mut v, "color.diff=always");
    arg(&mut v, "-c");
    arg(&mut v, "core.pager=cat");
    v
}

fn push_both(v: &mut Vec<String>, e: &FileEntry)
    ensures
        strs(final(v)@) == strs(old(v)@) + both_paths(e@),
{
    let ghost before = strs(v@);
    match &e.orig_path {
        Some(orig) => {
            arg(v, orig.as_str());
            arg(v, e.path.as_str());
        },
        None => {
            arg(v, e.path.as_str());
        },
    }
    assert(strs(v@) =~= before + both_paths(e@));
}

fn clean_args(path: &str) -> (r: Vec<String>)
    ensures
        strs(r@) == seq!["clean"@, "-f"@, "--"@, path@],
{
    let mut v = no_args();
    arg(&mut v, "clean");
    arg(&mut v, "-f");
    arg(&mut v, "--");
    arg(&mut v, path);
    v
}

fn restore_args(path: &str) -> (r: Vec<String>)
    ensures
        strs(r@) == seq!["restore"@, "--"@, path@],
{
    let mut v = no_args();
    arg(&mut v, "restore");
    arg(&mut v, "--");
    arg(&mut v, path);
    v
}

impl Repo {
    // ---- running git ------------------------------------------------------

    /// All arguments of a command in this repository: `-C <root>` first.
    pub fn command(&self, args: &Vec<String>) -> (r: Vec<String>)
        ensures
            strs(r@) == seq!["-C"@, self.root@] + strs(args@),
    {
        let mut v = no_args();
        arg(&mut v, "-C");
        arg(&mut v, self.root.as_str());
        let mut i: usize = 0;
        assert(strs(v@) =~= seq!["-C"@, self.root@] + strs(args@).take(0));
        while i < args.len()
            invariant
                i <= args@.len(),
                strs(v@) == seq!["-C"@, self.root@] + strs(args@).take(i as int),
            decreases args@.len() - i,
        {
            proof {
                assert(strs(args@).take(i + 1) =~= strs(args@).take(i as int).push(
                    args@[i as int]@,
                ));
                assert((seq!["-C"@, self.root@] + strs(args@).take(i as int)).push(
                    args@[i as int]@,
                ) =~= seq!["-C"@, self.root@] + strs(args@).take(i + 1));
            }
            arg(&mut v, args[i].as_str());
            i += 1;
        }
        assert(strs(args@).take(i as int) =~= strs(args@));
        v
    }

    /// What a command answered: its output, or what it wrote to stderr when it
    /// failed. Exit code 1 counts as an answer when `tristate` is set.
    pub fn answer(out: &Output, tristate: bool) -> (r: Result<Vec<u8>, String>)
        ensures
            r is Ok <==> out.ok() || (tristate && out.code == Some(1i32)),
            r is Ok ==> r->Ok_0@ == out.stdout@,
            r is Err ==> r->Err_0@ == trim(lossy_text(out.stderr@)),
    {
        let accepted = match out.code {
            Some(c) => c == 0 || (tristate && c == 1),
            None => false,
        };
        if accepted {
            Ok(out.stdout.clone())
        } else {
            let text = lossy(out.stderr.as_slice());
            Err(trimmed(text.as_str()))
        }
    }

    pub fn discover_args() -> (r: Vec<String>)
        ensures
            strs(r@) == seq!["rev-parse"@, "--show-toplevel"@],
    {
        let mut v = no_args();
        arg(&mut v, "rev-parse");
        arg(&mut v, "--show-toplevel");
        v
    }

    /// The repository that holds the directory git was asked in; `None` when
    /// it is not inside one.
    pub fn discover(out: &Output) -> (r: Option<Repo>)
        ensures
            r is Some <==> out.ok(),
            r is Some ==> r->0.root@ == trim(lossy_text(out.stdout@)),
    {
        if out.success() {
            let text = lossy(out.stdout.as_slice());
            Some(Repo { root: trimmed(text.as_str()) })
        } else {
            None
        }
    }

    // ---- branch and base --------------------------------------------------

    pub fn head_branch_args() -> (r: Vec<String>)
        ensures
            strs(r@) == seq!["symbolic-ref"@, "--quiet"@, "--short"@, "HEAD"@],
    {
        let mut v = no_args();
        arg(&mut v, "symbolic-ref");
        arg(&mut v, "--quiet");
        arg(&mut v, "--short");
        arg(&mut v, "HEAD");
        v
    }

    /// Current branch name, `None` when detached.
    pub fn head_branch(out: &Output) -> (r: Option<String>)
        ensures
            opt_str(r) == if out.ok() {
                Some(trim(lossy_text(out.stdout@)))
            } else {
                None
            },
    {
        if out.success() {
            let text = lossy(out.stdout.as_slice());
            Some(trimmed(text.as_str()))
        } else {
            None
        }
    }

    /// The question that the probe asks next; none when it has found a base.
    pub fn detect_base_args(at: &BaseProbe) -> (r: Option<Vec<String>>)
        ensures
            match at@ {
                BaseProbeView::Origin => r is Some && strs(r->0@) == seq![
                    "symbolic-ref"@,
                    "refs/remotes/origin/HEAD"@,
                ],
                BaseProbeView::Candidate(n) => if n < base_candidates().len() {
                    r is Some && strs(r->0@) == seq![
                        "rev-parse"@,
                        "--verify"@,
                        "--quiet"@,
                        base_candidates()[n],
                    ]
                } else {
                    r is None
                },
                BaseProbeView::Found(_) => r is None,
            },
    {
        match at {
            BaseProbe::Origin => {
                let mut v = no_args();
                arg(&mut v, "symbolic-ref");
                arg(&mut v, "refs/remotes/origin/HEAD");
                Some(v)
            },
            BaseProbe::Candidate(n) => match base_candidate(*n) {
                Some(name) => {
                    let mut v = no_args();
                    arg(&mut v, "rev-parse");
                    arg(&mut v, "--verify");
                    arg(&mut v, "--quiet");
                    arg(&mut v, name.as_str());
                    Some(v)
                },
                None => None,
            },
            BaseProbe::Found(_) => None,
        }
    }

    /// Base branch for branch scope: origin's head, then `origin/main`,
    /// `origin/master`, `main`, `master`; last resort `HEAD`. One step: the
    /// probe after git's answer (`None`: git could not be started).
    pub fn detect_base(at: BaseProbe, out: &Option<Output>) -> (r: BaseProbe)
        ensures
            r@ == next_probe(
                at@,
                out is Some && out->0.ok(),
                if out is Some {
                    lossy_text(out->0.stdout@)
                } else {
                    Seq::empty()
                },
            ),
    {
        let ok = match out {
            Some(o) => o.success(),
            None => false,
        };
        match at {
            BaseProbe::Origin => {
                if let Some(o) = out {
                    if ok {
                        let text = lossy(o.stdout.as_slice());
                        let name = trimmed(text.as_str());
                        if let Some(rest) = strip_prefix(name.as_str(), "refs/remotes/") {
                            return BaseProbe::Found(rest);
                        }
                    }
                }
                BaseProbe::Candidate(0)
            },
            BaseProbe::Candidate(n) => {
                if ok {
                    if let Some(name) = base_candidate(n) {
                        return BaseProbe::Found(name);
                    }
                }
                if n < 3 {
                    BaseProbe::Candidate(n + 1)
                } else {
                    BaseProbe::Found(copy("HEAD"))
                }
            },
            BaseProbe::Found(s) => BaseProbe::Found(s),
        }
    }

    pub fn merge_base_args(base: &str) -> (r: Vec<String>)
        ensures
            strs(r@) == seq!["merge-base"@, "HEAD"@, base@],
    {
        let mut v = no_args();
        arg(&mut v, "merge-base");
        arg(&mut v, "HEAD");
        arg(&mut v, base);
        v
    }

    /// The commit where the branch left its base.
    pub fn merge_base(stdout: &[u8]) -> (r: String)
        ensures
            r@ == trim(lossy_text(stdout@)),
    {
        let text = lossy(stdout);
        trimmed(text.as_str())
    }

    // ---- worktree status --------------------------------------------------

    pub fn worktree_status_args(show_untracked: bool) -> (r: Vec<String>)
        ensures
            strs(r@) == seq![
                "status"@,
                "--porcelain=v2"@,
                "-z"@,
                if show_untracked {
                    "--untracked-files=all"@
                } else {
                    "--untracked-files=no"@
                },
            ],
    {
        let mut v = no_args();
        arg(&mut v, "status");
        arg(&mut v, "--porcelain=v2");
        arg(&mut v, "-z");
        if show_untracked {
            arg(&mut v, "--untracked-files=all");
        } else {
            arg(&mut v, "--untracked-files=no");
        }
        v
    }

    pub fn numstat_args(cached: bool) -> (r: Vec<String>)
        ensures
            strs(r@) == if cached {
                seq!["diff"@, "--numstat"@, "-z"@, "-M"@, "--cached"@]
            } else {
                seq!["diff"@, "--numstat"@, "-z"@, "-M"@]
            },
    {
        let mut v = no_args();
        arg(&mut v, "diff");
        arg(&mut v, "--numstat");
        arg(&mut v, "-z");
        arg(&mut v, "-M");
        if cached {
            arg(&mut v, "--cached");
        }
        v
    }

    /// The working tree's entries, from git's status, its line counts (of the
    /// worktree and of the index, added up per path) and the contents of the
    /// untracked files: `contents[i]` belongs to the `i`-th entry of the status.
    pub fn worktree_status(
        status: &[u8],
        unstaged: &[u8],
        staged: &[u8],
        contents: &Vec<Option<Vec<u8>>>,
    ) -> (r: Result<Vec<FileEntry>, ParseError>)
        ensures
            result_view(r) == worktree_entries(
                porcelain(nul_fields(status@), 0),
                numstat(nul_fields(unstaged@), 0) + numstat(nul_fields(staged@), 0),
                contents@,
            ),
    {
        let mut list = match parse_porcelain_v2(status) {
            Ok(v) => v,
            Err(e) => {
                return Err(e);
            },
        };
        let mut stats = parse_numstat(unstaged);
        let mut more = parse_numstat(staged);
        proof {
            lemma_stats_concat(stats@, more@);
        }
        stats.append(&mut more);
        let mut sums = Stats::new();
        match merge_stats(&mut sums, &stats) {
            Ok(_) => {},
            Err(e) => {
                return Err(e);
            },
        }
        let ghost before = entries_view(list@);
        let ghost want = Seq::new(
            before.len(),
            |i: int| worktree_entry(before[i], sums@, content_at(contents@, i)),
        );
        let mut i: usize = 0;
        while i < list.len()
            invariant
                i <= list@.len(),
                list@.len() == before.len(),
                want == Seq::new(
                    before.len(),
                    |i: int| worktree_entry(before[i], sums@, content_at(contents@, i)),
                ),
                forall|k: int| 0 <= k < i ==> (#[trigger] list@[k])@ == want[k],
                forall|k: int| i <= k < list@.len() ==> (#[trigger] list@[k])@ == before[k],
            decreases list@.len() - i,
        {
            let mut e = list[i].clone();
            if e.kind == ChangeKind::Untracked {
                let counts = if i < contents.len() {
                    untracked_stats(&contents[i])
                } else {
                    (None, None)
                };
                e.adds = counts.0;
                e.dels = counts.1;
            } else {
                count_entry(&mut e, &sums);
            }
            list.set(i, e);
            i += 1;
        }
        assert(entries_view(list@) =~= want);
        sort_entries(&mut list);
        Ok(list)
    }

    // ---- branch scope -----------------------------------------------------

    pub fn branch_changes_args(merge_base: &str, counts: bool) -> (r: Vec<String>)
        ensures
            strs(r@) == seq![
                "diff"@,
                merge_base@,
                if counts {
                    "--numstat"@
                } else {
                    "--name-status"@
                },
                "-z"@,
                "-M"@,
            ],
    {
        let mut v = no_args();
        arg(&mut v, "diff");
        arg(&mut v, merge_base);
        if counts {
            arg(&mut v, "--numstat");
        } else {
            arg(&mut v, "--name-status");
        }
        arg(&mut v, "-z");
        arg(&mut v, "-M");
        v
    }

    /// The entries that changed since the merge base, from git's names and
    /// line counts.
    pub fn branch_changes(names: &[u8], counts: &[u8]) -> (r: Result<Vec<FileEntry>, ParseError>)
        ensures
            result_view(r) == counted_entries(
                name_status(nul_fields(names@), 0),
                numstat(nul_fields(counts@), 0),
            ),
    {
        let stats = parse_numstat(counts);
        count_and_sort(parse_name_status(names), &stats)
    }

    // ---- diffs ------------------------------------------------------------

    /// The command for the coloured diff of one entry. `commit` shows that
    /// commit's change to the file and ignores `scope` and `cached`;
    /// `merge_base` is used in branch scope only.
    ///
    /// Colour and pager are forced, whatever git's configuration says, so the
    /// output is always coloured and never piped to a pager.
    pub fn diff_ansi(
        e: &FileEntry,
        scope: Scope,
        cached: bool,
        commit: Option<&str>,
        merge_base: &str,
    ) -> (r: GitCommand)
        ensures
            strs(r.args@) == diff_args(
                e@,
                scope,
                cached,
                match commit {
                    Some(sha) => Some(sha@),
                    None => None,
                },
                merge_base@,
            ),
            r.tristate == diffs_untracked(
                e@,
                scope,
                match commit {
                    Some(sha) => Some(sha@),
                    None => None,
                },
            ),
    {
        let mut v = color_head();
        let ghost h = plain_color();
        match commit {
            Some(sha) => {
                arg(&mut v, "show");
                arg(&mut v, "--color=always");
                arg(&mut v, "--no-ext-diff");
                arg(&mut v, "--format=");
                arg(&mut v, "-M");
                arg(&mut v, sha);
                arg(&mut v, "--");
                assert(strs(v@) =~= h + seq![
                    "show"@,
                    "--color=always"@,
                    "--no-ext-diff"@,
                    "--format="@,
                    "-M"@,
                    sha@,
                    "--"@,
                ]);
                push_both(&mut v, e);
                GitCommand { args: v, tristate: false }
            },
            None => {
                arg(&mut v, "diff");
                arg(&mut v, "--color=always");
                arg(&mut v, "--no-ext-diff");
                let ghost head = h + seq!["diff"@, "--color=always"@, "--no-ext-diff"@];
                assert(strs(v@) =~= head);
                let untracked = scope == Scope::Worktree && e.kind == ChangeKind::Untracked;
                if untracked {
                    // An empty file against the untracked one: all lines added.
                    arg(&mut v, "--no-index");
                    arg(&mut v, "--");
                    arg(&mut v, "/dev/null");
                    arg(&mut v, e.path.as_str());
                    assert(strs(v@) =~= head + seq!["--no-index"@, "--"@, "/dev/null"@, e@.path]);
                } else if scope == Scope::Worktree {
                    if cached {
                        arg(&mut v, "--cached");
                        assert(strs(v@) =~= head + seq!["--cached"@]);
                    } else {
                        assert(strs(v@) =~= head + Seq::<Seq<char>>::empty());
                    }
                    let ghost mid = strs(v@);
                    arg(&mut v, "--");
                    arg(&mut v, e.path.as_str());
                    assert(strs(v@) =~= mid + seq!["--"@, e@.path]);
                } else {
                    arg(&mut v, "-M");
                    arg(&mut v, merge_base);
                    arg(&mut v, "--");
                    assert(strs(v@) =~= head + seq!["-M"@, merge_base@, "--"@]);
                    push_both(&mut v, e);
                }
                GitCommand { args: v, tristate: untracked }
            },
        }
    }

    // ---- file content -----------------------------------------------------

    /// The arguments that show a file at `rev`.
    pub fn file_at_args(rev: &str, path: &str) -> (r: Vec<String>)
        ensures
            strs(r@) == seq!["show"@, rev@ + ":"@ + path@],
    {
        let mut v = no_args();
        arg(&mut v, "show");
        let mut spec = copy(rev);
        append(&mut spec, ":");
        append(&mut spec, path);
        arg(&mut v, spec.as_str());
        v
    }

    /// A file's content at a revision, from what `git show` answered; `None`
    /// when the path does not exist there.
    pub fn file_at(out: &Output) -> (r: Option<String>)
        ensures
            opt_str(r) == if out.ok() {
                Some(lossy_text(out.stdout@))
            } else {
                None
            },
    {
        if out.success() {
            Some(lossy(out.stdout.as_slice()))
        } else {
            None
        }
    }

    /// The working-tree content of a file, from its bytes; `None` when missing.
    pub fn file_in_worktree(bytes: &Option<Vec<u8>>) -> (r: Option<String>)
        ensures
            opt_str(r) == match opt_bytes(*bytes) {
                Some(b) => Some(lossy_text(b)),
                None => None,
            },
    {
        match bytes {
            Some(b) => Some(lossy(b.as_slice())),
            None => None,
        }
    }

    // ---- history ----------------------------------------------------------

    /// The arguments for the last `limit` commits; `range` narrows the log,
    /// as `<base>..HEAD` does to the branch's own commits.
    pub fn log_commits_args(limit: usize, range: Option<&str>) -> (r: Vec<String>)
        ensures
            strs(r@) == log_args(
                limit as nat,
                match range {
                    Some(s) => Some(s@),
                    None => None,
                },
            ),
    {
        let mut v = no_args();
        arg(&mut v, "log");
        arg(&mut v, "--format=%H%x00%h%x00%an%x00%ad%x00%s%x00");
        arg(&mut v, "--date=short");
        arg(&mut v, "-n");
        let n = decimal(limit as u64);
        arg(&mut v, n.as_str());
        let ghost head = strs(v@);
        match range {
            Some(s) => {
                arg(&mut v, s);
                assert(strs(v@) =~= head + seq![s@]);
            },
            None => {
                assert(strs(v@) =~= head + Seq::<Seq<char>>::empty());
            },
        }
        v
    }

    /// Recent commits, newest first, from what `git log` printed.
    pub fn log_commits(stdout: &[u8]) -> (r: Vec<CommitInfo>)
        ensures
            commits_view(r@) == commits(nul_fields(stdout@), 0),
    {
        let text = lossy(stdout);
        parse_log_text(text.as_str())
    }

    pub fn commit_files_args(sha: &str, counts: bool) -> (r: Vec<String>)
        ensures
            strs(r@) == seq![
                "diff-tree"@,
                "-r"@,
                "--root"@,
                if counts {
                    "--numstat"@
                } else {
                    "--name-status"@
                },
                "-z"@,
                "-M"@,
                sha@,
            ],
    {
        let mut v = no_args();
        arg(&mut v, "diff-tree");
        arg(&mut v, "-r");
        arg(&mut v, "--root");
        if counts {
            arg(&mut v, "--numstat");
        } else {
            arg(&mut v, "--name-status");
        }
        arg(&mut v, "-z");
        arg(&mut v, "-M");
        arg(&mut v, sha);
        v
    }

    /// Files changed by one commit, from git's names and line counts.
    pub fn commit_files(names: &[u8], counts: &[u8]) -> (r: Result<Vec<FileEntry>, ParseError>)
        ensures
            result_view(r) == counted_entries(
                name_status(nul_fields(body(names@)), 0),
                numstat(nul_fields(body(counts@)), 0),
            ),
    {
        let n = body_of(names);
        let c = body_of(counts);
        let stats = parse_numstat(c.as_slice());
        count_and_sort(parse_name_status(n.as_slice()), &stats)
    }

    // ---- write side -------------------------------------------------------

    /// The arguments that stage a path.
    pub fn stage(p: &str) -> (r: Vec<String>)
        ensures
            strs(r@) == stage_args(seq![p@]),
    {
        let mut v = no_args();
        arg(&mut v, "add");
        arg(&mut v, "--");
        arg(&mut v, p);
        assert(strs(v@) =~= stage_args(seq![p@]));
        v
    }

    /// The arguments that take a path out of the index.
    pub fn unstage(p: &str) -> (r: Vec<String>)
        ensures
            strs(r@) == unstage_args(seq![p@]),
    {
        let mut v = no_args();
        arg(&mut v, "restore");
        arg(&mut v, "--staged");
        arg(&mut v, "--");
        arg(&mut v, p);
        assert(strs(v@) =~= unstage_args(seq![p@]));
        v
    }

    /// The arguments that stage several paths at once.
    pub fn stage_many(paths: &Vec<String>) -> (r: Vec<String>)
        ensures
            strs(r@) == stage_args(strs(paths@)),
    {
        let mut v = no_args();
        arg(&mut v, "add");
        arg(&mut v, "--");
        push_all(&mut v, paths);
        v
    }

    /// The arguments that take several paths out of the index at once.
    pub fn unstage_many(paths: &Vec<String>) -> (r: Vec<String>)
        ensures
            strs(r@) == unstage_args(strs(paths@)),
    {
        let mut v = no_args();
        arg(&mut v, "restore");
        arg(&mut v, "--staged");
        arg(&mut v, "--");
        push_all(&mut v, paths);
        v
    }

    /// The commands that throw away all changes to this entry, in the worktree
    /// and the index, per kind. A conflicted entry is refused.
    pub fn discard(e: &FileEntry) -> (r: Result<Vec<Vec<String>>, String>)
        ensures
            match r {
                Ok(v) => discard_plan(e@) == Some(plans(v@)),
                Err(m) => discard_plan(e@) is None && m@ == conflict_text(),
            },
    {
        let path = e.path.as_str();
        let mut plan: Vec<Vec<String>> = Vec::new();
        match e.kind {
            ChangeKind::Conflicted => {
                return Err(copy("resolve the conflict in the editor first"));
            },
            ChangeKind::Untracked => {
                plan.push(clean_args(path));
                assert(plans(plan@) =~= discard_plan(e@)->0);
            },
            ChangeKind::Renamed => {
                // Unstaging restores the old path in the index; then the old
                // path's content is reset and the new path's remnant swept.
                let orig = match &e.orig_path {
                    Some(p) => copy(p.as_str()),
                    None => copy(path),
                };
                let mut first = no_args();
                arg(&mut first, "restore");
                arg(&mut first, "--staged");
                arg(&mut first, "--");
                arg(&mut first, orig.as_str());
                arg(&mut first, path);
                plan.push(first);
                plan.push(restore_args(orig.as_str()));
                plan.push(clean_args(path));
                proof {
                    let want = discard_plan(e@)->0;
                    assert(plans(plan@)[0] == want[0]);
                    assert(plans(plan@)[1] == want[1]);
                    assert(plans(plan@)[2] == want[2]);
                    assert(plans(plan@) =~= want);
                }
            },
            _ => match e.stage {
                StageState::Unstaged => {
                    plan.push(restore_args(path));
                    assert(plans(plan@) =~= discard_plan(e@)->0);
                },
                _ => {
                    // Staged or partial: revert the index first, then the worktree.
                    plan.push(Repo::unstage(path));
                    // Newly added files have no committed version to restore.
                    if e.kind == ChangeKind::Added {
                        plan.push(clean_args(path));
                    } else {
                        plan.push(restore_args(path));
                    }
                    assert(unstage_args(seq![path@]) =~= seq![
                        "restore"@,
                        "--staged"@,
                        "--"@,
                        path@,
                    ]);
                    assert(plans(plan@) =~= discard_plan(e@)->0);
                },
            },
        }
        Ok(plan)
    }

    pub fn staged_count_args() -> (r: Vec<String>)
        ensures
            strs(r@) == seq!["diff"@, "--cached"@, "--name-only"@, "-z"@],
    {
        let mut v = no_args();
        arg(&mut v, "diff");
        arg(&mut v, "--cached");
        arg(&mut v, "--name-only");
        arg(&mut v, "-z");
        v
    }

    /// Number of files with staged changes, from git's NUL-separated names.
    pub fn staged_count(stdout: &[u8]) -> (r: usize)
        ensures
            r == nonempty_fields(stdout@, stdout@.len() as int),
    {
        let mut n: usize = 0;
        let mut i: usize = 0;
        while i < stdout.len()
            invariant
                i <= stdout@.len(),
                n == nonempty_fields(stdout@, i as int),
                n <= i,
            decreases stdout@.len() - i,
        {
            if stdout[i] != 0 && (i == 0 || stdout[i - 1] == 0) {
                n += 1;
            }
            i += 1;
        }
        n
    }

    pub fn last_commit_summary_args() -> (r: Vec<String>)
        ensures
            strs(r@) == seq!["log"@, "-1"@, "--format=%h %s"@],
    {
        let mut v = no_args();
        arg(&mut v, "log");
        arg(&mut v, "-1");
        arg(&mut v, "--format=%h %s");
        v
    }

    /// Flavour text after a commit: its short id and subject.
    pub fn last_commit_summary(stdout: &[u8]) -> (r: Option<String>)
        ensures
            opt_str(r) == if trim(lossy_text(stdout@)).len() == 0 {
                None
            } else {
                Some(trim(lossy_text(stdout@)))
            },
    {
        let text = lossy(stdout);
        let s = trimmed(text.as_str());
        if s.as_str().is_empty() {
            None
        } else {
            Some(s)
        }
    }

    // ---- change detection -------------------------------------------------

    /// Cheap fingerprint of the working tree's state: a change of it means
    /// that the file list should refresh. FNV-1a over the raw status bytes.
    pub fn fingerprint(status: &[u8]) -> (r: u64)
        ensures
            r == fnv(status@, status@.len() as int),
    {
        let mut hash: u64 = 0xcbf2_9ce4_8422_2325;
        let mut i: usize = 0;
        while i < status.len()
            invariant
                i <= status@.len(),
                hash == fnv(status@, i as int),
            decreases status@.len() - i,
        {
            hash = (hash ^ (status[i] as u64)).wrapping_mul(0x0000_0100_0000_01b3);
            i += 1;
        }
        hash
    }
}

// ---- what is counted and told apart --------------------------------------------

proof fn lemma_fields_within(a: Seq<u8>, b: Seq<u8>, n: int)
    requires
        0 <= n <= a.len(),
        n <= b.len(),
        a.take(n) =~= b.take(n),
    ensures
        nonempty_fields(a, n) == nonempty_fields(b, n),
    decreases n,
{
    if n > 0 {
        assert(a.take(n)[n - 1] == b.take(n)[n - 1]);
        if n > 1 {
            assert(a.take(n)[n - 2] == b.take(n)[n - 2]);
        }
        assert(a.take(n - 1) =~= a.take(n).take(n - 1));
        assert(b.take(n - 1) =~= b.take(n).take(n - 1));
        lemma_fields_within(a, b, n - 1);
    }
}

proof fn lemma_one_field(a: Seq<u8>, from: int, n: int)
    requires
        0 <= from < n <= a.len(),
        from == 0 || a[from - 1] == 0,
        forall|k: int| from <= k < n ==> #[trigger] a[k] != 0,
    ensures
        nonempty_fields(a, n) == nonempty_fields(a, from) + 1,
    decreases n - from,
{
    assert(a[n - 1] != 0);
    if from + 1 < n {
        assert(a[n - 2] != 0);
        lemma_one_field(a, from, n - 1);
    }
}

/// The staged files are counted: one for each name, whatever the names are.
pub proof fn law_every_staged_name_is_counted(names: Seq<Seq<u8>>)
    requires
        forall|i: int|
            0 <= i < names.len() ==> (#[trigger] names[i]).len() > 0 && !names[i].contains(0),
    ensures
        nonempty_fields(ended_by(names, 0), ended_by(names, 0).len() as int) == names.len(),
    decreases names.len(),
{
    if names.len() > 0 {
        let init = names.drop_last();
        let last = names.last();
        assert(last == names[names.len() - 1]);
        assert forall|i: int| 0 <= i < init.len() implies (#[trigger] init[i]).len() > 0
            && !init[i].contains(0) by {
            assert(init[i] == names[i]);
        }
        law_every_staged_name_is_counted(init);
        let head = ended_by(init, 0);
        let whole = ended_by(names, 0);
        let a = head.len() as int;
        let b = a + last.len() as int;
        assert(whole.take(a) =~= head.take(a));
        lemma_fields_within(whole, head, a);
        if a > 0 {
            assert(head.last() == 0) by {
                assert(head =~= ended_by(init.drop_last(), 0) + init.last().push(0));
            }
            assert(whole[a - 1] == head.last());
        }
        assert forall|k: int| a <= k < b implies #[trigger] whole[k] != 0 by {
            assert(whole[k] == last[k - a]);
            assert(last.contains(last[k - a]));
        }
        lemma_one_field(whole, a, b);
        assert(whole[b] == 0);
        assert(whole.len() == b + 1);
    }
}

/// Two entries are of one change, whatever is counted for them.
pub open spec fn same_change(a: EntryView, b: EntryView) -> bool {
    a.path == b.path && a.orig_path == b.orig_path && a.kind == b.kind && a.stage == b.stage
}

proof fn lemma_sorted_holds(s: Seq<EntryView>, i: int)
    requires
        0 <= i < s.len(),
    ensures
        sorted_entries(s).len() == s.len(),
        exists|k: int| 0 <= k < sorted_entries(s).len() && #[trigger] sorted_entries(s)[k] == s[i],
{
    broadcast use vstd::seq_lib::group_to_multiset_ensures;

    law_sorting_permutes(s);
    let t = sorted_entries(s);
    assert(t.to_multiset().len() == s.to_multiset().len());
    assert(s.contains(s[i]));
    assert(s.to_multiset().count(s[i]) > 0);
    assert(t.contains(s[i]));
    let k = choose|k: int| 0 <= k < t.len() && t[k] == s[i];
    assert(t[k] == s[i]);
}

/// A list of changes holds every change that git named, and no other.
pub proof fn law_every_change_is_listed(
    list: Seq<EntryView>,
    stats: Seq<(Seq<char>, Stat)>,
    i: int,
)
    requires
        0 <= i < list.len(),
    ensures
        counted_entries(Ok(list), stats) matches Ok(v) ==> v.len() == list.len() && exists|k: int|
            0 <= k < v.len() && same_change(#[trigger] v[k], list[i]),
{
    let r = counted_entries(Ok(list), stats);
    if r is Ok {
        let sums = merged(Map::empty(), stats, stats.len() as int)->Ok_0;
        let all = list.map_values(|e: EntryView| counted(e, sums));
        let v = r->Ok_0;
        assert(v == sorted_entries(all));
        lemma_sorted_holds(all, i);
        let k = choose|k: int| 0 <= k < v.len() && #[trigger] v[k] == all[i];
        assert(same_change(v[k], list[i]));
    }
}

/// So does the list of the working tree, where an untracked file has the counts
/// of its content.
pub proof fn law_every_worktree_change_is_listed(
    list: Seq<EntryView>,
    stats: Seq<(Seq<char>, Stat)>,
    contents: Seq<Option<Vec<u8>>>,
    i: int,
)
    requires
        0 <= i < list.len() == contents.len(),
    ensures
        worktree_entries(Ok(list), stats, contents) matches Ok(v) ==> v.len() == list.len()
            && exists|k: int|
            0 <= k < v.len() && same_change(#[trigger] v[k], list[i]) && (list[i].kind
                == ChangeKind::Untracked ==> (v[k].adds, v[k].dels) == untracked_counts(
                opt_bytes(contents[i]),
            )),
{
    let r = worktree_entries(Ok(list), stats, contents);
    if r is Ok {
        let sums = merged(Map::empty(), stats, stats.len() as int)->Ok_0;
        let all = Seq::new(
            list.len(),
            |i: int| worktree_entry(list[i], sums, content_at(contents, i)),
        );
        let v = r->Ok_0;
        assert(v == sorted_entries(all));
        lemma_sorted_holds(all, i);
        let k = choose|k: int| 0 <= k < v.len() && #[trigger] v[k] == all[i];
        assert(same_change(v[k], list[i]));
    }
}

proof fn lemma_first_nul(raw: Seq<u8>, from: int, at: int)
    requires
        0 <= from <= at < raw.len(),
        raw[at] == 0,
        forall|k: int| from <= k < at ==> #[trigger] raw[k] != 0,
    ensures
        first_nul(raw, from) == at,
    decreases at - from,
{
    if from < at {
        lemma_first_nul(raw, from + 1, at);
    }
}

/// The id in front of a commit's records is left out, and nothing of them.
pub proof fn law_the_commit_id_is_left_out(id: Seq<u8>, records: Seq<u8>)
    requires
        id.len() >= 40,
        !id.contains(0),
        !id.contains(9),
    ensures
        body(id.push(0) + records) == records,
{
    let raw = id.push(0) + records;
    assert forall|k: int| 0 <= k < id.len() implies #[trigger] raw[k] != 0 by {
        assert(raw[k] == id[k]);
        assert(id.contains(id[k]));
    }
    assert(raw[id.len() as int] == 0);
    lemma_first_nul(raw, 0, id.len() as int);
    let head = raw.take(40);
    assert forall|k: int| 0 <= k < head.len() implies head[k] != 9 by {
        assert(head[k] == id[k]);
        assert(id.contains(id[k]));
    }
    assert(raw.skip(id.len() as int + 1) =~= records);
}

} // verus!
