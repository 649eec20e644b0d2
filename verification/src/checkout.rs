//! What the commands that change a checkout do to it: a model of HEAD, the
//! index and the working tree, and that staging, unstaging and discarding
//! leave it as they should.
use crate::git::{ChangeKind, EntryView, Scope, StageState};
use crate::preview::app::ReqView;
use crate::preview::session::{sources, SourceView};
use crate::repo::{both_paths, diff_args, discard_plan, stage_args, unstage_args};
use vstd::prelude::*;

verus! {

/// What HEAD, the index and the working tree hold: content by path.
#[verifier::ext_equal]
pub struct Checkout {
    pub head: Map<Seq<char>, Seq<u8>>,
    pub index: Map<Seq<char>, Seq<u8>>,
    pub work: Map<Seq<char>, Seq<u8>>,
}

/// `to` with what `from` holds at the paths, also where it holds nothing.
pub open spec fn copied(
    from: Map<Seq<char>, Seq<u8>>,
    to: Map<Seq<char>, Seq<u8>>,
    paths: Seq<Seq<char>>,
) -> Map<Seq<char>, Seq<u8>> {
    Map::new(
        |p: Seq<char>|
            if paths.contains(p) {
                from.contains_key(p)
            } else {
                to.contains_key(p)
            },
        |p: Seq<char>|
            if paths.contains(p) {
                from[p]
            } else {
                to[p]
            },
    )
}

pub open spec fn each_known(
    paths: Seq<Seq<char>>,
    a: Map<Seq<char>, Seq<u8>>,
    b: Map<Seq<char>, Seq<u8>>,
) -> bool {
    forall|i: int|
        0 <= i < paths.len() ==> a.contains_key(#[trigger] paths[i]) || b.contains_key(paths[i])
}

/// What a command of git makes of a checkout; `None` where git refuses it.
///
/// - `add -- <paths>` brings the index to the working tree;
/// - `restore --staged -- <paths>` brings the index to HEAD;
/// - `restore -- <paths>` brings the working tree to the index;
/// - `clean -f -- <paths>` removes files that the index does not know.
///
/// A path that is not known where it is looked up is refused.
pub open spec fn run(command: Seq<Seq<char>>, s: Checkout) -> Option<Checkout> {
    if command.len() >= 2 && command[0] == "add"@ && command[1] == "--"@ {
        let paths = command.skip(2);
        if each_known(paths, s.index, s.work) {
            Some(Checkout { index: copied(s.work, s.index, paths), ..s })
        } else {
            None
        }
    } else if command.len() >= 3 && command[0] == "restore"@ && command[1] == "--staged"@
        && command[2] == "--"@ {
        let paths = command.skip(3);
        if each_known(paths, s.index, s.head) {
            Some(Checkout { index: copied(s.head, s.index, paths), ..s })
        } else {
            None
        }
    } else if command.len() >= 2 && command[0] == "restore"@ && command[1] == "--"@ {
        let paths = command.skip(2);
        if each_known(paths, s.index, s.index) {
            Some(Checkout { work: copied(s.index, s.work, paths), ..s })
        } else {
            None
        }
    } else if command.len() >= 3 && command[0] == "clean"@ && command[1] == "-f"@ && command[2]
        == "--"@ {
        let paths = command.skip(3);
        Some(
            Checkout {
                work: Map::new(
                    |p: Seq<char>|
                        s.work.contains_key(p) && (s.index.contains_key(p) || !paths.contains(p)),
                    |p: Seq<char>| s.work[p],
                ),
                ..s
            },
        )
    } else {
        None
    }
}

/// Commands run one after the other, until one is refused.
pub open spec fn run_all(commands: Seq<Seq<Seq<char>>>, s: Checkout) -> Option<Checkout>
    decreases commands.len(),
{
    if commands.len() == 0 {
        Some(s)
    } else {
        match run(commands[0], s) {
            Some(t) => run_all(commands.drop_first(), t),
            None => None,
        }
    }
}

/// Two of them hold the same at a path, or both nothing.
pub open spec fn agree(
    a: Map<Seq<char>, Seq<u8>>,
    b: Map<Seq<char>, Seq<u8>>,
    p: Seq<char>,
) -> bool {
    &&& a.contains_key(p) <==> b.contains_key(p)
    &&& a.contains_key(p) ==> a[p] == b[p]
}

/// Both checkouts hold the same at every path but these.
pub open spec fn same_elsewhere(s: Checkout, t: Checkout, paths: Seq<Seq<char>>) -> bool {
    &&& s.head == t.head
    &&& forall|p: Seq<char>|
        !paths.contains(p) ==> #[trigger] agree(s.index, t.index, p) && agree(s.work, t.work, p)
}

/// What an entry of `git status` says of the checkout that it was made for.
pub open spec fn describes(e: EntryView, s: Checkout) -> bool {
    match e.kind {
        ChangeKind::Untracked => !s.head.contains_key(e.path) && !s.index.contains_key(e.path),
        ChangeKind::Renamed => {
            &&& e.orig_path is Some
            &&& s.head.contains_key(e.orig_path->0)
            &&& !s.head.contains_key(e.path)
            &&& s.index.contains_key(e.path)
        },
        ChangeKind::Added => {
            &&& !s.head.contains_key(e.path)
            &&& s.index.contains_key(e.path)
            &&& e.stage != StageState::Unstaged
        },
        ChangeKind::Modified | ChangeKind::Deleted => {
            &&& s.head.contains_key(e.path)
            &&& e.stage == StageState::Unstaged ==> agree(s.index, s.head, e.path)
        },
        ChangeKind::Conflicted => true,
    }
}

/// The paths that an entry is about.
pub open spec fn paths_of(e: EntryView) -> Seq<Seq<char>> {
    match e.orig_path {
        Some(orig) => seq![orig, e.path],
        None => seq![e.path],
    }
}

/// The words of the commands differ.
proof fn lemma_words_differ()
    ensures
        "add"@ != "restore"@,
        "add"@ != "clean"@,
        "restore"@ != "clean"@,
        "--"@ != "--staged"@,
        "--"@ != "-f"@,
{
    reveal_strlit("add");
    reveal_strlit("restore");
    reveal_strlit("clean");
    reveal_strlit("--");
    reveal_strlit("--staged");
    reveal_strlit("-f");
    assert("add"@.len() == 3 && "restore"@.len() == 7 && "clean"@.len() == 5);
    assert("--"@.len() == 2 && "--staged"@.len() == 8);
    assert("--"@[1] == '-' && "-f"@[1] == 'f');
}

proof fn lemma_run_unstage(paths: Seq<Seq<char>>, s: Checkout)
    requires
        each_known(paths, s.index, s.head),
    ensures
        run(seq!["restore"@, "--staged"@, "--"@] + paths, s) == Some(
            (Checkout { index: copied(s.head, s.index, paths), ..s }),
        ),
{
    lemma_words_differ();
    let c = seq!["restore"@, "--staged"@, "--"@] + paths;
    assert(c.skip(3) =~= paths);
}

proof fn lemma_run_restore(p: Seq<char>, s: Checkout)
    requires
        s.index.contains_key(p),
    ensures
        run(seq!["restore"@, "--"@, p], s) == Some(
            (Checkout { work: copied(s.index, s.work, seq![p]), ..s }),
        ),
{
    lemma_words_differ();
    let c = seq!["restore"@, "--"@, p];
    assert(c.skip(2) =~= seq![p]);
}

proof fn lemma_run_clean(p: Seq<char>, s: Checkout)
    requires
        !s.index.contains_key(p),
    ensures
        run(seq!["clean"@, "-f"@, "--"@, p], s) == Some(
            (Checkout { work: s.work.remove(p), ..s }),
        ),
{
    lemma_words_differ();
    let c = seq!["clean"@, "-f"@, "--"@, p];
    assert(c.skip(3) =~= seq![p]);
    let t = run(c, s)->0;
    assert forall|q: Seq<char>| seq![p].contains(q) <==> q == p by {
        assert(seq![p][0] == p);
    }
    assert(t.work =~= s.work.remove(p));
}

proof fn lemma_one(s: Seq<Seq<char>>, p: Seq<char>)
    requires
        s == seq![p],
    ensures
        forall|q: Seq<char>| #[trigger] s.contains(q) <==> q == p,
{
    assert(s[0] == p);
}

proof fn lemma_two(s: Seq<Seq<char>>, a: Seq<char>, b: Seq<char>)
    requires
        s == seq![a, b],
    ensures
        forall|q: Seq<char>| #[trigger] s.contains(q) <==> q == a || q == b,
{
    assert(s[0] == a);
    assert(s[1] == b);
}

proof fn lemma_run_last(commands: Seq<Seq<Seq<char>>>, s: Checkout)
    requires
        commands.len() == 1,
    ensures
        run_all(commands, s) == run(commands[0], s),
{
    reveal_with_fuel(run_all, 2);
    assert(commands.drop_first().len() == 0);
}

/// Discarding an entry leaves index and working tree as HEAD has them at its
/// paths, and everything else alone: a path that HEAD has gets its content
/// back, one that it lacks is gone. A conflicted entry is refused.
pub proof fn law_discarding_brings_head_back(e: EntryView, s: Checkout)
    requires
        describes(e, s),
        e.kind != ChangeKind::Renamed ==> e.orig_path is None,
    ensures
        e.kind == ChangeKind::Conflicted <==> discard_plan(e) is None,
        e.kind != ChangeKind::Conflicted ==> match run_all(discard_plan(e)->0, s) {
            Some(t) => {
                &&& forall|p: Seq<char>| #[trigger]
                    paths_of(e).contains(p) ==> agree(t.index, s.head, p) && agree(
                        t.work,
                        s.head,
                        p,
                    )
                &&& same_elsewhere(s, t, paths_of(e))
            },
            None => false,
        },
{
    lemma_one(seq![e.path], e.path);
    if e.kind != ChangeKind::Conflicted {
        let plan = discard_plan(e)->0;
        let p1 = plan.drop_first();
        if e.kind == ChangeKind::Untracked {
            lemma_run_clean(e.path, s);
            lemma_run_last(plan, s);
        } else if e.kind == ChangeKind::Renamed {
            let orig = e.orig_path->0;
            let both = seq![orig, e.path];
            lemma_two(both, orig, e.path);
            lemma_one(seq![orig], orig);
            assert(plan[0] =~= seq!["restore"@, "--staged"@, "--"@] + both);
            assert(each_known(both, s.index, s.head));
            lemma_run_unstage(both, s);
            let a = run(plan[0], s)->0;
            assert(p1[0] == plan[1]);
            lemma_run_restore(orig, a);
            let b = run(p1[0], a)->0;
            let p2 = p1.drop_first();
            assert(p2[0] == plan[2]);
            lemma_run_clean(e.path, b);
            lemma_run_last(p2, b);
            let t = run(p2[0], b)->0;
            assert(run_all(p2, b) == Some(t));
            assert(run_all(p1, a) == Some(t));
            assert(run_all(plan, s) == Some(t));
        } else if e.stage == StageState::Unstaged {
            lemma_run_restore(e.path, s);
            lemma_run_last(plan, s);
        } else {
            assert(plan[0] =~= seq!["restore"@, "--staged"@, "--"@] + seq![e.path]);
            assert(each_known(seq![e.path], s.index, s.head));
            lemma_run_unstage(seq![e.path], s);
            let a = run(plan[0], s)->0;
            assert(p1[0] == plan[1]);
            lemma_run_last(p1, a);
            if e.kind == ChangeKind::Added {
                lemma_run_clean(e.path, a);
            } else {
                lemma_run_restore(e.path, a);
            }
            let t = run(p1[0], a)->0;
            assert(run_all(p1, a) == Some(t));
            assert(run_all(plan, s) == Some(t));
        }
    }
}

/// Staging brings the index to the working tree at the paths, and changes
/// nothing else.
pub proof fn law_staging_takes_the_working_tree(paths: Seq<Seq<char>>, s: Checkout)
    requires
        each_known(paths, s.index, s.work),
    ensures
        match run(stage_args(paths), s) {
            Some(t) => {
                &&& t.head == s.head && t.work == s.work
                &&& forall|p: Seq<char>| #[trigger]
                    paths.contains(p) ==> agree(t.index, s.work, p)
                &&& same_elsewhere(s, t, paths)
            },
            None => false,
        },
{
    lemma_words_differ();
    assert(stage_args(paths).skip(2) =~= paths);
}

/// Unstaging brings the index to HEAD at the paths, and leaves the working tree
/// and everything else alone.
pub proof fn law_unstaging_takes_head(paths: Seq<Seq<char>>, s: Checkout)
    requires
        each_known(paths, s.index, s.head),
    ensures
        match run(unstage_args(paths), s) {
            Some(t) => {
                &&& t.head == s.head && t.work == s.work
                &&& forall|p: Seq<char>| #[trigger]
                    paths.contains(p) ==> agree(t.index, s.head, p)
                &&& same_elsewhere(s, t, paths)
            },
            None => false,
        },
{
    lemma_words_differ();
    assert(unstage_args(paths).skip(3) =~= paths);
}

/// What is staged and unstaged again is as it was, where the index had HEAD's
/// content before.
pub proof fn law_unstaging_undoes_staging(paths: Seq<Seq<char>>, s: Checkout)
    requires
        forall|i: int| 0 <= i < paths.len() ==> agree(s.index, s.head, #[trigger] paths[i]),
        each_known(paths, s.index, s.work),
    ensures
        run_all(seq![stage_args(paths), unstage_args(paths)], s) == Some(s) || exists|i: int|
            0 <= i < paths.len() && !s.head.contains_key(#[trigger] paths[i])
                && !s.work.contains_key(paths[i]),
{
    let plan = seq![stage_args(paths), unstage_args(paths)];
    law_staging_takes_the_working_tree(paths, s);
    let a = run(plan[0], s)->0;
    if forall|i: int|
        0 <= i < paths.len() ==> s.head.contains_key(#[trigger] paths[i]) || s.work.contains_key(
            paths[i],
        ) {
        assert forall|i: int| 0 <= i < paths.len() implies a.index.contains_key(
            #[trigger] paths[i],
        ) || a.head.contains_key(paths[i]) by {
            assert(paths.contains(paths[i]));
            assert(agree(a.index, s.work, paths[i]));
        }
        law_unstaging_takes_head(paths, a);
        let p1 = plan.drop_first();
        assert(p1[0] == plan[1]);
        lemma_run_last(p1, a);
        let t = run(p1[0], a)->0;
        assert(run_all(p1, a) == Some(t));
        assert forall|p: Seq<char>| #[trigger] agree(t.index, s.index, p) by {
            if paths.contains(p) {
                let i = choose|i: int| 0 <= i < paths.len() && paths[i] == p;
                assert(agree(s.index, s.head, paths[i]));
            } else {
                assert(agree(s.index, a.index, p));
                assert(agree(a.index, t.index, p));
            }
        }
        assert(t.index =~= s.index) by {
            assert forall|p: Seq<char>| t.index.contains_key(p) <==> s.index.contains_key(p) by {
                assert(agree(t.index, s.index, p));
            }
            assert forall|p: Seq<char>| t.index.contains_key(p) implies t.index[p] == s.index[p] by {
                assert(agree(t.index, s.index, p));
            }
        }
        assert(t =~= s);
    }
}

// ---- what a diff compares ----------------------------------------------------

/// A state of the files that a diff looks at.
pub enum State {
    Nothing,
    /// Before a commit.
    Parent(Seq<char>),
    Commit(Seq<char>),
    Index,
    Work,
}

/// The word at `i` or the first behind it that is no option, of those before `--`.
pub open spec fn revision_in(c: Seq<Seq<char>>, i: int) -> Option<Seq<char>>
    decreases c.len() - i,
{
    if i < 0 || i >= c.len() || c[i] == "--"@ {
        None
    } else if c[i].len() > 0 && c[i][0] == '-' {
        revision_in(c, i + 1)
    } else {
        Some(c[i])
    }
}

/// Whether an option is among the words from `i` on, before `--`.
pub open spec fn has_option(c: Seq<Seq<char>>, option: Seq<char>, i: int) -> bool
    decreases c.len() - i,
{
    if i < 0 || i >= c.len() || c[i] == "--"@ {
        false
    } else {
        c[i] == option || has_option(c, option, i + 1)
    }
}

/// The words behind the first `--` at or behind `i`.
pub open spec fn paths_named(c: Seq<Seq<char>>, i: int) -> Seq<Seq<char>>
    decreases c.len() - i,
{
    if i < 0 || i >= c.len() {
        Seq::empty()
    } else if c[i] == "--"@ {
        c.skip(i + 1)
    } else {
        paths_named(c, i + 1)
    }
}

/// What a command of git compares, the settings at `0..at` aside: `show` a
/// commit with what was before it; `diff` the index with the working tree, with
/// `--cached` HEAD with the index, and with a revision that with the working
/// tree. `--no-index` compares the two files that it names.
pub open spec fn compared(c: Seq<Seq<char>>, at: int) -> Option<(State, State)> {
    if c[at] == "show"@ {
        match revision_in(c, at + 1) {
            Some(rev) => Some((State::Parent(rev), State::Commit(rev))),
            None => None,
        }
    } else if c[at] == "diff"@ {
        if has_option(c, "--no-index"@, at + 1) {
            if paths_named(c, at).len() == 2 && paths_named(c, at)[0] == "/dev/null"@ {
                Some((State::Nothing, State::Work))
            } else {
                None
            }
        } else if has_option(c, "--cached"@, at + 1) {
            Some((State::Commit("HEAD"@), State::Index))
        } else {
            match revision_in(c, at + 1) {
                Some(rev) => Some((State::Commit(rev), State::Work)),
                None => Some((State::Index, State::Work)),
            }
        }
    } else {
        None
    }
}

/// A name of a commit: neither an option nor empty.
pub open spec fn names_commit(rev: Seq<char>) -> bool {
    rev.len() > 0 && rev[0] != '-' && rev[0] != ':' && rev.last() != '^'
}

/// The state that a content is read from, where it is looked up by name.
pub open spec fn state_of(source: SourceView) -> State {
    match source {
        SourceView::Worktree { .. } => State::Work,
        SourceView::Revision { rev, .. } => if rev == ":0"@ {
            State::Index
        } else if rev.len() > 0 && rev.last() == '^' {
            State::Parent(rev.drop_last())
        } else {
            State::Commit(rev)
        },
    }
}

/// What is to be compared: a commit with what was before it, the merge base
/// with the working tree, HEAD with the index, or the index with the working tree.
pub open spec fn to_compare(
    scope: Scope,
    cached: bool,
    commit: Option<Seq<char>>,
    merge_base: Seq<char>,
) -> (State, State) {
    match (commit, scope, cached) {
        (Some(sha), _, _) => (State::Parent(sha), State::Commit(sha)),
        (None, Scope::Branch, _) => (State::Commit(merge_base), State::Work),
        (None, Scope::Worktree, true) => (State::Commit("HEAD"@), State::Index),
        (None, Scope::Worktree, false) => (State::Index, State::Work),
    }
}

proof fn lemma_literals()
    ensures
        "--"@ != "--color=always"@,
        "--"@ != "--no-ext-diff"@,
        "--"@ != "--format="@,
        "--"@ != "-M"@,
        "--"@ != "--cached"@,
        "--"@ != "--no-index"@,
        "--"@ != "show"@,
        "--"@ != "diff"@,
        "show"@ != "diff"@,
        "--no-index"@ != "--color=always"@,
        "--no-index"@ != "--no-ext-diff"@,
        "--no-index"@ != "--cached"@,
        "--no-index"@ != "-M"@,
        "--cached"@ != "--color=always"@,
        "--cached"@ != "--no-ext-diff"@,
        "--cached"@ != "-M"@,
        "--"@.len() == 2,
        "--"@[0] == '-',
        "--color=always"@.len() > 0 && "--color=always"@[0] == '-',
        "--no-ext-diff"@.len() > 0 && "--no-ext-diff"@[0] == '-',
        "--format="@.len() > 0 && "--format="@[0] == '-',
        "-M"@.len() > 0 && "-M"@[0] == '-',
        "--no-index"@.len() > 0 && "--no-index"@[0] == '-',
        "--cached"@.len() > 0 && "--cached"@[0] == '-',
        ":0"@.len() == 2 && ":0"@[0] == ':' && ":0"@.last() == '0',
        "HEAD"@.len() == 4 && "HEAD"@[0] == 'H' && "HEAD"@.last() == 'D',
        "^"@ == seq!['^'],
{
    reveal_strlit("--");
    reveal_strlit("--color=always");
    reveal_strlit("--no-ext-diff");
    reveal_strlit("--format=");
    reveal_strlit("-M");
    reveal_strlit("--cached");
    reveal_strlit("--no-index");
    reveal_strlit("show");
    reveal_strlit("diff");
    reveal_strlit(":0");
    reveal_strlit("HEAD");
    reveal_strlit("^");
    assert("--"@.len() == 2 && "--color=always"@.len() == 14 && "--no-ext-diff"@.len() == 13);
    assert("--format="@.len() == 9 && "-M"@.len() == 2 && "--cached"@.len() == 8);
    assert("--no-index"@.len() == 10 && "show"@.len() == 4 && "diff"@.len() == 4);
    assert("--"@[1] == '-' && "-M"@[1] == 'M');
    assert("show"@[0] == 's' && "diff"@[0] == 'd');
    assert("^"@ =~= seq!['^']);
}

/// The coloured diff compares what is to be compared, an untracked file with
/// nothing, and is of the entry's file.
pub proof fn law_the_diff_compares_what_was_asked(
    e: EntryView,
    scope: Scope,
    cached: bool,
    commit: Option<Seq<char>>,
    merge_base: Seq<char>,
)
    requires
        commit matches Some(sha) ==> names_commit(sha),
        names_commit(merge_base),
    ensures
        ({
            let args = diff_args(e, scope, cached, commit, merge_base);
            &&& compared(args, 4) == Some(
                if commit is None && scope == Scope::Worktree && e.kind == ChangeKind::Untracked {
                    (State::Nothing, State::Work)
                } else {
                    to_compare(scope, cached, commit, merge_base)
                },
            )
            &&& paths_named(args, 4).len() > 0
            &&& paths_named(args, 4).last() == e.path
        }),
{
    lemma_literals();
    reveal_with_fuel(revision_in, 9);
    reveal_with_fuel(has_option, 9);
    reveal_with_fuel(paths_named, 9);
    let args = diff_args(e, scope, cached, commit, merge_base);
    match commit {
        Some(sha) => {
            assert(sha != "--"@);
            assert(args[4] == "show"@ && args[5] == "--color=always"@ && args[6]
                == "--no-ext-diff"@ && args[7] == "--format="@ && args[8] == "-M"@ && args[9] == sha
                && args[10] == "--"@);
            assert(args.skip(11) =~= both_paths(e));
        },
        None => {
            assert(args[4] == "diff"@ && args[5] == "--color=always"@ && args[6]
                == "--no-ext-diff"@);
            if scope == Scope::Worktree && e.kind == ChangeKind::Untracked {
                assert(args[7] == "--no-index"@ && args[8] == "--"@);
                assert(args.skip(9) =~= seq!["/dev/null"@, e.path]);
            } else if scope == Scope::Worktree && cached {
                assert(args[7] == "--cached"@ && args[8] == "--"@);
                assert(args.skip(9) =~= seq![e.path]);
            } else if scope == Scope::Worktree {
                assert(args[7] == "--"@);
                assert(args.skip(8) =~= seq![e.path]);
            } else {
                assert(merge_base != "--"@);
                assert(merge_base != "--no-index"@ && merge_base != "--cached"@);
                assert(args[7] == "-M"@ && args[8] == merge_base && args[9] == "--"@);
                assert(args.skip(10) =~= both_paths(e));
            }
        },
    }
}

/// The contents that a structured diff reads are of the states that the
/// coloured diff compares. The old side goes by the path before a renaming, and
/// the index holds an unstaged file under its own.
pub proof fn law_contents_come_from_what_is_compared(req: ReqView, merge_base: Seq<char>)
    requires
        req.commit matches Some(sha) ==> names_commit(sha),
        names_commit(merge_base),
    ensures
        ({
            let (a, b) = sources(req, merge_base);
            &&& (state_of(a), state_of(b)) == to_compare(
                req.scope,
                req.cached,
                req.commit,
                merge_base,
            )
            &&& (match b {
                SourceView::Revision { path, .. } => path == req.file,
                SourceView::Worktree { path } => path == req.file,
            })
            &&& (match a {
                SourceView::Revision { path, .. } => path == (match req.orig_path {
                    Some(p) if state_of(a) !is Index => p,
                    _ => req.file,
                }),
                SourceView::Worktree { .. } => false,
            })
        }),
{
    lemma_literals();
    match req.commit {
        Some(sha) => {
            let parent = sha + "^"@;
            assert(parent.last() == '^');
            assert(parent.drop_last() =~= sha);
            assert(sha != ":0"@);
            assert(parent != ":0"@);
        },
        None => {
            assert(merge_base != ":0"@);
        },
    }
}

} // verus!
