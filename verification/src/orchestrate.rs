//! Opening and closing a view: what is done with the view's state, the host
//! commands for it, and which repository it is for.
use crate::git::{lossy, lossy_text};
use crate::json::{
    collect_cwds, collect_strs, find_str, first_text, from_bytes, from_text, json_of, opt_json,
    parsed_bytes, parsed_text, texts, Json, Wanted,
};
use crate::path::{join_path, joined_path};
use crate::popup::{
    env_args, law_every_variable_is_handed_over, pairs_view, push_envs, PLUGIN_ID,
};
use crate::repo::{fnv, Output, Repo};
use crate::text::{
    append, append_dec, arg, copy, dec, has_string, lemma_strs_push, no_args, opt_str, push_all,
    same, strs, trim, trimmed,
};
use serde_json::Value;
use vstd::prelude::*;
use vstd::utf8::encode_utf8;

verus! {

broadcast use {vstd::string::group_string_axioms, lemma_strs_push};

/// Everything needed to find and tear down an open view later.
#[derive(Debug)]
pub struct ViewState {
    pub repo: String,
    pub tab_id: String,
    pub preview_pane: String,
    pub list_pane: String,
    pub socket: String,
}

// ---- what to do ------------------------------------------------------------------

/// What is done with a repository's view.
#[derive(Debug, Clone, Copy, PartialEq, Eq, Structural)]
pub enum ViewAction {
    Nothing,
    Open,
    /// The view's tab is gone: remove what is left of it, then open anew.
    CleanThenOpen,
    /// The view is in another tab: jump to it.
    Focus,
    Close,
}

/// Open a view where there is none, jump to it from another tab, and close it
/// from inside. `known` says that a state was stored, and whether its tab is
/// still there.
pub open spec fn toggled(known: Option<bool>, inside: bool) -> ViewAction {
    match known {
        Some(true) => if inside {
            ViewAction::Close
        } else {
            ViewAction::Focus
        },
        Some(false) => ViewAction::CleanThenOpen,
        None => ViewAction::Open,
    }
}

pub fn toggle(known: Option<bool>, inside: bool) -> (r: ViewAction)
    ensures
        r == toggled(known, inside),
{
    match known {
        Some(true) => if inside {
            ViewAction::Close
        } else {
            ViewAction::Focus
        },
        Some(false) => ViewAction::CleanThenOpen,
        None => ViewAction::Open,
    }
}

pub open spec fn opened(known: Option<bool>) -> ViewAction {
    match known {
        Some(true) => ViewAction::Nothing,
        Some(false) => ViewAction::CleanThenOpen,
        None => ViewAction::Open,
    }
}

/// Open a view unless one is open.
pub fn open(known: Option<bool>) -> (r: ViewAction)
    ensures
        r == opened(known),
{
    match known {
        Some(true) => ViewAction::Nothing,
        Some(false) => ViewAction::CleanThenOpen,
        None => ViewAction::Open,
    }
}

pub open spec fn closed(known: Option<bool>) -> ViewAction {
    match known {
        Some(_) => ViewAction::Close,
        None => ViewAction::Nothing,
    }
}

/// Close a view, whatever is left of it.
pub fn close(known: Option<bool>) -> (r: ViewAction)
    ensures
        r == closed(known),
{
    match known {
        Some(_) => ViewAction::Close,
        None => ViewAction::Nothing,
    }
}

/// What is known of the view once the action is done.
pub open spec fn after(known: Option<bool>, action: ViewAction) -> Option<bool> {
    match action {
        ViewAction::Nothing | ViewAction::Focus => known,
        ViewAction::Open | ViewAction::CleanThenOpen => Some(true),
        ViewAction::Close => None,
    }
}

/// Opening leaves an open view and closing leaves none, whatever was there.
/// Toggling from another tab leaves an open view, and never closes one; toggling
/// twice from inside goes back to where an open or absent view was.
pub proof fn law_opening_and_closing(known: Option<bool>)
    ensures
        after(known, opened(known)) == Some(true),
        after(known, closed(known)) is None,
        after(known, toggled(known, false)) == Some(true),
        known == Some(true) ==> toggled(known, false) == ViewAction::Focus,
        known != Some(false) ==> after(
            after(known, toggled(known, true)),
            toggled(after(known, toggled(known, true)), true),
        ) == known,
{
}

/// The tab that a command was given in: the one that the host's context names,
/// else the one in the environment.
pub open spec fn current_tab(context: Option<Json>, env_tab: Option<Seq<char>>) -> Option<Seq<char>> {
    match reply_text(context, "tab_id"@) {
        Some(tab) => Some(tab),
        None => env_tab,
    }
}

/// Whether a command was given inside the view in `view_tab`. `context` is the
/// JSON that the host hands to an action.
pub fn inside(view_tab: &str, context: Option<&str>, env_tab: Option<&str>) -> (r: bool)
    ensures
        r == (current_tab(
            match context {
                Some(c) => parsed_text(c@),
                None => None,
            },
            match env_tab {
                Some(t) => Some(t@),
                None => None,
            },
        ) == Some(view_tab@)),
{
    let value = match context {
        Some(c) => from_text(c),
        None => None,
    };
    match text_in(&value, "tab_id") {
        Some(tab) => same(tab.as_str(), view_tab),
        None => match env_tab {
            Some(tab) => same(tab, view_tab),
            None => false,
        },
    }
}

// ---- where a view's files are ----------------------------------------------------

pub open spec fn hex_digit(n: nat) -> char {
    if n < 10 {
        (('0' as nat) + n) as char
    } else {
        (('a' as nat) + (n - 10)) as char
    }
}

/// The last `count` hexadecimal digits of `n`.
pub open spec fn hex(n: nat, count: nat) -> Seq<char>
    decreases count,
{
    if count == 0 {
        Seq::empty()
    } else {
        hex(n / 16, (count - 1) as nat).push(hex_digit(n % 16))
    }
}

/// The name that a repository's files go by: the FNV-1a hash of its path, the
/// same in every run.
pub open spec fn hashed(repo: Seq<char>) -> Seq<char> {
    let raw = encode_utf8(repo);
    hex(fnv(raw, raw.len() as int) as nat, 16)
}

fn hex_char(n: u64) -> (c: char)
    requires
        n < 16,
    ensures
        c == hex_digit(n as nat),
{
    if n < 10 {
        (48u8 + n as u8) as char
    } else {
        (97u8 + (n - 10) as u8) as char
    }
}

fn hex_of(n: u64, count: u64) -> (r: String)
    ensures
        r@ == hex(n as nat, count as nat),
    decreases count,
{
    if count == 0 {
        let s = String::new();
        assert(s@ =~= Seq::<char>::empty());
        s
    } else {
        let mut s = hex_of(n / 16, count - 1);
        s.push(hex_char(n % 16));
        s
    }
}

pub fn repo_hash(repo: &str) -> (r: String)
    ensures
        r@ == hashed(repo@),
{
    hex_of(Repo::fingerprint(repo.as_bytes()), 16)
}

proof fn lemma_hex_len(n: nat, count: nat)
    ensures
        hex(n, count).len() == count,
    decreases count,
{
    if count > 0 {
        lemma_hex_len(n / 16, (count - 1) as nat);
    }
}

/// A hash always has sixteen digits.
pub proof fn law_a_hash_has_sixteen_digits(repo: Seq<char>)
    ensures
        hashed(repo).len() == 16,
{
    let raw = encode_utf8(repo);
    lemma_hex_len(fnv(raw, raw.len() as int) as nat, 16);
}

/// Where the views' files are.
pub fn views_dir(state_dir: &str) -> (r: String)
    ensures
        r@ == join_path(state_dir@, "views"@),
{
    joined_path(state_dir, "views")
}

/// The file that a view's state is stored in.
pub fn state_path(state_dir: &str, repo: &str) -> (r: String)
    ensures
        r@ == join_path(join_path(state_dir@, "views"@), hashed(repo@) + ".json"@),
{
    let mut name = repo_hash(repo);
    append(&mut name, ".json");
    joined_path(views_dir(state_dir).as_str(), name.as_str())
}

/// The socket that a view's panes talk over.
pub fn socket_path(state_dir: &str, repo: &str) -> (r: String)
    ensures
        r@ == join_path(join_path(state_dir@, "views"@), hashed(repo@) + ".sock"@),
{
    let mut name = repo_hash(repo);
    append(&mut name, ".sock");
    joined_path(views_dir(state_dir).as_str(), name.as_str())
}

// ---- host commands ---------------------------------------------------------------

/// The arguments that open one of our panes.
pub open spec fn pane_args(
    repo: Seq<char>,
    socket: Seq<char>,
    entrypoint: Seq<char>,
    placement: Seq<Seq<char>>,
    envs: Seq<(Seq<char>, Seq<char>)>,
) -> Seq<Seq<char>> {
    seq![
        "plugin"@,
        "pane"@,
        "open"@,
        "--plugin"@,
        PLUGIN_ID@,
        "--entrypoint"@,
        entrypoint,
        "--cwd"@,
        repo,
        "--env"@,
        "GITVIEW_REPO="@ + repo,
        "--env"@,
        "GITVIEW_SOCKET="@ + socket,
    ] + env_args(envs, envs.len() as int) + placement
}

pub fn open_pane_args(
    repo: &str,
    socket: &str,
    entrypoint: &str,
    placement: &Vec<String>,
    extra_env: &Vec<(String, String)>,
) -> (r: Vec<String>)
    ensures
        strs(r@) == pane_args(
            repo@,
            socket@,
            entrypoint@,
            strs(placement@),
            pairs_view(extra_env@),
        ),
{
    let mut v = no_args();
    arg(&mut v, "plugin");
    arg(&mut v, "pane");
    arg(&mut v, "open");
    arg(&mut v, "--plugin");
    arg(&mut v, PLUGIN_ID);
    arg(&mut v, "--entrypoint");
    arg(&mut v, entrypoint);
    arg(&mut v, "--cwd");
    arg(&mut v, repo);
    let mut repo_env = copy("GITVIEW_REPO=");
    append(&mut repo_env, repo);
    arg(&mut v, "--env");
    arg(&mut v, repo_env.as_str());
    let mut socket_env = copy("GITVIEW_SOCKET=");
    append(&mut socket_env, socket);
    arg(&mut v, "--env");
    arg(&mut v, socket_env.as_str());
    push_envs(&mut v, extra_env);
    push_all(&mut v, placement);
    assert(strs(v@) =~= pane_args(
        repo@,
        socket@,
        entrypoint@,
        strs(placement@),
        pairs_view(extra_env@),
    ));
    v
}

/// The preview comes first, in a tab of its own.
pub fn preview_placement() -> (r: Vec<String>)
    ensures
        strs(r@) == seq!["--placement"@, "tab"@, "--no-focus"@],
{
    let mut v = no_args();
    arg(&mut v, "--placement");
    arg(&mut v, "tab");
    arg(&mut v, "--no-focus");
    assert(strs(v@) =~= seq!["--placement"@, "tab"@, "--no-focus"@]);
    v
}

/// The list goes to the right of the preview.
pub fn list_placement(preview_pane: &str) -> (r: Vec<String>)
    ensures
        strs(r@) == seq![
            "--placement"@,
            "split"@,
            "--direction"@,
            "right"@,
            "--target-pane"@,
            preview_pane@,
            "--focus"@,
        ],
{
    let mut v = no_args();
    arg(&mut v, "--placement");
    arg(&mut v, "split");
    arg(&mut v, "--direction");
    arg(&mut v, "right");
    arg(&mut v, "--target-pane");
    arg(&mut v, preview_pane);
    arg(&mut v, "--focus");
    assert(strs(v@) =~= seq![
        "--placement"@,
        "split"@,
        "--direction"@,
        "right"@,
        "--target-pane"@,
        preview_pane@,
        "--focus"@,
    ]);
    v
}

/// The arguments that put the list to the left: the two panes trade places.
pub fn swap_args(preview_pane: &str, list_pane: &str) -> (r: Vec<String>)
    ensures
        strs(r@) == seq![
            "pane"@,
            "swap"@,
            "--source-pane"@,
            preview_pane@,
            "--target-pane"@,
            list_pane@,
        ],
{
    let mut v = no_args();
    arg(&mut v, "pane");
    arg(&mut v, "swap");
    arg(&mut v, "--source-pane");
    arg(&mut v, preview_pane);
    arg(&mut v, "--target-pane");
    arg(&mut v, list_pane);
    assert(strs(v@) =~= seq![
        "pane"@,
        "swap"@,
        "--source-pane"@,
        preview_pane@,
        "--target-pane"@,
        list_pane@,
    ]);
    v
}

/// The arguments of `kind` (`tab` or `pane`), `verb` and an id.
pub fn id_args(kind: &str, verb: &str, id: &str) -> (r: Vec<String>)
    ensures
        strs(r@) == seq![kind@, verb@, id@],
{
    let mut v = no_args();
    arg(&mut v, kind);
    arg(&mut v, verb);
    arg(&mut v, id);
    assert(strs(v@) =~= seq![kind@, verb@, id@]);
    v
}

// ---- replies ---------------------------------------------------------------------

/// The reply of a host command: what it wrote, read as JSON (nothing where it is
/// none), or what it complained of.
pub fn herdr_json(out: &Output) -> (r: Result<Option<Value>, String>)
    ensures
        (match r {
            Ok(v) => out.ok() && opt_json(v) == parsed_text(trim(lossy_text(out.stdout@))),
            Err(e) => !out.ok() && e@ == trim(lossy_text(out.stderr@)),
        }),
{
    if !out.success() {
        let text = lossy(out.stderr.as_slice());
        return Err(trimmed(text.as_str()));
    }
    let text = lossy(out.stdout.as_slice());
    let text = trimmed(text.as_str());
    Ok(from_text(text.as_str()))
}

/// The reply of a question that may fail: the bytes that it wrote, read as
/// JSON.
pub fn run_json(out: &Option<Output>) -> (r: Option<Value>)
    ensures
        opt_json(r) == (match *out {
            Some(out) => if out.ok() {
                parsed_bytes(out.stdout@)
            } else {
                None
            },
            None => None,
        }),
{
    match out {
        Some(out) => {
            if !out.success() {
                return None;
            }
            from_bytes(out.stdout.as_slice())
        },
        None => None,
    }
}

/// The first text under `key` in a reply that may be empty.
pub open spec fn reply_text(reply: Option<Json>, key: Seq<char>) -> Option<Seq<char>> {
    match reply {
        Some(j) => first_text(j, key),
        None => None,
    }
}

fn text_in(reply: &Option<Value>, key: &str) -> (r: Option<String>)
    ensures
        opt_str(r) == reply_text(opt_json(*reply), key@),
{
    match reply {
        Some(v) => match find_str(v, key) {
            Some(s) => Some(copy(s.as_str())),
            None => None,
        },
        None => None,
    }
}

/// The pane that was opened, when the reply says so.
pub fn opened_pane(reply: &Option<Value>) -> (r: Option<String>)
    ensures
        opt_str(r) == reply_text(opt_json(*reply), "pane_id"@),
{
    text_in(reply, "pane_id")
}

/// The tab that a pane is in.
pub fn pane_tab_id(reply: &Option<Value>) -> (r: Result<String, String>)
    ensures
        (match r {
            Ok(tab) => reply_text(opt_json(*reply), "tab_id"@) == Some(tab@),
            Err(e) => reply_text(opt_json(*reply), "tab_id"@) is None && e@
                == "no tab_id in `herdr pane get` reply"@,
        }),
{
    match text_in(reply, "tab_id") {
        Some(tab) => Ok(tab),
        None => Err(copy("no tab_id in `herdr pane get` reply")),
    }
}

/// All pane ids of a reply.
pub open spec fn reply_ids(reply: Option<Json>) -> Seq<Seq<char>> {
    match reply {
        Some(j) => texts(j, Wanted::Named("pane_id")),
        None => Seq::empty(),
    }
}

pub fn pane_ids(reply: &Option<Value>) -> (r: Vec<String>)
    ensures
        strs(r@) == reply_ids(opt_json(*reply)),
{
    let mut ids = no_args();
    if let Some(v) = reply {
        collect_strs(v, "pane_id", &mut ids);
        assert(strs(ids@) =~= texts(json_of(*v), Wanted::Named("pane_id")));
    }
    ids
}

/// The first id from `i` on that was not there before.
pub open spec fn first_new(before: Seq<Seq<char>>, now: Seq<Seq<char>>, i: int) -> Option<Seq<char>>
    decreases now.len() - i,
{
    if i < 0 || i >= now.len() {
        None
    } else if !before.contains(now[i]) {
        Some(now[i])
    } else {
        first_new(before, now, i + 1)
    }
}

/// The pane that appeared between two lists of panes.
pub fn new_pane(before: &Vec<String>, now: &Vec<String>) -> (r: Option<String>)
    ensures
        opt_str(r) == first_new(strs(before@), strs(now@), 0),
{
    let mut i: usize = 0;
    while i < now.len()
        invariant
            i <= now@.len(),
            first_new(strs(before@), strs(now@), 0) == first_new(
                strs(before@),
                strs(now@),
                i as int,
            ),
        decreases now@.len() - i,
    {
        if !has_string(before, now[i].as_str()) {
            return Some(copy(now[i].as_str()));
        }
        i += 1;
    }
    None
}

/// What is said when a new pane could not be told from the others.
pub fn unknown_pane(entrypoint: &str) -> (r: String)
    ensures
        r@ == "could not determine pane id for new "@ + entrypoint@ + " pane"@,
{
    let mut s = copy("could not determine pane id for new ");
    append(&mut s, entrypoint);
    append(&mut s, " pane");
    s
}

/// A pane that is taken for the new one was not there before, and is there now.
pub proof fn law_a_new_pane_is_new(before: Seq<Seq<char>>, now: Seq<Seq<char>>, i: int)
    requires
        0 <= i,
    ensures
        first_new(before, now, i) matches Some(id) ==> now.contains(id) && !before.contains(id),
    decreases now.len() - i,
{
    if i < now.len() {
        if before.contains(now[i]) {
            law_a_new_pane_is_new(before, now, i + 1);
        }
    }
}

// ---- which repository ------------------------------------------------------------

/// The directories in which a repository is looked for: those that the host's
/// context names, then our own.
pub open spec fn candidate_dirs(context: Option<Json>, cwd: Option<Seq<char>>) -> Seq<Seq<char>> {
    let named = match context {
        Some(j) => texts(j, Wanted::Directory),
        None => Seq::empty(),
    };
    match cwd {
        Some(dir) => named.push(dir),
        None => named,
    }
}

/// Where the repository is looked for.
#[derive(Debug)]
pub enum Search {
    /// It was given.
    Given(String),
    /// The first of these that is inside a repository wins.
    In(Vec<String>),
}

/// Where was the shortcut pressed? An explicit repository comes first, then the
/// directories in the host's context, then our own.
pub fn resolve_repo(given: Option<&str>, context: Option<&str>, cwd: Option<&str>) -> (r: Search)
    ensures
        (match r {
            Search::Given(repo) => given matches Some(g) && repo@ == g@,
            Search::In(dirs) => given is None && strs(dirs@) == candidate_dirs(
                match context {
                    Some(raw) => parsed_text(raw@),
                    None => None,
                },
                match cwd {
                    Some(dir) => Some(dir@),
                    None => None,
                },
            ),
        }),
{
    if let Some(repo) = given {
        return Search::Given(copy(repo));
    }
    let mut dirs = no_args();
    if let Some(raw) = context {
        if let Some(value) = from_text(raw) {
            collect_cwds(&value, &mut dirs);
            assert(strs(dirs@) =~= texts(json_of(value), Wanted::Directory));
        }
    }
    if let Some(dir) = cwd {
        arg(&mut dirs, dir);
    }
    Search::In(dirs)
}

/// The root of the repository that a directory is in.
pub fn git_toplevel(out: &Output) -> (r: Option<String>)
    ensures
        opt_str(r) == if out.ok() {
            Some(trim(lossy_text(out.stdout@)))
        } else {
            None
        },
{
    if out.success() {
        let text = lossy(out.stdout.as_slice());
        Some(trimmed(text.as_str()))
    } else {
        None
    }
}

/// The arguments that ask for it.
pub fn toplevel_args(dir: &str) -> (r: Vec<String>)
    ensures
        strs(r@) == seq!["-C"@, dir@, "rev-parse"@, "--show-toplevel"@],
{
    let mut v = no_args();
    arg(&mut v, "-C");
    arg(&mut v, dir);
    arg(&mut v, "rev-parse");
    arg(&mut v, "--show-toplevel");
    assert(strs(v@) =~= seq!["-C"@, dir@, "rev-parse"@, "--show-toplevel"@]);
    v
}

/// What is said when none of the directories is inside a repository.
pub fn no_repository(checked: usize) -> (r: String)
    ensures
        r@ == "not inside a git repository (checked "@ + dec(checked as nat)
            + " candidate dirs)"@,
{
    let mut s = copy("not inside a git repository (checked ");
    append_dec(&mut s, checked as u64);
    append(&mut s, " candidate dirs)");
    s
}

// ---- names and new panes -----------------------------------------------------------

/// The value of a hexadecimal digit.
pub open spec fn hex_value(c: char) -> int {
    if '0' <= c <= '9' {
        c as int - '0' as int
    } else {
        c as int - 'a' as int + 10
    }
}

/// The number that hexadecimal digits stand for.
pub open spec fn hex_number(s: Seq<char>) -> int
    decreases s.len(),
{
    if s.len() == 0 {
        0
    } else {
        16 * hex_number(s.drop_last()) + hex_value(s.last())
    }
}

/// Sixteen to the power of `n`.
pub open spec fn sixteens(n: nat) -> int
    decreases n,
{
    if n == 0 {
        1
    } else {
        16 * sixteens((n - 1) as nat)
    }
}

/// Hexadecimal digits stand for the number that they were made of.
pub proof fn law_hexadecimal_digits_are_the_number(n: nat, count: nat)
    requires
        n < sixteens(count),
    ensures
        hex_number(hex(n, count)) == n,
    decreases count,
{
    if count > 0 {
        law_hexadecimal_digits_are_the_number(n / 16, (count - 1) as nat);
        assert(hex(n, count).drop_last() =~= hex(n / 16, (count - 1) as nat));
        assert(hex_value(hex_digit(n % 16)) == n % 16);
    }
}

/// A pane that was not there before is found, and no pane where all were.
pub proof fn law_a_new_pane_is_found(before: Seq<Seq<char>>, now: Seq<Seq<char>>, i: int)
    requires
        0 <= i <= now.len(),
    ensures
        first_new(before, now, i) is None <==> forall|k: int|
            i <= k < now.len() ==> before.contains(#[trigger] now[k]),
    decreases now.len() - i,
{
    if i < now.len() {
        law_a_new_pane_is_found(before, now, i + 1);
        assert(now[i] == now[i]);
    }
}

/// A pane is opened for its repository: it starts in it, and is told of it, of
/// the socket and of its extra variables, with its placement behind.
pub proof fn law_a_pane_is_told_of_its_repository(
    repo: Seq<char>,
    socket: Seq<char>,
    entrypoint: Seq<char>,
    placement: Seq<Seq<char>>,
    envs: Seq<(Seq<char>, Seq<char>)>,
    i: int,
)
    requires
        0 <= i < envs.len(),
    ensures
        ({
            let args = pane_args(repo, socket, entrypoint, placement, envs);
            let follows = |option: Seq<char>, value: Seq<char>|
                exists|k: int|
                    0 <= k && k + 1 < args.len() && #[trigger] args[k] == option && args[k + 1]
                        == value;
            &&& follows("--entrypoint"@, entrypoint)
            &&& follows("--cwd"@, repo)
            &&& follows("--env"@, "GITVIEW_REPO="@ + repo)
            &&& follows("--env"@, "GITVIEW_SOCKET="@ + socket)
            &&& follows("--env"@, envs[i].0 + "="@ + envs[i].1)
            &&& args.skip(args.len() - placement.len()) == placement
        }),
{
    let args = pane_args(repo, socket, entrypoint, placement, envs);
    law_every_variable_is_handed_over(envs, envs.len() as int, i);
    assert(args[5] == "--entrypoint"@ && args[6] == entrypoint);
    assert(args[7] == "--cwd"@ && args[8] == repo);
    assert(args[9] == "--env"@ && args[10] == "GITVIEW_REPO="@ + repo);
    assert(args[11] == "--env"@ && args[12] == "GITVIEW_SOCKET="@ + socket);
    assert(args[13 + 2 * i] == "--env"@ && args[14 + 2 * i] == envs[i].0 + "="@ + envs[i].1);
    assert(args.skip(args.len() - placement.len()) =~= placement);
}

/// The directories of the context come first, in their order, and our own comes
/// last. Each of them is tried.
pub proof fn law_every_directory_is_tried(context: Json, cwd: Seq<char>)
    ensures
        candidate_dirs(Some(context), Some(cwd)) == texts(context, Wanted::Directory).push(cwd),
        candidate_dirs(Some(context), None) == texts(context, Wanted::Directory),
        candidate_dirs(None, Some(cwd)) == seq![cwd],
        candidate_dirs(None, None).len() == 0,
{
    assert(Seq::<Seq<char>>::empty().push(cwd) =~= seq![cwd]);
}

/// The tab of the context goes before that of the environment.
pub proof fn law_the_context_names_the_tab(context: Json, env_tab: Option<Seq<char>>)
    ensures
        first_text(context, "tab_id"@) is Some ==> current_tab(Some(context), env_tab)
            == first_text(context, "tab_id"@),
        first_text(context, "tab_id"@) is None ==> current_tab(Some(context), env_tab) == env_tab,
        current_tab(None, env_tab) == env_tab,
{
}

} // verus!
