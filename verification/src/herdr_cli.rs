//! What the panes ask the host at runtime: focus, and an editor that is
//! already running in the tab.
use crate::json::{
    array_field, as_str, as_u64, get, get_at, items_of, json_of, ref_items, text_field, Json,
};
use crate::path::{join_path, joined_path};
use crate::text::{
    append, append_dec, arg, copy, dec, has_string, lemma_strs_push, no_args, opt_str, same, strs,
};
use serde_json::Value;
use vstd::prelude::*;

verus! {

broadcast use {vstd::string::group_string_axioms, lemma_strs_push};

/// The arguments that focus a pane.
pub fn focus_args(pane: &str) -> (r: Vec<String>)
    ensures
        strs(r@) == seq!["plugin"@, "pane"@, "focus"@, pane@],
{
    let mut v = no_args();
    arg(&mut v, "plugin");
    arg(&mut v, "pane");
    arg(&mut v, "focus");
    arg(&mut v, pane);
    assert(strs(v@) =~= seq!["plugin"@, "pane"@, "focus"@, pane@]);
    v
}

/// The arguments that ask about a pane.
pub fn pane_get_args(pane: &str) -> (r: Vec<String>)
    ensures
        strs(r@) == seq!["pane"@, "get"@, pane@],
{
    let mut v = no_args();
    arg(&mut v, "pane");
    arg(&mut v, "get");
    arg(&mut v, pane);
    assert(strs(v@) =~= seq!["pane"@, "get"@, pane@]);
    v
}

/// The arguments that list all panes.
pub fn pane_list_args() -> (r: Vec<String>)
    ensures
        strs(r@) == seq!["pane"@, "list"@],
{
    let mut v = no_args();
    arg(&mut v, "pane");
    arg(&mut v, "list");
    assert(strs(v@) =~= seq!["pane"@, "list"@]);
    v
}

/// The arguments that ask for the processes of a pane.
pub fn process_info_args(pane: &str) -> (r: Vec<String>)
    ensures
        strs(r@) == seq!["pane"@, "process-info"@, "--pane"@, pane@],
{
    let mut v = no_args();
    arg(&mut v, "pane");
    arg(&mut v, "process-info");
    arg(&mut v, "--pane");
    arg(&mut v, pane);
    assert(strs(v@) =~= seq!["pane"@, "process-info"@, "--pane"@, pane@]);
    v
}

// ---- panes that may run an editor ------------------------------------------------

/// The tab that a pane is in, from the reply about it.
pub open spec fn reply_tab(j: Json) -> Option<Seq<char>> {
    match j.at("result"@, "pane"@) {
        Some(pane) => pane.text_field("tab_id"@),
        None => None,
    }
}

pub fn pane_tab(reply: &Value) -> (r: Option<String>)
    ensures
        opt_str(r) == reply_tab(json_of(*reply)),
{
    match get_at(reply, "result", "pane") {
        Some(pane) => match text_field(pane, "tab_id") {
            Some(tab) => Some(copy(tab.as_str())),
            None => None,
        },
        None => None,
    }
}

/// Whether a pane is another pane of the tab.
pub open spec fn is_candidate(
    pane: Json,
    own: Seq<char>,
    exclude: Seq<Seq<char>>,
    tab: Seq<char>,
) -> bool {
    let id = pane.text_or_empty("pane_id"@);
    &&& id.len() > 0
    &&& id != own
    &&& !exclude.contains(id)
    &&& pane.text_field("tab_id"@) == Some(tab)
}

/// The candidates among the first `n` panes, in their order.
pub open spec fn candidates(
    panes: Seq<Json>,
    own: Seq<char>,
    exclude: Seq<Seq<char>>,
    tab: Seq<char>,
    n: int,
) -> Seq<Seq<char>>
    decreases n,
{
    if n <= 0 {
        Seq::empty()
    } else if is_candidate(panes[n - 1], own, exclude, tab) {
        candidates(panes, own, exclude, tab, n - 1).push(panes[n - 1].text_or_empty("pane_id"@))
    } else {
        candidates(panes, own, exclude, tab, n - 1)
    }
}

/// The panes of a reply that lists them.
pub open spec fn reply_panes(j: Json) -> Option<Seq<Json>> {
    match j.field("result"@) {
        Some(result) => result.array_field("panes"@),
        None => None,
    }
}

pub fn listed_panes<'a>(reply: &'a Value) -> (r: Option<&'a Vec<Value>>)
    ensures
        ref_items(r) == reply_panes(json_of(*reply)),
{
    match get(reply, "result") {
        Some(result) => array_field(result, "panes"),
        None => None,
    }
}

/// The other panes of the tab, in the order in which they are asked for an
/// editor. Our own panes, in `exclude`, are left out.
pub fn nvim_candidates(reply: &Value, own_pane: &str, exclude: &Vec<String>, tab: &str) -> (r: Vec<
    String,
>)
    ensures
        strs(r@) == (match reply_panes(json_of(*reply)) {
            Some(panes) => candidates(panes, own_pane@, strs(exclude@), tab@, panes.len() as int),
            None => Seq::empty(),
        }),
{
    let mut out = no_args();
    let panes = match listed_panes(reply) {
        Some(panes) => panes,
        None => {
            return out;
        },
    };
    let ghost all = items_of(panes@);
    let mut i: usize = 0;
    while i < panes.len()
        invariant
            i <= panes@.len(),
            all == items_of(panes@),
            strs(out@) == candidates(all, own_pane@, strs(exclude@), tab@, i as int),
        decreases panes@.len() - i,
    {
        assert(all[i as int] == json_of(panes@[i as int]));
        let pane = &panes[i];
        let id = crate::json::text_or_empty(pane, "pane_id");
        let here = match text_field(pane, "tab_id") {
            Some(t) => same(t.as_str(), tab),
            None => false,
        };
        if !id.as_str().is_empty() && !same(id.as_str(), own_pane) && !has_string(
            exclude,
            id.as_str(),
        ) && here {
            out.push(id);
        }
        i += 1;
    }
    out
}

/// A pane is never taken for its own neighbour, nor is one that was excluded.
pub proof fn law_candidates_are_other_panes(
    panes: Seq<Json>,
    own: Seq<char>,
    exclude: Seq<Seq<char>>,
    tab: Seq<char>,
    n: int,
)
    ensures
        !candidates(panes, own, exclude, tab, n).contains(own),
        forall|id: Seq<char>|
            exclude.contains(id) ==> !#[trigger] candidates(
                panes,
                own,
                exclude,
                tab,
                n,
            ).contains(id),
    decreases n,
{
    if n > 0 {
        law_candidates_are_other_panes(panes, own, exclude, tab, n - 1);
        let before = candidates(panes, own, exclude, tab, n - 1);
        let all = candidates(panes, own, exclude, tab, n);
        assert forall|id: Seq<char>| all.contains(id) implies before.contains(id) || id
            == panes[n - 1].text_or_empty("pane_id"@) by {
            let k = all.index_of(id);
            if k < before.len() {
                assert(before[k] == id);
            }
        }
        assert forall|id: Seq<char>| exclude.contains(id) || id == own implies !#[trigger] all.contains(id) by {
            if all.contains(id) && !before.contains(id) {
                assert(is_candidate(panes[n - 1], own, exclude, tab));
            }
        }
    }
}

// ---- the editor of a tab ----------------------------------------------------------

/// An editor that runs in another pane of our tab and can be driven over `socket`.
#[derive(Debug)]
pub struct TabNvim {
    pub pane_id: String,
    pub socket: String,
}

pub open spec fn sockets_view(v: Seq<Option<String>>) -> Seq<Option<Seq<char>>> {
    v.map_values(|s: Option<String>| opt_str(s))
}

/// The first pane from `i` on in which a socket was found.
pub open spec fn first_socket(
    panes: Seq<Seq<char>>,
    sockets: Seq<Option<Seq<char>>>,
    i: int,
) -> Option<(Seq<char>, Seq<char>)>
    decreases panes.len() - i,
{
    if i < 0 || i >= panes.len() || i >= sockets.len() {
        None
    } else {
        match sockets[i] {
            Some(socket) => Some((panes[i], socket)),
            None => first_socket(panes, sockets, i + 1),
        }
    }
}

/// The editor to use: that of the first of the candidate panes in which a socket
/// was found. `sockets` says for each pane what was found there.
pub fn find_nvim_in_tab(panes: &Vec<String>, sockets: &Vec<Option<String>>) -> (r: Option<TabNvim>)
    ensures
        (match r {
            Some(t) => first_socket(strs(panes@), sockets_view(sockets@), 0) == Some(
                (t.pane_id@, t.socket@),
            ),
            None => first_socket(strs(panes@), sockets_view(sockets@), 0) is None,
        }),
{
    let ghost ps = strs(panes@);
    let ghost ss = sockets_view(sockets@);
    let mut i: usize = 0;
    while i < panes.len() && i < sockets.len()
        invariant
            i <= panes@.len(),
            ps == strs(panes@),
            ss == sockets_view(sockets@),
            first_socket(ps, ss, 0) == first_socket(ps, ss, i as int),
        decreases panes@.len() - i,
    {
        assert(ps[i as int] == panes@[i as int]@);
        assert(ss[i as int] == opt_str(sockets@[i as int]));
        match &sockets[i] {
            Some(socket) => {
                return Some(
                    TabNvim { pane_id: copy(panes[i].as_str()), socket: copy(socket.as_str()) },
                );
            },
            None => {},
        }
        i += 1;
    }
    None
}

// ---- the editor's socket ---------------------------------------------------------

/// Where an editor's remote socket may be.
#[derive(Debug)]
pub enum SocketProbe {
    /// At this path, named in its arguments.
    Server(String),
    /// Where an editor with this process id listens by itself.
    Pid(u64),
}

pub enum ProbeView {
    Server(Seq<char>),
    Pid(u64),
}

impl View for SocketProbe {
    type V = ProbeView;

    open spec fn view(&self) -> ProbeView {
        match self {
            SocketProbe::Server(s) => ProbeView::Server(s@),
            SocketProbe::Pid(n) => ProbeView::Pid(*n),
        }
    }
}

pub open spec fn probes_view(v: Seq<SocketProbe>) -> Seq<ProbeView> {
    v.map_values(|p: SocketProbe| p@)
}

/// The texts among the first `n` items.
pub open spec fn item_texts(items: Seq<Json>, n: int) -> Seq<Seq<char>>
    decreases n,
{
    if n <= 0 {
        Seq::empty()
    } else {
        match items[n - 1].text() {
            Some(s) => item_texts(items, n - 1).push(s),
            None => item_texts(items, n - 1),
        }
    }
}

/// The arguments that a process was started with.
pub open spec fn process_argv(proc: Json) -> Seq<Seq<char>> {
    match proc.array_field("argv"@) {
        Some(items) => item_texts(items, items.len() as int),
        None => Seq::empty(),
    }
}

/// The argument behind the first `--server` from `i` on.
pub open spec fn server_arg(argv: Seq<Seq<char>>, i: int) -> Option<Seq<char>>
    decreases argv.len() - i,
{
    if i < 0 || i >= argv.len() {
        None
    } else if argv[i] == "--server"@ {
        if i + 1 < argv.len() {
            Some(argv[i + 1])
        } else {
            None
        }
    } else {
        server_arg(argv, i + 1)
    }
}

/// Where one process's socket may be: named in its arguments, or found by its
/// process id.
pub open spec fn process_probes(proc: Json) -> Seq<ProbeView> {
    if proc.text_field("name"@) != Some("nvim"@) {
        Seq::empty()
    } else {
        let named = match server_arg(process_argv(proc), 0) {
            Some(path) => seq![ProbeView::Server(path)],
            None => Seq::empty(),
        };
        let own = match proc.field("pid"@) {
            Some(v) => match v.number() {
                Some(pid) => seq![ProbeView::Pid(pid)],
                None => Seq::empty(),
            },
            None => Seq::empty(),
        };
        named + own
    }
}

pub open spec fn all_probes(procs: Seq<Json>, n: int) -> Seq<ProbeView>
    decreases n,
{
    if n <= 0 {
        Seq::empty()
    } else {
        all_probes(procs, n - 1) + process_probes(procs[n - 1])
    }
}

/// The foreground processes of a reply about a pane's processes.
pub open spec fn reply_processes(j: Json) -> Option<Seq<Json>> {
    match j.at("result"@, "process_info"@) {
        Some(info) => info.array_field("foreground_processes"@),
        None => None,
    }
}

fn argv_of(proc: &Value) -> (r: Vec<String>)
    ensures
        strs(r@) == process_argv(json_of(*proc)),
{
    let mut out = no_args();
    if let Some(items) = array_field(proc, "argv") {
        let ghost all = items_of(items@);
        let mut i: usize = 0;
        while i < items.len()
            invariant
                i <= items@.len(),
                all == items_of(items@),
                strs(out@) == item_texts(all, i as int),
            decreases items@.len() - i,
        {
            assert(all[i as int] == json_of(items@[i as int]));
            if let Some(s) = as_str(&items[i]) {
                arg(&mut out, s.as_str());
            }
            i += 1;
        }
    }
    out
}

fn find_server(argv: &Vec<String>) -> (r: Option<String>)
    ensures
        opt_str(r) == server_arg(strs(argv@), 0),
{
    let mut i: usize = 0;
    while i < argv.len()
        invariant
            i <= argv@.len(),
            server_arg(strs(argv@), 0) == server_arg(strs(argv@), i as int),
        decreases argv@.len() - i,
    {
        if same(argv[i].as_str(), "--server") {
            if i + 1 < argv.len() {
                return Some(copy(argv[i + 1].as_str()));
            }
            return None;
        }
        i += 1;
    }
    None
}

proof fn lemma_probes_push(v: Seq<SocketProbe>, p: SocketProbe)
    ensures
        probes_view(v.push(p)) == probes_view(v).push(p@),
{
    assert(probes_view(v.push(p)) =~= probes_view(v).push(p@));
}

fn push_probes(proc: &Value, out: &mut Vec<SocketProbe>)
    ensures
        probes_view(final(out)@) == probes_view(old(out)@) + process_probes(json_of(*proc)),
{
    let ghost start = probes_view(out@);
    let is_nvim = match text_field(proc, "name") {
        Some(name) => same(name.as_str(), "nvim"),
        None => false,
    };
    if !is_nvim {
        assert(start + process_probes(json_of(*proc)) =~= start);
        return;
    }
    let argv = argv_of(proc);
    if let Some(path) = find_server(&argv) {
        let p = SocketProbe::Server(path);
        proof {
            lemma_probes_push(out@, p);
        }
        out.push(p);
    }
    if let Some(v) = get(proc, "pid") {
        if let Some(pid) = as_u64(v) {
            let p = SocketProbe::Pid(pid);
            proof {
                lemma_probes_push(out@, p);
            }
            out.push(p);
        }
    }
    assert(probes_view(out@) =~= start + process_probes(json_of(*proc)));
}

/// Where the socket of an editor in a pane may be, the likeliest place first.
/// The first that is there is the one.
pub fn pane_nvim_socket(reply: &Value) -> (r: Vec<SocketProbe>)
    ensures
        probes_view(r@) == (match reply_processes(json_of(*reply)) {
            Some(procs) => all_probes(procs, procs.len() as int),
            None => Seq::empty(),
        }),
{
    let mut out: Vec<SocketProbe> = Vec::new();
    assert(probes_view(out@) =~= Seq::<ProbeView>::empty());
    let info = match get_at(reply, "result", "process_info") {
        Some(info) => info,
        None => {
            return out;
        },
    };
    let procs = match array_field(info, "foreground_processes") {
        Some(procs) => procs,
        None => {
            return out;
        },
    };
    let ghost all = items_of(procs@);
    let mut i: usize = 0;
    while i < procs.len()
        invariant
            i <= procs@.len(),
            all == items_of(procs@),
            probes_view(out@) == all_probes(all, i as int),
        decreases procs@.len() - i,
    {
        assert(all[i as int] == json_of(procs@[i as int]));
        push_probes(&procs[i], &mut out);
        i += 1;
    }
    out
}

/// Where an editor listens by itself: a directory of the user's under `base`,
/// in which each entry may hold a file of this name.
pub fn socket_dir(base: &str, user: &str) -> (r: String)
    ensures
        r@ == join_path(base@, "nvim."@ + user@),
{
    let mut name = copy("nvim.");
    append(&mut name, user);
    joined_path(base, name.as_str())
}

pub fn socket_for_pid(pid: u64) -> (r: String)
    ensures
        r@ == "nvim."@ + dec(pid as nat) + ".0"@,
{
    let mut name = copy("nvim.");
    append_dec(&mut name, pid);
    append(&mut name, ".0");
    name
}

// ---- what is found -----------------------------------------------------------------

/// The editor's server is the argument behind `--server`.
pub proof fn law_the_server_is_behind_its_option(
    before: Seq<Seq<char>>,
    path: Seq<char>,
    behind: Seq<Seq<char>>,
    i: int,
)
    requires
        !before.contains("--server"@),
        0 <= i <= before.len(),
    ensures
        server_arg(before + seq!["--server"@, path] + behind, i) == Some(path),
        server_arg(before, i) is None,
    decreases before.len() - i,
{
    let argv = before + seq!["--server"@, path] + behind;
    if i < before.len() {
        assert(argv[i] == before[i]);
        assert(before.contains(before[i]));
        law_the_server_is_behind_its_option(before, path, behind, i + 1);
    } else {
        assert(argv[i] == "--server"@ && argv[i + 1] == path);
    }
}

/// Every other pane of the tab is asked, unless it was excluded.
pub proof fn law_every_other_pane_is_a_candidate(
    panes: Seq<Json>,
    own: Seq<char>,
    exclude: Seq<Seq<char>>,
    tab: Seq<char>,
    n: int,
    k: int,
)
    requires
        0 <= k < n <= panes.len(),
        panes[k].text_or_empty("pane_id"@).len() > 0,
        panes[k].text_or_empty("pane_id"@) != own,
        !exclude.contains(panes[k].text_or_empty("pane_id"@)),
        panes[k].text_field("tab_id"@) == Some(tab),
    ensures
        candidates(panes, own, exclude, tab, n).contains(panes[k].text_or_empty("pane_id"@)),
    decreases n,
{
    let id = panes[k].text_or_empty("pane_id"@);
    let before = candidates(panes, own, exclude, tab, n - 1);
    let now = candidates(panes, own, exclude, tab, n);
    if k < n - 1 {
        law_every_other_pane_is_a_candidate(panes, own, exclude, tab, n - 1, k);
        let i = choose|i: int| 0 <= i < before.len() && before[i] == id;
        assert(now[i] == id);
    } else {
        assert(now[now.len() - 1] == id);
    }
}

/// The editor that is used is that of the first pane in which one was found.
pub proof fn law_the_first_socket_is_used(
    panes: Seq<Seq<char>>,
    sockets: Seq<Option<Seq<char>>>,
    i: int,
)
    requires
        panes.len() == sockets.len(),
        0 <= i <= panes.len(),
    ensures
        match first_socket(panes, sockets, i) {
            Some((pane, socket)) => exists|k: int|
                i <= k < panes.len() && #[trigger] panes[k] == pane && sockets[k] == Some(socket)
                    && forall|j: int| i <= j < k ==> (#[trigger] sockets[j]) is None,
            None => forall|j: int| i <= j < panes.len() ==> (#[trigger] sockets[j]) is None,
        },
    decreases panes.len() - i,
{
    if i < panes.len() {
        if sockets[i] is None {
            law_the_first_socket_is_used(panes, sockets, i + 1);
            if let Some((pane, socket)) = first_socket(panes, sockets, i + 1) {
                let k = choose|k: int|
                    i + 1 <= k < panes.len() && #[trigger] panes[k] == pane && sockets[k] == Some(
                        socket,
                    ) && forall|j: int| i + 1 <= j < k ==> (#[trigger] sockets[j]) is None;
                assert(panes[k] == pane);
            }
        } else {
            assert(panes[i] == panes[i]);
        }
    }
}

/// A running editor is asked at the server that it names, and else at the socket
/// of its process. Nothing else is an editor.
pub proof fn law_only_editors_are_asked(proc: Json, pid: u64)
    requires
        proc.field("pid"@) == Some(Json::Number(Some(pid))),
    ensures
        proc.field("name"@) == Some(Json::Text("nvim"@)) ==> {
            &&& process_probes(proc).last() == ProbeView::Pid(pid)
            &&& server_arg(process_argv(proc), 0) matches Some(path)
                ==> process_probes(proc) == seq![ProbeView::Server(path), ProbeView::Pid(pid)]
            &&& server_arg(process_argv(proc), 0) is None ==> process_probes(proc)
                == seq![ProbeView::Pid(pid)]
        },
        proc.field("name"@) != Some(Json::Text("nvim"@)) ==> process_probes(proc).len() == 0,
{
    let named = match server_arg(process_argv(proc), 0) {
        Some(path) => seq![ProbeView::Server(path)],
        None => Seq::empty(),
    };
    if proc.field("name"@) == Some(Json::Text("nvim"@)) {
        assert(process_probes(proc) =~= named.push(ProbeView::Pid(pid)));
    } else if proc.text_field("name"@) == Some("nvim"@) {
        assert(proc.field("name"@) == Some(Json::Text("nvim"@)));
    }
}

/// The arguments of a process are read in their order.
pub proof fn law_arguments_are_read_in_order(items: Seq<Json>, args: Seq<Seq<char>>, n: int)
    requires
        0 <= n <= items.len(),
        items.len() == args.len(),
        forall|i: int| 0 <= i < items.len() ==> (#[trigger] items[i]) == Json::Text(args[i]),
    ensures
        item_texts(items, n) == args.take(n),
    decreases n,
{
    if n > 0 {
        law_arguments_are_read_in_order(items, args, n - 1);
        assert(items[n - 1] == Json::Text(args[n - 1]));
        assert(args.take(n - 1).push(args[n - 1]) =~= args.take(n));
    } else {
        assert(args.take(0) =~= Seq::empty());
    }
}

} // verus!
