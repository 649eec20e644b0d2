//! Floating popup panes of the host: whether it has them, how one is opened,
//! how its answer is read, and which agents notes can be sent to.
use crate::annotate::{agents_view, Agent, AgentView};
use crate::git::{lossy, lossy_text};
use crate::herdr_cli::{listed_panes, reply_panes};
use crate::json::{
    array_field, as_array, as_str, from_text, get, items_of, json_of, opt_json, parsed_text,
    ref_json, text_or_empty, Json,
};
use crate::path::{rfind, rfind_char, with_ext, with_extension};
use crate::repo::Output;
use crate::text::{
    append, arg, chars_of, copy, dec, decimal, is_digit, is_space, is_whitespace, join,
    law_splitting_undoes_joining, law_written_numbers_are_read_back, lemma_dec_is_plain,
    lemma_strs_push, no_args,
    opt_str, parse_u64, parse_unsigned, same, split, split_at_char, string_of, strs, trim, trim_end,
    trimmed, trimmed_end,
};
use serde_json::Value;
use vstd::prelude::*;

verus! {

broadcast use {vstd::string::group_string_axioms, lemma_strs_push};

// ---- the host's version ----------------------------------------------------------

/// Where the run of other characters that ends at `n` starts.
pub open spec fn word_start(s: Seq<char>, n: int) -> int
    decreases n,
{
    if n <= 0 || is_space(s[n - 1]) {
        n
    } else {
        word_start(s, n - 1)
    }
}

/// The last word of a text; `None` when it is blank.
pub open spec fn last_word(s: Seq<char>) -> Option<Seq<char>> {
    let t = trim_end(s);
    if t.len() == 0 {
        None
    } else {
        Some(t.skip(word_start(t, t.len() as int)))
    }
}

/// The numbers among the first `n` pieces.
pub open spec fn numbers(pieces: Seq<Seq<char>>, n: int) -> Seq<nat>
    decreases n,
{
    if n <= 0 {
        Seq::empty()
    } else {
        match parse_unsigned(pieces[n - 1], u32::MAX as nat) {
            Some(v) => numbers(pieces, n - 1).push(v),
            None => numbers(pieces, n - 1),
        }
    }
}

/// Number `i` of a version; zero where it is missing.
pub open spec fn number_or_zero(v: Seq<nat>, i: int) -> nat {
    if i < v.len() {
        v[i]
    } else {
        0
    }
}

/// Whether a version is the one that brought popups, 0.7.4, or a later one.
pub open spec fn has_popups(version: Seq<char>) -> bool {
    let pieces = split(version, '.');
    let v = numbers(pieces, pieces.len() as int);
    let (major, minor, patch) = (number_or_zero(v, 0), number_or_zero(v, 1), number_or_zero(v, 2));
    major > 0 || minor > 7 || (minor == 7 && patch >= 4)
}

fn last_word_of(s: &str) -> (r: Option<String>)
    ensures
        opt_str(r) == last_word(s@),
{
    let cs = chars_of(s);
    let end = trimmed_end(&cs, 0, cs.len());
    assert(cs@.subrange(0, cs@.len() as int) =~= s@);
    let ghost t = trim_end(s@);
    assert(t =~= cs@.take(end as int));
    if end == 0 {
        return None;
    }
    let mut i = end;
    while i > 0 && !is_whitespace(cs[i - 1])
        invariant
            0 <= i <= end <= cs@.len(),
            t == cs@.take(end as int),
            word_start(t, end as int) == word_start(t, i as int),
        decreases i,
    {
        i -= 1;
    }
    let word = string_of(&cs, i, end);
    assert(word@ =~= t.skip(i as int));
    Some(word)
}

fn version_numbers(version: &str) -> (r: Vec<u64>)
    ensures
        r@.len() == numbers(split(version@, '.'), split(version@, '.').len() as int).len(),
        forall|i: int|
            0 <= i < r@.len() ==> #[trigger] r@[i] == numbers(
                split(version@, '.'),
                split(version@, '.').len() as int,
            )[i],
{
    let pieces = split_at_char(version, '.');
    let ghost all = strs(pieces@);
    let mut out: Vec<u64> = Vec::new();
    let mut i: usize = 0;
    while i < pieces.len()
        invariant
            i <= pieces@.len(),
            all == strs(pieces@),
            out@.len() == numbers(all, i as int).len(),
            forall|j: int| 0 <= j < out@.len() ==> #[trigger] out@[j] == numbers(all, i as int)[j],
        decreases pieces@.len() - i,
    {
        assert(all[i as int] == pieces@[i as int]@);
        if let Some(v) = parse_u64(pieces[i].as_str(), u32::MAX as u64) {
            out.push(v);
        }
        i += 1;
    }
    out
}

/// Whether the host can open popups: we run inside it, and the version that it
/// reports is new enough.
pub fn supported(in_herdr: bool, version_output: Option<&str>) -> (r: bool)
    ensures
        r == (in_herdr && match version_output {
            Some(text) => match last_word(text@) {
                Some(version) => has_popups(version),
                None => false,
            },
            None => false,
        }),
{
    if !in_herdr {
        return false;
    }
    let version = match version_output {
        Some(text) => match last_word_of(text) {
            Some(version) => version,
            None => {
                return false;
            },
        },
        None => {
            return false;
        },
    };
    let v = version_numbers(version.as_str());
    let major: u64 = if v.len() > 0 {
        v[0]
    } else {
        0
    };
    let minor: u64 = if v.len() > 1 {
        v[1]
    } else {
        0
    };
    let patch: u64 = if v.len() > 2 {
        v[2]
    } else {
        0
    };
    major > 0 || minor > 7 || (minor == 7 && patch >= 4)
}

// ---- opening one -----------------------------------------------------------------

/// The file that a popup's answer goes to, next to the view's socket.
pub fn answer_file(socket: &str, entrypoint: &str) -> (r: String)
    ensures
        r@ == with_ext(socket@, entrypoint@ + ".answer"@),
{
    let mut ext = copy(entrypoint);
    append(&mut ext, ".answer");
    with_extension(socket, ext.as_str())
}

/// The two arguments that set each of the first `n` variables.
pub open spec fn env_args(envs: Seq<(Seq<char>, Seq<char>)>, n: int) -> Seq<Seq<char>>
    decreases n,
{
    if n <= 0 {
        Seq::empty()
    } else {
        env_args(envs, n - 1) + seq!["--env"@, envs[n - 1].0 + "="@ + envs[n - 1].1]
    }
}

pub open spec fn pairs_view(v: Seq<(String, String)>) -> Seq<(Seq<char>, Seq<char>)> {
    v.map_values(|p: (String, String)| (p.0@, p.1@))
}

/// Put the arguments that set the variables behind the others.
pub fn push_envs(args: &mut Vec<String>, envs: &Vec<(String, String)>)
    ensures
        strs(final(args)@) == strs(old(args)@) + env_args(
            pairs_view(envs@),
            envs@.len() as int,
        ),
{
    let ghost start = strs(args@);
    let ghost all = pairs_view(envs@);
    let mut i: usize = 0;
    assert(start + env_args(all, 0) =~= start);
    while i < envs.len()
        invariant
            i <= envs@.len(),
            all == pairs_view(envs@),
            strs(args@) == start + env_args(all, i as int),
        decreases envs@.len() - i,
    {
        assert(all[i as int] == (envs@[i as int].0@, envs@[i as int].1@));
        let mut pair = copy(envs[i].0.as_str());
        append(&mut pair, "=");
        append(&mut pair, envs[i].1.as_str());
        arg(args, "--env");
        arg(args, pair.as_str());
        i += 1;
        assert(strs(args@) =~= start + env_args(all, i as int));
    }
}

/// The plugin that the panes belong to.
pub const PLUGIN_ID: &'static str = "chmarax.gitview";

/// The arguments that open a popup of `width` by `height` cells.
pub open spec fn popup_args(
    entrypoint: Seq<char>,
    answer: Seq<char>,
    envs: Seq<(Seq<char>, Seq<char>)>,
    width: u16,
    height: u16,
) -> Seq<Seq<char>> {
    seq![
        "plugin"@,
        "pane"@,
        "open"@,
        "--plugin"@,
        PLUGIN_ID@,
        "--entrypoint"@,
        entrypoint,
        "--placement"@,
        "popup"@,
        "--focus"@,
        "--width"@,
        dec(width as nat),
        "--height"@,
        dec(height as nat),
        "--env"@,
        "GITVIEW_ANSWER_FILE="@ + answer,
    ] + env_args(envs, envs.len() as int)
}

/// Open a popup that runs `entrypoint` with extra variables.
pub fn spawn(
    entrypoint: &str,
    answer: &str,
    envs: &Vec<(String, String)>,
    width: u16,
    height: u16,
) -> (r: Vec<String>)
    ensures
        strs(r@) == popup_args(entrypoint@, answer@, pairs_view(envs@), width, height),
{
    let mut v = no_args();
    arg(&mut v, "plugin");
    arg(&mut v, "pane");
    arg(&mut v, "open");
    arg(&mut v, "--plugin");
    arg(&mut v, PLUGIN_ID);
    arg(&mut v, "--entrypoint");
    arg(&mut v, entrypoint);
    arg(&mut v, "--placement");
    arg(&mut v, "popup");
    arg(&mut v, "--focus");
    arg(&mut v, "--width");
    arg(&mut v, decimal(width as u64).as_str());
    arg(&mut v, "--height");
    arg(&mut v, decimal(height as u64).as_str());
    let mut file = copy("GITVIEW_ANSWER_FILE=");
    append(&mut file, answer);
    arg(&mut v, "--env");
    arg(&mut v, file.as_str());
    push_envs(&mut v, envs);
    assert(strs(v@) =~= popup_args(entrypoint@, answer@, pairs_view(envs@), width, height));
    v
}

// ---- its answer ------------------------------------------------------------------

/// A text without the newlines that end it.
pub open spec fn without_newlines(s: Seq<char>) -> Seq<char>
    decreases s.len(),
{
    if s.len() > 0 && s.last() == '\n' {
        without_newlines(s.drop_last())
    } else {
        s
    }
}

/// The answer in a file that has appeared.
pub fn poll(answer: &str) -> (r: String)
    ensures
        r@ == without_newlines(answer@),
{
    let cs = chars_of(answer);
    let mut n = cs.len();
    assert(cs@.take(n as int) =~= answer@);
    while n > 0 && cs[n - 1] == '\n'
        invariant
            n <= cs@.len(),
            without_newlines(answer@) == without_newlines(cs@.take(n as int)),
        decreases n,
    {
        assert(cs@.take(n as int).drop_last() =~= cs@.take(n - 1));
        n -= 1;
    }
    let text = string_of(&cs, 0, n);
    assert(text@ =~= cs@.take(n as int));
    text
}

/// The file that an answer is written to before it takes its place, so that a
/// reader never sees half of it.
pub fn answer_tmp(file: &str) -> (r: String)
    ensures
        r@ == file@ + ".tmp"@,
{
    let mut s = copy(file);
    append(&mut s, ".tmp");
    s
}

// ---- agents ----------------------------------------------------------------------

/// What a list command wrote, read as JSON; its exit code does not matter.
pub fn list_reply(out: &Option<Output>) -> (r: Option<Value>)
    ensures
        opt_json(r) == (match *out {
            Some(out) => parsed_text(trim(lossy_text(out.stdout@))),
            None => None,
        }),
{
    match out {
        Some(out) => {
            let text = lossy(out.stdout.as_slice());
            let text = trimmed(text.as_str());
            from_text(text.as_str())
        },
        None => None,
    }
}

/// The arguments that list all tabs.
pub fn tab_list_args() -> (r: Vec<String>)
    ensures
        strs(r@) == seq!["tab"@, "list"@],
{
    let mut v = no_args();
    arg(&mut v, "tab");
    arg(&mut v, "list");
    assert(strs(v@) =~= seq!["tab"@, "list"@]);
    v
}

/// The label of the last of the first `n` tabs that is called `tab`.
pub open spec fn tab_label(tabs: Seq<Json>, tab: Seq<char>, n: int) -> Seq<char>
    decreases n,
{
    if n <= 0 {
        Seq::empty()
    } else if tabs[n - 1].text_or_empty("tab_id"@) == tab {
        tabs[n - 1].text_or_empty("label"@)
    } else {
        tab_label(tabs, tab, n - 1)
    }
}

/// The part of a path behind its last slash.
pub open spec fn base_name(p: Seq<char>) -> Seq<char> {
    p.skip(rfind(p, '/', p.len() as int) + 1)
}

/// Whether a pane of the workspace runs an agent.
pub open spec fn runs_agent(pane: Json, workspace: Seq<char>) -> bool {
    pane.text_or_empty("workspace_id"@) == workspace && pane.text_or_empty("agent"@).len() > 0
}

pub open spec fn pane_agent(pane: Json, tabs: Seq<Json>) -> AgentView {
    AgentView {
        pane: pane.text_or_empty("pane_id"@),
        agent: pane.text_or_empty("agent"@),
        status: pane.text_or_empty("agent_status"@),
        tab: tab_label(tabs, pane.text_or_empty("tab_id"@), tabs.len() as int),
        cwd: base_name(pane.text_or_empty("cwd"@)),
    }
}

/// The agents among the first `n` panes.
pub open spec fn agents_among(
    panes: Seq<Json>,
    tabs: Seq<Json>,
    workspace: Seq<char>,
    n: int,
) -> Seq<AgentView>
    decreases n,
{
    if n <= 0 {
        Seq::empty()
    } else if runs_agent(panes[n - 1], workspace) {
        agents_among(panes, tabs, workspace, n - 1).push(pane_agent(panes[n - 1], tabs))
    } else {
        agents_among(panes, tabs, workspace, n - 1)
    }
}

/// The tabs of a reply that lists them; none when there was no such reply.
pub open spec fn reply_tabs(reply: Option<Json>) -> Seq<Json> {
    match reply {
        Some(j) => match j.field("result"@) {
            Some(result) => match result.array_field("tabs"@) {
                Some(tabs) => tabs,
                None => Seq::empty(),
            },
            None => Seq::empty(),
        },
        None => Seq::empty(),
    }
}

/// The agents of a workspace.
pub open spec fn agents_of(tabs: Option<Json>, panes: Option<Json>, workspace: Seq<char>) -> Seq<
    AgentView,
> {
    match panes {
        Some(j) => match reply_panes(j) {
            Some(panes) => agents_among(panes, reply_tabs(tabs), workspace, panes.len() as int),
            None => Seq::empty(),
        },
        None => Seq::empty(),
    }
}

fn base_name_of(p: &str) -> (r: String)
    ensures
        r@ == base_name(p@),
{
    let cs = chars_of(p);
    proof {
        crate::path::lemma_rfind(p@, '/', p@.len() as int);
    }
    match rfind_char(&cs, '/', cs.len()) {
        Some(i) => {
            let s = string_of(&cs, i + 1, cs.len());
            assert(s@ =~= base_name(p@));
            s
        },
        None => {
            assert(base_name(p@) =~= p@);
            copy(p)
        },
    }
}

/// The label of a tab.
fn label_in(tabs: Option<&Vec<Value>>, tab: &str) -> (r: String)
    ensures
        r@ == (match tabs {
            Some(tabs) => tab_label(items_of(tabs@), tab@, tabs@.len() as int),
            None => Seq::empty(),
        }),
{
    let list = match tabs {
        Some(list) => list,
        None => {
            return String::new();
        },
    };
    let ghost all = items_of(list@);
    let mut n = list.len();
    while n > 0
        invariant
            n <= list@.len(),
            tabs == Some(list),
            all == items_of(list@),
            tab_label(all, tab@, list@.len() as int) == tab_label(all, tab@, n as int),
        decreases n,
    {
        assert(all[n - 1] == json_of(list@[n - 1]));
        let t = &list[n - 1];
        let id = text_or_empty(t, "tab_id");
        if same(id.as_str(), tab) {
            return text_or_empty(t, "label");
        }
        n -= 1;
    }
    String::new()
}

fn tabs_in<'a>(reply: Option<&'a Value>) -> (r: Option<&'a Vec<Value>>)
    ensures
        reply_tabs(ref_json(reply)) == (match r {
            Some(tabs) => items_of(tabs@),
            None => Seq::empty(),
        }),
{
    match reply {
        Some(v) => match get(v, "result") {
            Some(result) => array_field(result, "tabs"),
            None => None,
        },
        None => None,
    }
}

proof fn lemma_agents_push(v: Seq<Agent>, a: Agent)
    ensures
        agents_view(v.push(a)) == agents_view(v).push(a@),
{
    assert(agents_view(v.push(a)) =~= agents_view(v).push(a@));
}

/// The agent panes of the workspace, from the host's lists of tabs and panes.
pub fn workspace_agents(tabs: Option<&Value>, panes: Option<&Value>, workspace: &str) -> (r: Vec<
    Agent,
>)
    ensures
        agents_view(r@) == agents_of(
            ref_json(tabs),
            ref_json(panes),
            workspace@,
        ),
{
    let tabs_list = tabs_in(tabs);
    let ghost tab_items = reply_tabs(ref_json(tabs));
    let mut out: Vec<Agent> = Vec::new();
    assert(agents_view(out@) =~= Seq::<AgentView>::empty());
    let panes_list = match panes {
        Some(v) => match listed_panes(v) {
            Some(list) => list,
            None => {
                return out;
            },
        },
        None => {
            return out;
        },
    };
    let ghost all = items_of(panes_list@);
    let mut i: usize = 0;
    while i < panes_list.len()
        invariant
            i <= panes_list@.len(),
            all == items_of(panes_list@),
            tab_items == (match tabs_list {
                Some(t) => items_of(t@),
                None => Seq::empty(),
            }),
            agents_view(out@) == agents_among(all, tab_items, workspace@, i as int),
        decreases panes_list@.len() - i,
    {
        assert(all[i as int] == json_of(panes_list@[i as int]));
        let pane = &panes_list[i];
        let here = text_or_empty(pane, "workspace_id");
        let agent = text_or_empty(pane, "agent");
        if same(here.as_str(), workspace) && !agent.as_str().is_empty() {
            let tab_id = text_or_empty(pane, "tab_id");
            let cwd = text_or_empty(pane, "cwd");
            let a = Agent {
                pane: text_or_empty(pane, "pane_id"),
                agent,
                status: text_or_empty(pane, "agent_status"),
                tab: label_in(tabs_list, tab_id.as_str()),
                cwd: base_name_of(cwd.as_str()),
            };
            proof {
                assert(a@ =~= pane_agent(all[i as int], tab_items));
                lemma_agents_push(out@, a);
            }
            out.push(a);
        }
        i += 1;
    }
    out
}

/// Every agent that is offered is in the workspace: there is a pane of it that
/// runs that agent.
pub proof fn law_offered_agents_are_in_the_workspace(
    panes: Seq<Json>,
    tabs: Seq<Json>,
    workspace: Seq<char>,
    n: int,
    i: int,
) -> (k: int)
    requires
        0 <= i < agents_among(panes, tabs, workspace, n).len(),
    ensures
        0 <= k < n,
        runs_agent(panes[k], workspace),
        agents_among(panes, tabs, workspace, n)[i] == pane_agent(panes[k], tabs),
    decreases n,
{
    let before = agents_among(panes, tabs, workspace, n - 1);
    if i < before.len() {
        law_offered_agents_are_in_the_workspace(panes, tabs, workspace, n - 1, i)
    } else {
        n - 1
    }
}

/// The name of the agent in a pane; the pane itself when it is unknown.
pub open spec fn name_in(agents: Seq<AgentView>, pane: Seq<char>, i: int) -> Seq<char>
    decreases agents.len() - i,
{
    if i < 0 || i >= agents.len() {
        pane
    } else if agents[i].pane == pane {
        agents[i].agent
    } else {
        name_in(agents, pane, i + 1)
    }
}

pub fn agent_name(agents: &Vec<Agent>, pane: &str) -> (r: String)
    ensures
        r@ == name_in(agents_view(agents@), pane@, 0),
{
    let ghost all = agents_view(agents@);
    let mut i: usize = 0;
    while i < agents.len()
        invariant
            i <= agents@.len(),
            all == agents_view(agents@),
            name_in(all, pane@, 0) == name_in(all, pane@, i as int),
        decreases agents@.len() - i,
    {
        assert(all[i as int] == agents@[i as int]@);
        if same(agents[i].pane.as_str(), pane) {
            return copy(agents[i].agent.as_str());
        }
        i += 1;
    }
    copy(pane)
}

// ---- handing the agents to the picker --------------------------------------------

pub open spec fn row_view(r: (String, String, String, String, String)) -> AgentView {
    AgentView { pane: r.0@, agent: r.1@, status: r.2@, tab: r.3@, cwd: r.4@ }
}

pub open spec fn rows_view(v: Seq<(String, String, String, String, String)>) -> Seq<AgentView> {
    v.map_values(|r: (String, String, String, String, String)| row_view(r))
}

/// An agent as the picker is told of it.
pub open spec fn agent_json(a: AgentView) -> Json {
    Json::Array(
        seq![
            Json::Text(a.pane),
            Json::Text(a.agent),
            Json::Text(a.status),
            Json::Text(a.tab),
            Json::Text(a.cwd),
        ],
    )
}

pub open spec fn agents_json(agents: Seq<AgentView>) -> Json {
    Json::Array(agents.map_values(|a: AgentView| agent_json(a)))
}

/// `serde_json::to_string` of rows of texts: it succeeds, and what it writes is
/// read back by `serde_json::from_str` as an array of arrays of these texts.
#[verifier::external_body]
fn to_text(rows: &Vec<(String, String, String, String, String)>) -> (r: Option<String>)
    ensures
        r is Some,
        parsed_text(r->Some_0@) == Some(agents_json(rows_view(rows@))),
{
    serde_json::to_string(rows).ok()
}

/// The agents as one text.
pub fn encode_agents(agents: &Vec<Agent>) -> (r: String)
    ensures
        parsed_text(r@) == Some(agents_json(agents_view(agents@))),
{
    let mut rows: Vec<(String, String, String, String, String)> = Vec::new();
    let mut i: usize = 0;
    while i < agents.len()
        invariant
            i <= agents@.len(),
            rows@.len() == i,
            forall|j: int| 0 <= j < i ==> row_view(#[trigger] rows@[j]) == agents@[j]@,
        decreases agents@.len() - i,
    {
        let a = &agents[i];
        rows.push(
            (
                copy(a.pane.as_str()),
                copy(a.agent.as_str()),
                copy(a.status.as_str()),
                copy(a.tab.as_str()),
                copy(a.cwd.as_str()),
            ),
        );
        i += 1;
    }
    assert(rows_view(rows@) =~= agents_view(agents@));
    match to_text(&rows) {
        Some(s) => s,
        None => String::new(),
    }
}

/// An agent out of a row of texts: pane, agent and status, and with them its
/// tab and directory or neither.
pub open spec fn json_agent(j: Json) -> Option<AgentView> {
    match j {
        Json::Array(items) => if items.len() == 3 {
            match (items[0], items[1], items[2]) {
                (Json::Text(pane), Json::Text(agent), Json::Text(status)) => Some(
                    AgentView { pane, agent, status, tab: Seq::empty(), cwd: Seq::empty() },
                ),
                _ => None,
            }
        } else if items.len() == 5 {
            match (items[0], items[1], items[2], items[3], items[4]) {
                (
                    Json::Text(pane),
                    Json::Text(agent),
                    Json::Text(status),
                    Json::Text(tab),
                    Json::Text(cwd),
                ) => Some(AgentView { pane, agent, status, tab, cwd }),
                _ => None,
            }
        } else {
            None
        },
        _ => None,
    }
}

/// The first `n` agents; `None` when one is malformed.
pub open spec fn json_agents(items: Seq<Json>, n: int) -> Option<Seq<AgentView>>
    decreases n,
{
    if n <= 0 {
        Some(Seq::empty())
    } else {
        match (json_agents(items, n - 1), json_agent(items[n - 1])) {
            (Some(before), Some(a)) => Some(before.push(a)),
            _ => None,
        }
    }
}

/// The agents in a text that was read; none when anything about it is wrong.
pub open spec fn decoded_agents(j: Option<Json>) -> Seq<AgentView> {
    match j {
        Some(Json::Array(items)) => match json_agents(items, items.len() as int) {
            Some(agents) => agents,
            None => Seq::empty(),
        },
        _ => Seq::empty(),
    }
}

fn text_item(items: &Vec<Value>, i: usize) -> (r: Option<String>)
    requires
        i < items@.len(),
    ensures
        opt_str(r) == items_of(items@)[i as int].text(),
{
    match as_str(&items[i]) {
        Some(s) => Some(copy(s.as_str())),
        None => None,
    }
}

fn decode_agent(value: &Value) -> (r: Option<Agent>)
    ensures
        (match r {
            Some(a) => json_agent(json_of(*value)) == Some(a@),
            None => json_agent(json_of(*value)) is None,
        }),
{
    proof {
        reveal_strlit("");
        assert(""@ =~= Seq::<char>::empty());
    }
    let items = match as_array(value) {
        Some(items) => items,
        None => {
            return None;
        },
    };
    if items.len() == 3 {
        return match (text_item(items, 0), text_item(items, 1), text_item(items, 2)) {
            (Some(pane), Some(agent), Some(status)) => Some(
                Agent { pane, agent, status, tab: copy(""), cwd: copy("") },
            ),
            _ => None,
        };
    }
    if items.len() != 5 {
        return None;
    }
    match (
        text_item(items, 0),
        text_item(items, 1),
        text_item(items, 2),
        text_item(items, 3),
        text_item(items, 4),
    ) {
        (Some(pane), Some(agent), Some(status), Some(tab), Some(cwd)) => Some(
            Agent { pane, agent, status, tab, cwd },
        ),
        _ => None,
    }
}

proof fn lemma_one_malformed(items: Seq<Json>, n: int, m: int)
    requires
        0 <= n <= m,
        json_agents(items, n) is None,
    ensures
        json_agents(items, m) is None,
    decreases m,
{
    if n < m {
        lemma_one_malformed(items, n, m - 1);
    }
}

/// Read the agents that the picker was told of.
pub fn decode_agents(text: &str) -> (r: Vec<Agent>)
    ensures
        agents_view(r@) == decoded_agents(parsed_text(text@)),
{
    let none: Vec<Agent> = Vec::new();
    assert(agents_view(none@) =~= Seq::<AgentView>::empty());
    let value = match from_text(text) {
        Some(v) => v,
        None => {
            return none;
        },
    };
    let items = match as_array(&value) {
        Some(items) => items,
        None => {
            return none;
        },
    };
    let ghost all = items_of(items@);
    let mut out: Vec<Agent> = Vec::new();
    assert(agents_view(out@) =~= Seq::<AgentView>::empty());
    let mut i: usize = 0;
    while i < items.len()
        invariant
            i <= items@.len(),
            all == items_of(items@),
            parsed_text(text@) == Some(Json::Array(all)),
            agents_view(none@) == Seq::<AgentView>::empty(),
            json_agents(all, i as int) == Some(agents_view(out@)),
        decreases items@.len() - i,
    {
        assert(all[i as int] == json_of(items@[i as int]));
        match decode_agent(&items[i]) {
            Some(a) => {
                proof {
                    lemma_agents_push(out@, a);
                }
                out.push(a);
            },
            None => {
                proof {
                    lemma_one_malformed(all, i + 1, all.len() as int);
                }
                return none;
            },
        }
        i += 1;
    }
    out
}

proof fn lemma_rows_decode(agents: Seq<AgentView>, n: int)
    requires
        0 <= n <= agents.len(),
    ensures
        json_agents(agents.map_values(|a: AgentView| agent_json(a)), n) == Some(agents.take(n)),
    decreases n,
{
    if n > 0 {
        lemma_rows_decode(agents, n - 1);
        assert(agents.take(n) =~= agents.take(n - 1).push(agents[n - 1]));
    } else {
        assert(agents.take(0) =~= Seq::<AgentView>::empty());
    }
}

/// The picker offers exactly the agents that it was handed.
pub proof fn law_agents_survive_the_handover(agents: Seq<AgentView>, text: Seq<char>)
    requires
        parsed_text(text) == Some(agents_json(agents)),
    ensures
        decoded_agents(parsed_text(text)) == agents,
{
    lemma_rows_decode(agents, agents.len() as int);
    assert(agents.take(agents.len() as int) =~= agents);
}

// ---- what is read and written ----------------------------------------------------

proof fn lemma_all_numbers(v: Seq<nat>, pieces: Seq<Seq<char>>, n: int)
    requires
        0 <= n <= v.len() == pieces.len(),
        forall|i: int|
            0 <= i < v.len() ==> #[trigger] v[i] <= u32::MAX && pieces[i] == dec(v[i]),
    ensures
        numbers(pieces, n) == v.take(n),
    decreases n,
{
    if n > 0 {
        lemma_all_numbers(v, pieces, n - 1);
        assert(v[n - 1] <= u32::MAX && pieces[n - 1] == dec(v[n - 1]));
        law_written_numbers_are_read_back(v[n - 1], u32::MAX as nat);
        assert(v.take(n) =~= v.take(n - 1).push(v[n - 1]));
    } else {
        assert(v.take(0) =~= Seq::<nat>::empty());
    }
}

/// A version has popups where it is at least 0.7.4, its numbers compared from
/// the first to the third.
pub proof fn law_popups_came_with_a_version(major: nat, minor: nat, patch: nat)
    requires
        major <= u32::MAX,
        minor <= u32::MAX,
        patch <= u32::MAX,
    ensures
        has_popups(join(seq![dec(major), dec(minor), dec(patch)], "."@)) <==> major > 0 || minor > 7
            || (minor == 7 && patch >= 4),
{
    reveal_strlit(".");
    assert("."@ =~= seq!['.']);
    let v = seq![major, minor, patch];
    let pieces = seq![dec(major), dec(minor), dec(patch)];
    assert forall|i: int| 0 <= i < pieces.len() implies !(#[trigger] pieces[i]).contains('.') by {
        lemma_dec_is_plain(v[i]);
        assert forall|k: int| 0 <= k < pieces[i].len() implies pieces[i][k] != '.' by {
            assert(is_digit(dec(v[i])[k]));
        }
    }
    law_splitting_undoes_joining(pieces, '.');
    assert forall|i: int| 0 <= i < v.len() implies #[trigger] v[i] <= u32::MAX && pieces[i] == dec(
        v[i],
    ) by {}
    lemma_all_numbers(v, pieces, 3);
    assert(v.take(3) =~= v);
}

/// Every variable is handed over as one argument of its name, an equals sign and
/// its value, behind one that says so.
pub proof fn law_every_variable_is_handed_over(envs: Seq<(Seq<char>, Seq<char>)>, n: int, i: int)
    requires
        0 <= i < n <= envs.len(),
    ensures
        env_args(envs, n).len() == 2 * n,
        env_args(envs, n)[2 * i] == "--env"@,
        env_args(envs, n)[2 * i + 1] == envs[i].0 + "="@ + envs[i].1,
    decreases n,
{
    if i < n - 1 {
        law_every_variable_is_handed_over(envs, n - 1, i);
    } else if n > 1 {
        law_every_variable_is_handed_over(envs, n - 1, 0);
    } else {
        assert(env_args(envs, 0).len() == 0);
    }
}

/// An answer is read without the newlines behind it, and otherwise whole.
pub proof fn law_an_answer_is_read_whole(s: Seq<char>, n: nat)
    requires
        s.len() > 0 ==> s.last() != '\n',
    ensures
        without_newlines(s + Seq::new(n, |i: int| '\n')) == s,
    decreases n,
{
    let whole = s + Seq::new(n, |i: int| '\n');
    if n == 0 {
        assert(whole =~= s);
    } else {
        law_an_answer_is_read_whole(s, (n - 1) as nat);
        assert(whole.drop_last() =~= s + Seq::new((n - 1) as nat, |i: int| '\n'));
    }
}

proof fn lemma_last_slash(p: Seq<char>, at: int, n: int)
    requires
        0 <= at < n <= p.len(),
        p[at] == '/',
        forall|k: int| at < k < n ==> #[trigger] p[k] != '/',
    ensures
        rfind(p, '/', n) == at,
    decreases n,
{
    if at < n - 1 {
        lemma_last_slash(p, at, n - 1);
    }
}

/// A directory goes by the name behind its last slash.
pub proof fn law_a_directory_goes_by_its_last_name(dir: Seq<char>, name: Seq<char>)
    requires
        !name.contains('/'),
    ensures
        base_name(dir.push('/') + name) == name,
{
    let p = dir.push('/') + name;
    assert forall|k: int| dir.len() < k < p.len() implies #[trigger] p[k] != '/' by {
        assert(p[k] == name[k - dir.len() - 1]);
        assert(name.contains(p[k]));
    }
    assert(p[dir.len() as int] == '/');
    lemma_last_slash(p, dir.len() as int, p.len() as int);
    assert(p.skip(dir.len() as int + 1) =~= name);
}

/// Every pane of the workspace that runs an agent is offered.
pub proof fn law_every_agent_is_offered(
    panes: Seq<Json>,
    tabs: Seq<Json>,
    workspace: Seq<char>,
    n: int,
    k: int,
)
    requires
        0 <= k < n <= panes.len(),
        panes[k].text_or_empty("workspace_id"@) == workspace,
        panes[k].text_or_empty("agent"@).len() > 0,
    ensures
        exists|i: int|
            0 <= i < agents_among(panes, tabs, workspace, n).len() && (#[trigger] agents_among(
                panes,
                tabs,
                workspace,
                n,
            )[i]).pane == panes[k].text_or_empty("pane_id"@) && agents_among(
                panes,
                tabs,
                workspace,
                n,
            )[i].agent == panes[k].text_or_empty("agent"@),
    decreases n,
{
    let now = agents_among(panes, tabs, workspace, n);
    let before = agents_among(panes, tabs, workspace, n - 1);
    if k < n - 1 {
        law_every_agent_is_offered(panes, tabs, workspace, n - 1, k);
        let i = choose|i: int|
            0 <= i < before.len() && (#[trigger] before[i]).pane == panes[k].text_or_empty(
                "pane_id"@,
            ) && before[i].agent == panes[k].text_or_empty("agent"@);
        assert(now[i] == before[i]);
    } else {
        assert(now[now.len() - 1].pane == panes[k].text_or_empty("pane_id"@));
    }
}

/// A popup is told where its answer goes and how large it is.
pub proof fn law_a_popup_is_told_where_to_answer(
    entrypoint: Seq<char>,
    answer: Seq<char>,
    envs: Seq<(Seq<char>, Seq<char>)>,
    width: u16,
    height: u16,
)
    ensures
        ({
            let args = popup_args(entrypoint, answer, envs, width, height);
            let follows = |option: Seq<char>, value: Seq<char>|
                exists|k: int|
                    0 <= k && k + 1 < args.len() && #[trigger] args[k] == option && args[k + 1]
                        == value;
            &&& follows("--entrypoint"@, entrypoint)
            &&& follows("--placement"@, "popup"@)
            &&& follows("--width"@, dec(width as nat))
            &&& follows("--height"@, dec(height as nat))
            &&& follows("--env"@, "GITVIEW_ANSWER_FILE="@ + answer)
        }),
{
    let args = popup_args(entrypoint, answer, envs, width, height);
    assert(args[5] == "--entrypoint"@ && args[6] == entrypoint);
    assert(args[7] == "--placement"@ && args[8] == "popup"@);
    assert(args[10] == "--width"@ && args[11] == dec(width as nat));
    assert(args[12] == "--height"@ && args[13] == dec(height as nat));
    assert(args[14] == "--env"@ && args[15] == "GITVIEW_ANSWER_FILE="@ + answer);
}

/// A pane is called by the agent that runs in it, and by its own name when
/// there is none.
pub proof fn law_a_pane_is_called_by_its_agent(agents: Seq<AgentView>, pane: Seq<char>, i: int)
    requires
        0 <= i <= agents.len(),
    ensures
        forall|k: int|
            i <= k < agents.len() && (#[trigger] agents[k]).pane == pane && (forall|j: int|
                i <= j < k ==> (#[trigger] agents[j]).pane != pane) ==> name_in(agents, pane, i)
                == agents[k].agent,
        (forall|j: int| i <= j < agents.len() ==> (#[trigger] agents[j]).pane != pane) ==> name_in(
            agents,
            pane,
            i,
        ) == pane,
    decreases agents.len() - i,
{
    if i < agents.len() && agents[i].pane != pane {
        law_a_pane_is_called_by_its_agent(agents, pane, i + 1);
    }
}

/// The last word of a line is found behind whatever stands before it, with or
/// without a line feed at the end.
pub proof fn law_the_last_word_is_found(before: Seq<char>, word: Seq<char>)
    requires
        word.len() > 0,
        forall|i: int| 0 <= i < word.len() ==> !is_space(#[trigger] word[i]),
        before.len() > 0 ==> is_space(before.last()),
    ensures
        last_word(before + word) == Some(word),
        last_word((before + word).push('\n')) == Some(word),
{
    let t = before + word;
    assert(t.last() == word.last());
    assert(trim_end(t) == t);
    assert(t.push('\n').drop_last() =~= t);
    lemma_word_starts(before, word, t.len() as int);
    assert(t.skip(before.len() as int) =~= word);
}

proof fn lemma_word_starts(before: Seq<char>, word: Seq<char>, n: int)
    requires
        forall|i: int| 0 <= i < word.len() ==> !is_space(#[trigger] word[i]),
        before.len() > 0 ==> is_space(before.last()),
        before.len() <= n <= before.len() + word.len(),
    ensures
        word_start(before + word, n) == before.len(),
    decreases n,
{
    let t = before + word;
    if n > before.len() {
        assert(t[n - 1] == word[n - 1 - before.len()]);
        lemma_word_starts(before, word, n - 1);
    } else if n > 0 {
        assert(t[n - 1] == before.last());
    }
}

} // verus!
