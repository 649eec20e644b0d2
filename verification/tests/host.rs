//! Talking to the host: its replies, views, popups and the editor.
use gitview::annotate::{picker_key, Agent};
use gitview::herdr_cli::{
    find_nvim_in_tab, focus_args, nvim_candidates, pane_get_args, pane_list_args, pane_nvim_socket, pane_tab,
    process_info_args, socket_dir, socket_for_pid, SocketProbe,
};
use gitview::hostenv::HostEnv;
use gitview::input::{Key, KeyCode};
use gitview::json::{collect_cwds, collect_strs, find_str};
use gitview::logx::state_dir;
use gitview::nvim::{
    delivered, has_unsaved, open_file, remote, request_close, server_path, unsaved_args,
};
use gitview::orchestrate::{
    close, git_toplevel, herdr_json, id_args, inside, list_placement, new_pane, no_repository, open,
    open_pane_args, opened_pane, pane_ids, pane_tab_id, preview_placement, repo_hash,
    resolve_repo, run_json, socket_path, state_path, swap_args, toggle, toplevel_args,
    unknown_pane, Search, ViewAction,
};
use gitview::placeholder::{env_keys, lines};
use gitview::popup::{
    agent_name, answer_file, answer_tmp, decode_agents, encode_agents, poll, spawn, supported,
    workspace_agents,
};
use gitview::repo::Output;
use serde_json::Value;

#[test]
fn collect_cwds_matches_real_action_context_keys() {
    // Real shape captured from herdr 0.7.3 (see debug.log / contracts doc).
    let ctx: Value = serde_json::from_str(
        r#"{
            "workspace_id": "wF",
            "workspace_cwd": "/repo/from-workspace",
            "tab_id": "wF:t2",
            "focused_pane_id": "wF:p3",
            "focused_pane_cwd": "/repo/from-pane",
            "invocation_source": "cli"
        }"#,
    )
    .unwrap();
    let mut out = Vec::new();
    collect_cwds(&ctx, &mut out);
    out.sort();
    assert_eq!(
        out,
        vec![
            String::from("/repo/from-pane"),
            String::from("/repo/from-workspace"),
        ]
    );
}

#[test]
fn collect_cwds_ignores_non_cwd_keys_and_recurses() {
    let ctx: Value =
        serde_json::from_str(r#"{"nested": [{"cwd": "/a", "label": "x"}], "repo_root": "/b"}"#)
            .unwrap();
    let mut out = Vec::new();
    collect_cwds(&ctx, &mut out);
    out.sort();
    assert_eq!(out, vec![String::from("/a"), String::from("/b")]);
}

fn value(text: &str) -> Value {
    serde_json::from_str(text).unwrap()
}

fn output(code: i32, stdout: &str, stderr: &str) -> Output {
    Output { code: Some(code), stdout: stdout.into(), stderr: stderr.into() }
}

fn words(v: &[&str]) -> Vec<String> {
    v.iter().map(|s| s.to_string()).collect()
}

// ---- searching replies -----------------------------------------------------

#[test]
fn the_first_string_is_found_depth_first() {
    let v = value(r#"{"id":"x","result":{"plugin_pane":{"pane":{"pane_id":"w:p1","tab_id":"w:t"}}}}"#);
    assert_eq!(find_str(&v, "pane_id").map(String::as_str), Some("w:p1"));
    assert_eq!(find_str(&v, "nothing"), None);
    // An own field comes before what is nested, whatever the order.
    let v = value(r#"{"a":{"k":"inner"},"k":"own"}"#);
    assert_eq!(find_str(&v, "k").map(String::as_str), Some("own"));
    // A field that is no string does not count.
    let v = value(r#"[{"k":1},{"z":{"k":"deep"}}]"#);
    assert_eq!(find_str(&v, "k").map(String::as_str), Some("deep"));
}

#[test]
fn what_is_found_is_among_what_is_collected() {
    let v = value(r#"{"result":{"panes":[{"pane_id":"a"},{"pane_id":"b","x":{"pane_id":"c"}}]}}"#);
    let mut ids = Vec::new();
    collect_strs(&v, "pane_id", &mut ids);
    assert_eq!(ids, words(&["a", "b", "c"]));
    assert!(ids.contains(find_str(&v, "pane_id").unwrap()));
}

#[test]
fn replies_that_are_no_json_hold_nothing() {
    let none = herdr_json(&output(0, "not json", "")).unwrap();
    assert!(none.is_none());
    assert_eq!(opened_pane(&none), None);
    assert_eq!(pane_ids(&none), Vec::<String>::new());
    assert_eq!(pane_tab_id(&none).unwrap_err(), "no tab_id in `herdr pane get` reply");

    let some = herdr_json(&output(0, "\n {\"result\":{\"tab_id\":\"t9\"}} \n", "")).unwrap();
    assert_eq!(pane_tab_id(&some).unwrap(), "t9");
    assert_eq!(herdr_json(&output(1, "{}", " gone \n")).unwrap_err(), "gone");
}

#[test]
fn questions_that_fail_have_no_answer() {
    assert!(run_json(&None).is_none());
    assert!(run_json(&Some(output(1, "{}", ""))).is_none());
    assert!(run_json(&Some(output(0, "{", ""))).is_none());
    let v = run_json(&Some(output(0, r#"{"result":{"pane":{"tab_id":"t1"}}}"#, ""))).unwrap();
    assert_eq!(pane_tab(&v).as_deref(), Some("t1"));
    // Bytes that are no UTF-8 are no JSON.
    let bad = Output { code: Some(0), stdout: vec![b'"', 0xff, b'"'], stderr: Vec::new() };
    assert!(run_json(&Some(bad)).is_none());
}

// ---- views -----------------------------------------------------------------

#[test]
fn toggling_opening_and_closing() {
    assert_eq!(toggle(None, false), ViewAction::Open);
    assert_eq!(toggle(Some(true), true), ViewAction::Close);
    assert_eq!(toggle(Some(true), false), ViewAction::Focus);
    assert_eq!(toggle(Some(false), false), ViewAction::CleanThenOpen);
    assert_eq!(toggle(Some(false), true), ViewAction::CleanThenOpen);
    assert_eq!(open(Some(true)), ViewAction::Nothing);
    assert_eq!(open(Some(false)), ViewAction::CleanThenOpen);
    assert_eq!(open(None), ViewAction::Open);
    assert_eq!(close(Some(false)), ViewAction::Close);
    assert_eq!(close(None), ViewAction::Nothing);
}

#[test]
fn a_toggle_knows_whether_it_is_inside() {
    let context = r#"{"workspace_id":"wF","tab_id":"wF:t2","focused_pane_id":"wF:p3"}"#;
    assert!(inside("wF:t2", Some(context), None));
    assert!(!inside("wF:t3", Some(context), Some("wF:t3")), "the context comes first");
    assert!(inside("wF:t3", Some("{}"), Some("wF:t3")));
    assert!(inside("wF:t3", None, Some("wF:t3")));
    assert!(!inside("wF:t3", Some("no json"), None));
}

#[test]
fn a_repository_hash_is_fnv_1a_in_hex() {
    assert_eq!(repo_hash(""), "cbf29ce484222325");
    assert_eq!(repo_hash("a"), "af63dc4c8601ec8c");
    assert_eq!(repo_hash("foobar"), "85944171f73967e8");
    assert_eq!(state_path("/s", "foobar"), "/s/views/85944171f73967e8.json");
    assert_eq!(socket_path("/s", "foobar"), "/s/views/85944171f73967e8.sock");
}

#[test]
fn the_state_directory() {
    assert_eq!(state_dir(Some("/plugin"), Some("/home/me")), "/plugin");
    assert_eq!(state_dir(None, Some("/home/me")), "/home/me/.local/state/herdr-gitview");
    assert_eq!(state_dir(None, None), "/tmp/.local/state/herdr-gitview");
}

#[test]
fn a_pane_is_opened_with_its_environment() {
    let args = open_pane_args(
        "/repo",
        "/s.sock",
        "list",
        &list_placement("p1"),
        &vec![("GITVIEW_PREVIEW_PANE".to_string(), "p1".to_string())],
    );
    assert_eq!(
        args,
        words(&[
            "plugin", "pane", "open", "--plugin", "chmarax.gitview", "--entrypoint", "list",
            "--cwd", "/repo", "--env", "GITVIEW_REPO=/repo", "--env", "GITVIEW_SOCKET=/s.sock",
            "--env", "GITVIEW_PREVIEW_PANE=p1", "--placement", "split", "--direction", "right",
            "--target-pane", "p1", "--focus",
        ])
    );
    assert_eq!(preview_placement(), words(&["--placement", "tab", "--no-focus"]));
    assert_eq!(
        swap_args("p1", "p2"),
        words(&["pane", "swap", "--source-pane", "p1", "--target-pane", "p2"])
    );
    assert_eq!(id_args("tab", "close", "t1"), words(&["tab", "close", "t1"]));
}

#[test]
fn a_new_pane_is_one_that_was_not_there() {
    assert_eq!(new_pane(&words(&["a", "b"]), &words(&["b", "c", "a"])).as_deref(), Some("c"));
    assert_eq!(new_pane(&words(&["a"]), &words(&["a"])), None);
    assert_eq!(unknown_pane("list"), "could not determine pane id for new list pane");
}

#[test]
fn the_repository_is_looked_for_in_order() {
    assert!(matches!(
        resolve_repo(Some("/given"), Some("{}"), Some("/cwd")),
        Search::Given(r) if r == "/given"
    ));
    let dirs = match resolve_repo(None, Some(r#"{"focused_pane_cwd":"/pane"}"#), Some("/cwd")) {
        Search::In(dirs) => dirs,
        other => panic!("{other:?}"),
    };
    assert_eq!(dirs, words(&["/pane", "/cwd"]));
    assert!(matches!(resolve_repo(None, Some("{"), None), Search::In(d) if d.is_empty()));
    assert_eq!(no_repository(2), "not inside a git repository (checked 2 candidate dirs)");
    assert_eq!(git_toplevel(&output(0, "/root\n", "")).as_deref(), Some("/root"));
    assert_eq!(git_toplevel(&output(128, "", "fatal")), None);
    assert_eq!(toplevel_args("/d"), words(&["-C", "/d", "rev-parse", "--show-toplevel"]));
}

// ---- popups ----------------------------------------------------------------

#[test]
fn popups_need_the_host_and_a_recent_version() {
    assert!(supported(true, Some("herdr 0.7.4\n")));
    assert!(supported(true, Some("herdr 0.7.10")));
    assert!(supported(true, Some("herdr 0.8")));
    assert!(supported(true, Some("1")));
    assert!(!supported(true, Some("herdr 0.7.3")));
    assert!(!supported(true, Some("herdr 0.7.4-rc1"))); // the patch is no number
    assert!(!supported(true, Some("   ")));
    assert!(!supported(true, None));
    assert!(!supported(false, Some("herdr 0.7.4")));
}

#[test]
fn a_popup_is_opened_with_its_answer_file() {
    let answer = answer_file("/v/abc.sock", "ask");
    assert_eq!(answer, "/v/abc.ask.answer");
    let args = spawn("ask", &answer, &vec![("K".to_string(), "v".to_string())], 60, 7);
    assert_eq!(
        args,
        words(&[
            "plugin", "pane", "open", "--plugin", "chmarax.gitview", "--entrypoint", "ask",
            "--placement", "popup", "--focus", "--width", "60", "--height", "7", "--env",
            "GITVIEW_ANSWER_FILE=/v/abc.ask.answer", "--env", "K=v",
        ])
    );
    assert_eq!(poll("text\nmore \n\n"), "text\nmore ");
    assert_eq!(answer_tmp("/a"), "/a.tmp");
}

fn agents() -> Vec<Agent> {
    let tabs = value(
        r#"{"result":{"tabs":[{"tab_id":"t1","label":"first"},{"tab_id":"t2","label":"old"},
            {"tab_id":"t2","label":"new"}]}}"#,
    );
    let panes = value(
        r#"{"result":{"panes":[
            {"pane_id":"p1","workspace_id":"w","agent":"alpha","agent_status":"idle",
             "tab_id":"t2","cwd":"/home/me/proj"},
            {"pane_id":"p2","workspace_id":"other","agent":"alpha"},
            {"pane_id":"p3","workspace_id":"w"},
            {"pane_id":"p4","workspace_id":"w","agent":"beta","tab_id":"t9","cwd":"plain"}]}}"#,
    );
    workspace_agents(Some(&tabs), Some(&panes), "w")
}

fn rows(agents: &[Agent]) -> Vec<(&str, &str, &str, &str, &str)> {
    agents
        .iter()
        .map(|a| {
            (a.pane.as_str(), a.agent.as_str(), a.status.as_str(), a.tab.as_str(), a.cwd.as_str())
        })
        .collect()
}

#[test]
fn the_agents_of_the_workspace() {
    assert_eq!(
        rows(&agents()),
        vec![("p1", "alpha", "idle", "new", "proj"), ("p4", "beta", "", "", "plain")]
    );
    assert!(workspace_agents(None, None, "w").is_empty());
    assert_eq!(agent_name(&agents(), "p4"), "beta");
    assert_eq!(agent_name(&agents(), "p9"), "p9");
}

#[test]
fn agents_survive_the_handover() {
    let mut list = agents();
    list[0].cwd = "quote \" and \\ and \n and é".to_string();
    let text = encode_agents(&list);
    assert_ne!(text, "");
    assert_eq!(rows(&decode_agents(&text)), rows(&list));
    assert!(decode_agents("").is_empty());
    assert!(decode_agents(r#"[["a","b","c","d"]]"#).is_empty());
    assert!(decode_agents(r#"[["a","b","c","d","e"],["a","b","c","d",1]]"#).is_empty());
    assert_eq!(decode_agents(r#"[["a","b","c","d","e"]]"#).len(), 1);
}

#[test]
fn an_agent_may_come_without_its_place() {
    let agents = decode_agents(r#"[["p1","alpha","idle"],["p2","beta","working","main","proj"]]"#);
    assert_eq!(
        rows(&agents),
        vec![("p1", "alpha", "idle", "", ""), ("p2", "beta", "working", "main", "proj")]
    );
    let enter = Key::plain(KeyCode::Enter);
    assert_eq!(picker_key(&agents, 0, enter).1.as_deref(), Some("p1\tplace"));
    let shift = Key { shift: true, ..enter };
    assert_eq!(picker_key(&agents, 0, shift).1.as_deref(), Some("p1\tsubmit"));
    assert_eq!(picker_key(&agents, 0, Key::plain(KeyCode::Char('q'))).1.as_deref(), Some("cancel"));
    assert!(decode_agents(r#"[["p1","alpha",3]]"#).is_empty());
    assert!(decode_agents(r#"[["p1","alpha"]]"#).is_empty());
}

// ---- the editor of the tab -------------------------------------------------

#[test]
fn only_other_panes_of_the_tab_are_asked() {
    let v = value(
        r#"{"result":{"panes":[{"pane_id":"own","tab_id":"t"},{"pane_id":"ours","tab_id":"t"},
            {"pane_id":"there","tab_id":"t"},{"pane_id":"away","tab_id":"u"},{"tab_id":"t"}]}}"#,
    );
    assert_eq!(nvim_candidates(&v, "own", &words(&["ours"]), "t"), words(&["there"]));
    assert!(nvim_candidates(&value("{}"), "own", &Vec::new(), "t").is_empty());
}

#[test]
fn the_first_editor_of_the_tab_is_used() {
    let panes = words(&["p1", "p2", "p3"]);
    let sockets = vec![None, Some("/a.sock".to_string()), Some("/b.sock".to_string())];
    let found = find_nvim_in_tab(&panes, &sockets).unwrap();
    assert_eq!((found.pane_id.as_str(), found.socket.as_str()), ("p2", "/a.sock"));
    assert!(find_nvim_in_tab(&panes, &vec![None, None, None]).is_none());
    assert!(find_nvim_in_tab(&Vec::new(), &Vec::new()).is_none());
}

#[test]
fn where_an_editor_may_listen() {
    let v = value(
        r#"{"result":{"process_info":{"foreground_processes":[
            {"name":"sh","pid":1},
            {"name":"nvim","pid":2,"argv":["nvim","--server","/run/n.sock","--remote-ui"]},
            {"name":"nvim","argv":["nvim","--server"]},
            {"name":"nvim","pid":4}]}}}"#,
    );
    let said: Vec<String> = pane_nvim_socket(&v)
        .iter()
        .map(|p| match p {
            SocketProbe::Server(s) => s.clone(),
            SocketProbe::Pid(n) => n.to_string(),
        })
        .collect();
    assert_eq!(said, words(&["/run/n.sock", "2", "4"]));
    assert!(pane_nvim_socket(&value("[]")).is_empty());
    assert_eq!(socket_dir("/run", "me"), "/run/nvim.me");
    assert_eq!(socket_for_pid(42), "nvim.42.0");
    assert_eq!(focus_args("p"), words(&["plugin", "pane", "focus", "p"]));
    assert_eq!(pane_get_args("p"), words(&["pane", "get", "p"]));
    assert_eq!(pane_list_args(), words(&["pane", "list"]));
    assert_eq!(process_info_args("p"), words(&["pane", "process-info", "--pane", "p"]));
}

#[test]
fn the_host_environment() {
    let env = HostEnv::new(None, None, None, Some("/v/abc.sock".to_string()));
    assert_eq!(env.herdr_bin, "herdr");
    assert!(!env.in_herdr());
    assert_eq!(env.nvim_server().as_deref(), Some("/v/abc.nvim"));
    let env = HostEnv::new(Some("/bin/h".into()), Some("p".into()), None, None);
    assert_eq!(env.herdr_bin, "/bin/h");
    assert!(env.in_herdr());
    assert_eq!(env.nvim_server(), None);
    assert_eq!(server_path(Some("/v/abc.sock")).as_deref(), Some("/v/abc.nvim"));
}

#[test]
fn the_editor_is_driven_over_its_socket() {
    let args = words(&["--remote", "f"]);
    assert_eq!(
        remote("/usr/bin/nvim", Some(("/v.nvim", true)), &args),
        Some(words(&["--server", "/v.nvim", "--remote", "f"]))
    );
    assert_eq!(remote("nvim", Some(("/v.nvim", false)), &args), None);
    assert_eq!(remote("vim", Some(("/v.nvim", true)), &args), None);
    assert_eq!(remote("nvim", None, &args), None);
    let server = Some(("/v.nvim", true));
    assert_eq!(
        open_file("nvim", server, "f"),
        Some(words(&["--server", "/v.nvim", "--remote", "f"]))
    );
    assert_eq!(open_file("vim", server, "f"), None);
    assert_eq!(
        unsaved_args(),
        words(&["--remote-expr", r#"len(filter(getbufinfo(), "v:val.changed"))"#])
    );
    let send = |keys| Some(words(&["--server", "/v.nvim", "--remote-send", keys]));
    assert_eq!(request_close("nvim", server, true), send("<C-\\><C-n>:wqa<CR>"));
    assert_eq!(request_close("nvim", server, false), send("<C-\\><C-n>:qa!<CR>"));
    assert_eq!(request_close("nvim", Some(("/v.nvim", false)), false), None);
    assert_eq!(request_close("nvim", None, true), None);
}

#[test]
fn what_the_editor_answers() {
    assert_eq!(has_unsaved(&Some(output(0, "0\n", ""))), Some(false));
    assert_eq!(has_unsaved(&Some(output(0, "", ""))), Some(false));
    assert_eq!(has_unsaved(&Some(output(0, "2\n", ""))), Some(true));
    assert_eq!(has_unsaved(&Some(output(1, "2", ""))), None);
    assert_eq!(has_unsaved(&None), None);
    assert!(delivered(&Some(output(0, "", ""))));
    assert!(!delivered(&Some(output(1, "", ""))));
    assert!(!delivered(&None));
}

#[test]
fn the_stand_in_shows_what_was_set() {
    let shown = lines("list", &vec![Some("p1".to_string()), None], None);
    assert_eq!(shown.len(), env_keys().len() + 4);
    assert_eq!(shown[0], "mode: list");
    assert_eq!(shown[1], "HERDR_PANE_ID=p1");
    assert_eq!(shown[2], "HERDR_TAB_ID=<unset>");
    assert_eq!(shown[7], "GITVIEW_PREVIEW_PANE=<unset>");
    assert_eq!(shown[8], "cwd=<unknown>");
    assert_eq!(shown[10], "press q to close the whole view");
}
