//! Remote control of the editor that runs on the preview pane: the arguments
//! of each request, and what the answers mean.
use crate::git::{lossy, lossy_text};
use crate::path::{with_ext, with_extension};
use crate::repo::Output;
use crate::text::{
    arg, contains_str, has_substring, lemma_strs_push, no_args, occurs_at, opt_str, push_all, same,
    strs,
    trim, trimmed,
};
use vstd::prelude::*;

verus! {

broadcast use {vstd::string::group_string_axioms, lemma_strs_push};

/// The editor's remote socket, derived from the view's socket.
pub fn server_path(socket: Option<&str>) -> (r: Option<String>)
    ensures
        opt_str(r) == (match socket {
            Some(s) => Some(with_ext(s@, "nvim"@)),
            None => None,
        }),
{
    match socket {
        Some(s) => Some(with_extension(s, "nvim")),
        None => None,
    }
}

/// Whether the editor can be driven from outside: it is nvim, and its socket is
/// there.
pub open spec fn remotable(editor: Seq<char>, live: bool) -> bool {
    contains_str(editor, "nvim"@) && live
}

pub open spec fn opt_strs(v: Option<Vec<String>>) -> Option<Seq<Seq<char>>> {
    match v {
        Some(v) => Some(strs(v@)),
        None => None,
    }
}

/// The arguments of a remote request; `None` when the editor cannot be driven.
/// `server` is the socket and whether it is there.
pub fn remote(editor: &str, server: Option<(&str, bool)>, args: &Vec<String>) -> (r: Option<
    Vec<String>,
>)
    ensures
        opt_strs(r) == (match server {
            Some((path, live)) => if remotable(editor@, live) {
                Some(seq!["--server"@, path@] + strs(args@))
            } else {
                None
            },
            None => None,
        }),
{
    if !has_substring(editor, "nvim") {
        return None;
    }
    match server {
        Some((path, live)) => {
            if !live {
                return None;
            }
            let mut v = no_args();
            arg(&mut v, "--server");
            arg(&mut v, path);
            push_all(&mut v, args);
            assert(strs(v@) =~= seq!["--server"@, path@] + strs(args@));
            Some(v)
        },
        None => None,
    }
}

pub open spec fn unsaved_expr() -> Seq<char> {
    "len(filter(getbufinfo(), \"v:val.changed\"))"@
}

/// The question how many buffers hold changes.
pub fn unsaved_args() -> (r: Vec<String>)
    ensures
        strs(r@) == seq!["--remote-expr"@, unsaved_expr()],
{
    let mut v = no_args();
    arg(&mut v, "--remote-expr");
    arg(&mut v, "len(filter(getbufinfo(), \"v:val.changed\"))");
    assert(strs(v@) =~= seq!["--remote-expr"@, unsaved_expr()]);
    v
}

/// Whether the editor holds modified buffers; `None` when it did not say.
pub fn has_unsaved(out: &Option<Output>) -> (r: Option<bool>)
    ensures
        r == (match *out {
            Some(out) => if out.ok() {
                let count = trim(lossy_text(out.stdout@));
                Some(count.len() > 0 && count != "0"@)
            } else {
                None
            },
            None => None,
        }),
{
    match out {
        Some(out) => {
            if !out.success() {
                return None;
            }
            let text = lossy(out.stdout.as_slice());
            let count = trimmed(text.as_str());
            Some(!count.as_str().is_empty() && !same(count.as_str(), "0"))
        },
        None => None,
    }
}

pub open spec fn close_keys(save: bool) -> Seq<char> {
    if save {
        "<C-\\><C-n>:wqa<CR>"@
    } else {
        "<C-\\><C-n>:qa!<CR>"@
    }
}

/// The request to quit, with or without saving; `None` when the editor cannot
/// be driven.
pub fn request_close(editor: &str, server: Option<(&str, bool)>, save: bool) -> (r: Option<
    Vec<String>,
>)
    ensures
        opt_strs(r) == (match server {
            Some((path, live)) => if remotable(editor@, live) {
                Some(seq!["--server"@, path@, "--remote-send"@, close_keys(save)])
            } else {
                None
            },
            None => None,
        }),
{
    let mut v = no_args();
    arg(&mut v, "--remote-send");
    if save {
        arg(&mut v, "<C-\\><C-n>:wqa<CR>");
    } else {
        arg(&mut v, "<C-\\><C-n>:qa!<CR>");
    }
    let r = remote(editor, server, &v);
    proof {
        assert(strs(v@) =~= seq!["--remote-send"@, close_keys(save)]);
        if r is Some {
            assert(strs(r->0@) =~= seq![
                "--server"@,
                (server->Some_0).0@,
                "--remote-send"@,
                close_keys(save),
            ]);
        }
    }
    r
}

/// The request to switch to another file; `None` when the editor cannot be
/// driven.
pub fn open_file(editor: &str, server: Option<(&str, bool)>, file: &str) -> (r: Option<Vec<String>>)
    ensures
        opt_strs(r) == (match server {
            Some((path, live)) => if remotable(editor@, live) {
                Some(seq!["--server"@, path@, "--remote"@, file@])
            } else {
                None
            },
            None => None,
        }),
{
    let mut v = no_args();
    arg(&mut v, "--remote");
    arg(&mut v, file);
    let r = remote(editor, server, &v);
    proof {
        assert(strs(v@) =~= seq!["--remote"@, file@]);
        if r is Some {
            assert(strs(r->0@) =~= seq!["--server"@, (server->Some_0).0@, "--remote"@, file@]);
        }
    }
    r
}

/// Whether a request was delivered.
pub fn delivered(out: &Option<Output>) -> (r: bool)
    ensures
        r == (match *out {
            Some(out) => out.ok(),
            None => false,
        }),
{
    match out {
        Some(out) => out.success(),
        None => false,
    }
}

/// The editor is told to write its files exactly where they are to be saved.
pub proof fn law_closing_saves_where_asked(save: bool)
    ensures
        contains_str(close_keys(save), ":wqa<CR>"@) <==> save,
        contains_str(close_keys(save), ":qa!<CR>"@) <==> !save,
{
    reveal_strlit("<C-\\><C-n>:wqa<CR>");
    reveal_strlit("<C-\\><C-n>:qa!<CR>");
    reveal_strlit(":wqa<CR>");
    reveal_strlit(":qa!<CR>");
    let keys = close_keys(save);
    assert(":wqa<CR>"@.len() == 8 && ":qa!<CR>"@.len() == 8);
    assert(keys.len() == 18);
    assert(":wqa<CR>"@[1] == 'w' && ":qa!<CR>"@[1] == 'q' && ":qa!<CR>"@[3] == '!');
    if save {
        assert(keys.subrange(10, 18) =~= ":wqa<CR>"@);
        assert(occurs_at(keys, ":wqa<CR>"@, 10));
        assert forall|i: int| !occurs_at(keys, ":qa!<CR>"@, i) by {
            if occurs_at(keys, ":qa!<CR>"@, i) {
                assert(keys.subrange(i, i + 8)[3] == keys[i + 3]);
            }
        }
    } else {
        assert(keys.subrange(10, 18) =~= ":qa!<CR>"@);
        assert(occurs_at(keys, ":qa!<CR>"@, 10));
        assert forall|i: int| !occurs_at(keys, ":wqa<CR>"@, i) by {
            if occurs_at(keys, ":wqa<CR>"@, i) {
                assert(keys.subrange(i, i + 8)[1] == keys[i + 1]);
            }
        }
    }
}

} // verus!
