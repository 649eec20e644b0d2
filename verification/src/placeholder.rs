//! A stand-in for a pane: it shows what the host told us, so that every
//! assumption about it is visible on screen.
use crate::text::{append, arg, copy, lemma_strs_push, no_args, opt_str, strs};
use vstd::prelude::*;

verus! {

broadcast use {vstd::string::group_string_axioms, lemma_strs_push};

/// The variables that are shown.
pub open spec fn shown_keys() -> Seq<Seq<char>> {
    seq![
        "HERDR_PANE_ID"@,
        "HERDR_TAB_ID"@,
        "HERDR_WORKSPACE_ID"@,
        "HERDR_PLUGIN_STATE_DIR"@,
        "GITVIEW_REPO"@,
        "GITVIEW_SOCKET"@,
        "GITVIEW_PREVIEW_PANE"@,
    ]
}

pub fn env_keys() -> (r: Vec<String>)
    ensures
        strs(r@) == shown_keys(),
{
    let mut v = no_args();
    arg(&mut v, "HERDR_PANE_ID");
    arg(&mut v, "HERDR_TAB_ID");
    arg(&mut v, "HERDR_WORKSPACE_ID");
    arg(&mut v, "HERDR_PLUGIN_STATE_DIR");
    arg(&mut v, "GITVIEW_REPO");
    arg(&mut v, "GITVIEW_SOCKET");
    arg(&mut v, "GITVIEW_PREVIEW_PANE");
    assert(strs(v@) =~= shown_keys());
    v
}

/// The values of the variables, in the order of `env_keys`.
pub open spec fn env_line(i: int, value: Option<Seq<char>>) -> Seq<char> {
    shown_keys()[i] + "="@ + match value {
        Some(v) => v,
        None => "<unset>"@,
    }
}

pub open spec fn screen(mode: Seq<char>, values: Seq<Option<Seq<char>>>, cwd: Option<Seq<char>>) -> Seq<
    Seq<char>,
> {
    seq!["mode: "@ + mode] + Seq::new(
        shown_keys().len(),
        |i: int|
            env_line(
                i,
                if i < values.len() {
                    values[i]
                } else {
                    None
                },
            ),
    ) + seq![
        "cwd="@ + match cwd {
            Some(dir) => dir,
            None => "<unknown>"@,
        },
        Seq::empty(),
        "press q to close the whole view"@,
    ]
}

pub open spec fn values_view(v: Seq<Option<String>>) -> Seq<Option<Seq<char>>> {
    v.map_values(|x: Option<String>| opt_str(x))
}

/// What the stand-in shows; a value that is missing counts as not set.
pub fn lines(mode: &str, values: &Vec<Option<String>>, cwd: Option<&str>) -> (r: Vec<String>)
    ensures
        strs(r@) == screen(
            mode@,
            values_view(values@),
            match cwd {
                Some(dir) => Some(dir@),
                None => None,
            },
        ),
{
    let ghost shown = values_view(values@);
    let keys = env_keys();
    let mut out = no_args();
    let mut head = copy("mode: ");
    append(&mut head, mode);
    arg(&mut out, head.as_str());
    let ghost all = Seq::new(
        shown_keys().len(),
        |i: int|
            env_line(
                i,
                if i < shown.len() {
                    shown[i]
                } else {
                    None
                },
            ),
    );
    let mut i: usize = 0;
    assert(strs(out@) =~= seq!["mode: "@ + mode@] + all.take(0));
    while i < keys.len()
        invariant
            i <= keys@.len(),
            strs(keys@) == shown_keys(),
            shown == values_view(values@),
            all.len() == keys@.len(),
            forall|j: int|
                0 <= j < all.len() ==> #[trigger] all[j] == env_line(
                    j,
                    if j < shown.len() {
                        shown[j]
                    } else {
                        None
                    },
                ),
            strs(out@) == seq!["mode: "@ + mode@] + all.take(i as int),
        decreases keys@.len() - i,
    {
        assert(strs(keys@)[i as int] == keys@[i as int]@);
        let mut line = copy(keys[i].as_str());
        append(&mut line, "=");
        if i < values.len() {
            assert(shown[i as int] == opt_str(values@[i as int]));
            match &values[i] {
                Some(v) => append(&mut line, v.as_str()),
                None => append(&mut line, "<unset>"),
            }
        } else {
            append(&mut line, "<unset>");
        }
        assert(line@ =~= all[i as int]);
        arg(&mut out, line.as_str());
        i += 1;
        assert(strs(out@) =~= seq!["mode: "@ + mode@] + all.take(i as int));
    }
    assert(all.take(i as int) =~= all);
    let mut last = copy("cwd=");
    match cwd {
        Some(dir) => append(&mut last, dir),
        None => append(&mut last, "<unknown>"),
    }
    arg(&mut out, last.as_str());
    arg(&mut out, "");
    arg(&mut out, "press q to close the whole view");
    proof {
        reveal_strlit("");
        assert(""@ =~= Seq::<char>::empty());
        assert(strs(out@) =~= screen(
            mode@,
            shown,
            match cwd {
                Some(dir) => Some(dir@),
                None => None,
            },
        ));
    }
    out
}

} // verus!
