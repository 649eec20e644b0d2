//! What the preview's event loop decides: how a message from the list is
//! handled, which contents a diff compares, what the editor and git are run
//! with, and what an agent is sent.
use crate::config::Config;
use crate::git::Scope;
use crate::ipc::{infos_view, NoteInfo, NoteInfoView, ToPreview, ToPreviewView};
use crate::path::{join_path, joined_path};
use crate::preview::app::{
    notes_view, Note, NoteView, PopupReq, PreviewApp, PreviewView, ReqView, ShowReq,
};
use crate::text::{
    append, append_dec, contains_str, copy, copy_all, dec, has_substring, lemma_strs_push, same,
    split_first, split_once, strs,
};
use vstd::prelude::*;

verus! {

broadcast use {vstd::string::group_string_axioms, lemma_strs_push};

// ---- messages from the list --------------------------------------------------

impl PreviewView {
    /// The pane after a message of the list. Messages that suspend the pane
    /// are not handled here.
    pub open spec fn told(self, msg: ToPreviewView) -> PreviewView {
        match msg {
            ToPreviewView::Show(req) => PreviewView {
                current: Some(req),
                scroll: if self.shows(req.file) {
                    self.scroll
                } else {
                    0
                },
                ..self
            },
            ToPreviewView::Scroll { delta } => self.scrolled(delta),
            ToPreviewView::Page { down, full } => self.paged(down, full),
            ToPreviewView::Clear => self.cleared(),
            ToPreviewView::AddNote { file, text, cached } => self.file_note_added(
                file,
                text,
                cached,
            ),
            ToPreviewView::FocusNote { id } => self.note_focused(id),
            ToPreviewView::EditNote { id, text } => self.note_edited(id, text),
            ToPreviewView::DeleteNote { id } => self.note_deleted(id),
            ToPreviewView::SendNotes => if self.notes.len() == 0 {
                self.flashed("no notes yet"@)
            } else {
                PreviewView { popup_request: Some(PopupReq::PickAgent), ..self }
            },
            ToPreviewView::Quit => PreviewView { should_quit: true, ..self },
            ToPreviewView::Edit { .. } | ToPreviewView::GitInPane { .. } => self,
        }
    }
}

/// Handle a message of the list; a request comes back where a diff has to be
/// built.
pub fn handle_ipc(app: &mut PreviewApp, msg: ToPreview) -> (r: Option<ShowReq>)
    ensures
        final(app)@ == old(app)@.told(msg@),
        (match (msg, r) {
            (ToPreview::Show(want), Some(req)) => req@ == want@,
            (ToPreview::Show(_), None) => false,
            (_, Some(_)) => false,
            (_, None) => true,
        }),
{
    match msg {
        ToPreview::Show(req) => {
            let again = req.clone();
            app.begin_show(req);
            Some(again)
        },
        ToPreview::Scroll { delta } => {
            app.scroll_by(delta);
            None
        },
        ToPreview::Page { down, full } => {
            app.page(down, full);
            None
        },
        ToPreview::Clear => {
            app.clear();
            None
        },
        ToPreview::AddNote { file, text, cached } => {
            app.add_file_note(file, text, cached);
            None
        },
        ToPreview::FocusNote { id } => {
            app.focus_note(id);
            None
        },
        ToPreview::EditNote { id, text } => {
            app.edit_note(id, text);
            None
        },
        ToPreview::DeleteNote { id } => {
            app.delete_note(id);
            None
        },
        ToPreview::SendNotes => {
            if app.notes.len() == 0 {
                app.flash("no notes yet");
            } else {
                app.popup_request = Some(PopupReq::PickAgent);
            }
            None
        },
        ToPreview::Quit => {
            app.should_quit = true;
            None
        },
        ToPreview::Edit { .. } | ToPreview::GitInPane { .. } => None,
    }
}

// ---- contents ----------------------------------------------------------------

/// Where one side of a diff comes from.
#[derive(Debug)]
pub enum Source {
    /// The file at a revision (`:0` = the index).
    Revision { rev: String, path: String },
    /// The file on disk.
    Worktree { path: String },
}

#[verifier::ext_equal]
pub enum SourceView {
    Revision { rev: Seq<char>, path: Seq<char> },
    Worktree { path: Seq<char> },
}

impl View for Source {
    type V = SourceView;

    open spec fn view(&self) -> SourceView {
        match self {
            Source::Revision { rev, path } => SourceView::Revision { rev: rev@, path: path@ },
            Source::Worktree { path } => SourceView::Worktree { path: path@ },
        }
    }
}

/// Whether a request compares with the merge base.
pub open spec fn wants_merge_base(req: ReqView) -> bool {
    req.commit is None && req.scope == Scope::Branch
}

/// The path that the old side goes by.
pub open spec fn old_path(req: ReqView) -> Seq<char> {
    match req.orig_path {
        Some(p) => p,
        None => req.file,
    }
}

/// The old and the new side of a request: a commit against its parent, the
/// merge base against the working tree, HEAD against the index (staged), or
/// the index against the working tree (unstaged).
pub open spec fn sources(req: ReqView, merge_base: Seq<char>) -> (SourceView, SourceView) {
    match req.commit {
        Some(sha) => (
            SourceView::Revision { rev: sha + "^"@, path: old_path(req) },
            SourceView::Revision { rev: sha, path: req.file },
        ),
        None => if req.scope == Scope::Branch {
            (
                SourceView::Revision { rev: merge_base, path: old_path(req) },
                SourceView::Worktree { path: req.file },
            )
        } else if req.cached {
            (
                SourceView::Revision { rev: "HEAD"@, path: old_path(req) },
                SourceView::Revision { rev: ":0"@, path: req.file },
            )
        } else {
            (
                SourceView::Revision { rev: ":0"@, path: req.file },
                SourceView::Worktree { path: req.file },
            )
        },
    }
}

/// Whether a request compares with the merge base.
pub fn needs_merge_base(req: &ShowReq) -> (r: bool)
    ensures
        r == wants_merge_base(req@),
{
    req.commit.is_none() && req.scope == Scope::Branch
}

/// The configured base branch; `None` = detect it.
pub fn configured_base(cfg: &Config) -> (r: Option<String>)
    ensures
        (match r {
            Some(b) => b@ == cfg@.base && cfg@.base.len() > 0,
            None => cfg@.base.len() == 0,
        }),
{
    if cfg.base.as_str().is_empty() {
        None
    } else {
        Some(copy(cfg.base.as_str()))
    }
}

/// The (old, new) contents that a request compares. A content that does not
/// exist is empty.
pub fn fetch_contents(req: &ShowReq, merge_base: &str) -> (r: (Source, Source))
    ensures
        (r.0@, r.1@) == sources(req@, merge_base@),
{
    let before = match &req.orig_path {
        Some(p) => copy(p.as_str()),
        None => copy(req.file.as_str()),
    };
    let path = copy(req.file.as_str());
    match &req.commit {
        Some(sha) => {
            let mut parent = copy(sha.as_str());
            append(&mut parent, "^");
            (
                Source::Revision { rev: parent, path: before },
                Source::Revision { rev: copy(sha.as_str()), path },
            )
        },
        None => match req.scope {
            Scope::Branch => (
                Source::Revision { rev: copy(merge_base), path: before },
                Source::Worktree { path },
            ),
            Scope::Worktree => if req.cached {
                (
                    Source::Revision { rev: copy("HEAD"), path: before },
                    Source::Revision { rev: copy(":0"), path },
                )
            } else {
                (
                    Source::Revision { rev: copy(":0"), path: copy(req.file.as_str()) },
                    Source::Worktree { path },
                )
            },
        },
    }
}

// ---- editor and git ------------------------------------------------------------

/// What the editor is run with. An nvim is told to listen, so that the list
/// can switch its file; the first changed line is jumped to where it is known.
pub open spec fn editor_args(
    editor: Seq<Seq<char>>,
    server: Option<Seq<char>>,
    line: Option<u32>,
    path: Seq<char>,
) -> Seq<Seq<char>> {
    let listening = match server {
        Some(s) => if editor.len() > 0 && contains_str(editor[0], "nvim"@) {
            editor.push("--listen"@).push(s)
        } else {
            editor
        },
        None => editor,
    };
    let jumping = match line {
        Some(n) => listening.push("+"@ + dec(n as nat)),
        None => listening,
    };
    jumping.push(path)
}

/// The line to jump to when `file` is edited: the first change of the shown
/// diff, where that is the same file's.
pub open spec fn jump_line(s: PreviewView, file: Seq<char>) -> Option<u32> {
    if s.shows(file) {
        s.first_change
    } else {
        None
    }
}

/// What the configured editor is run with on `file`; `server` is the socket
/// to listen on.
pub fn editor_argv(app: &PreviewApp, file: &str, server: &Option<String>) -> (r: Vec<String>)
    ensures
        strs(r@) == editor_args(
            app@.cfg.editor,
            match server {
                Some(s) => Some(s@),
                None => None,
            },
            jump_line(app@, file@),
            join_path(app@.root, file@),
        ),
{
    let mut argv = copy_all(&app.cfg.editor);
    if let Some(s) = server {
        if argv.len() > 0 {
            assert(strs(argv@)[0] == argv@[0]@);
            if has_substring(argv[0].as_str(), "nvim") {
                argv.push(copy("--listen"));
                argv.push(copy(s.as_str()));
            }
        }
    }
    if app.is_showing(file) {
        if let Some(line) = app.first_change {
            let mut plus = copy("+");
            append_dec(&mut plus, line as u64);
            argv.push(plus);
        }
    }
    argv.push(joined_path(app.repo.root.as_str(), file));
    argv
}

/// `git -C <root> <argv…>`, run interactively.
pub fn git_in_pane(root: &str, argv: &Vec<String>) -> (r: Vec<String>)
    ensures
        strs(r@) == seq!["git"@, "-C"@, root@] + strs(argv@),
{
    let mut full: Vec<String> = Vec::new();
    assert(strs(full@) =~= Seq::<Seq<char>>::empty());
    full.push(copy("git"));
    full.push(copy("-C"));
    full.push(copy(root));
    let mut rest = copy_all(argv);
    proof {
        assert(strs(full@ + rest@) =~= strs(full@) + strs(rest@));
        assert(strs(full@) =~= seq!["git"@, "-C"@, root@]);
    }
    full.append(&mut rest);
    full
}

// ---- sending notes ---------------------------------------------------------------

/// One note as an agent reads it: where, what, and the diff lines.
pub open spec fn note_message(n: NoteView) -> Seq<char> {
    let at = if n.end == 0 {
        n.file
    } else {
        n.file + ":"@ + dec(n.start as nat) + "-"@ + dec(n.end as nat)
    };
    let head = at + " — "@ + n.text + "\n"@;
    if n.snippet.len() == 0 {
        head
    } else {
        head + "```diff\n"@ + n.snippet + "```\n"@
    }
}

/// The first `n` notes as one message.
pub open spec fn message_of(notes: Seq<NoteView>, n: int) -> Seq<char>
    decreases n,
{
    if n <= 0 {
        Seq::empty()
    } else {
        message_of(notes, n - 1) + note_message(notes[n - 1])
    }
}

fn append_note(msg: &mut String, n: &Note)
    ensures
        final(msg)@ == old(msg)@ + note_message(n@),
{
    let ghost before = msg@;
    let mut one = copy(n.file.as_str());
    if n.end != 0 {
        append(&mut one, ":");
        append_dec(&mut one, n.start as u64);
        append(&mut one, "-");
        append_dec(&mut one, n.end as u64);
    }
    append(&mut one, " — ");
    append(&mut one, n.text.as_str());
    append(&mut one, "\n");
    if !n.snippet.as_str().is_empty() {
        append(&mut one, "```diff\n");
        append(&mut one, n.snippet.as_str());
        append(&mut one, "```\n");
    }
    append(msg, one.as_str());
}

/// The batched notes as the message typed into an agent's input.
pub fn deliver_notes(notes: &Vec<Note>) -> (r: String)
    ensures
        r@ == message_of(notes_view(notes@), notes@.len() as int),
{
    let ghost all = notes_view(notes@);
    let mut msg = String::new();
    let mut i: usize = 0;
    assert(msg@ =~= Seq::<char>::empty());
    while i < notes.len()
        invariant
            i <= notes@.len(),
            all == notes_view(notes@),
            msg@ == message_of(all, i as int),
        decreases notes@.len() - i,
    {
        assert(all[i as int] == notes@[i as int]@);
        append_note(&mut msg, &notes[i]);
        i += 1;
    }
    msg
}

/// The message of two batches is the message of the one and then that of the other.
pub proof fn law_batches_are_sent_in_order(a: Seq<NoteView>, b: Seq<NoteView>)
    ensures
        message_of(a + b, (a + b).len() as int) == message_of(a, a.len() as int) + message_of(
            b,
            b.len() as int,
        ),
    decreases b.len(),
{
    let whole = a + b;
    if b.len() == 0 {
        assert(whole =~= a);
        assert(message_of(a, a.len() as int) + message_of(b, 0) =~= message_of(a, a.len() as int));
    } else {
        let init = b.drop_last();
        law_batches_are_sent_in_order(a, init);
        lemma_message_prefix(whole, a + init, whole.len() - 1);
        lemma_message_prefix(b, init, b.len() - 1);
        assert(whole[whole.len() - 1] == b.last());
        assert(message_of(whole, whole.len() as int) =~= message_of(a, a.len() as int) + message_of(
            b,
            b.len() as int,
        ));
    }
}

proof fn lemma_message_prefix(x: Seq<NoteView>, y: Seq<NoteView>, n: int)
    requires
        0 <= n <= x.len(),
        n <= y.len(),
        x.take(n) =~= y.take(n),
    ensures
        message_of(x, n) == message_of(y, n),
    decreases n,
{
    if n > 0 {
        assert(x.take(n)[n - 1] == x[n - 1] && y.take(n)[n - 1] == y[n - 1]);
        assert(x.take(n - 1) =~= x.take(n).take(n - 1));
        assert(y.take(n - 1) =~= y.take(n).take(n - 1));
        lemma_message_prefix(x, y, n - 1);
    }
}

/// The message of one note tells where it was taken, what it says and what it
/// was taken on: its file, its first and last line unless it is on the whole
/// file, its text, and its snippet as a diff where it has one.
pub proof fn law_a_note_is_told_whole(n: NoteView)
    ensures
        n.end > 0 && n.snippet.len() > 0 ==> message_of(seq![n], 1) == n.file + ":"@ + dec(
            n.start as nat,
        ) + "-"@ + dec(n.end as nat) + " — "@ + n.text + "\n```diff\n"@ + n.snippet + "```\n"@,
        n.end > 0 && n.snippet.len() == 0 ==> message_of(seq![n], 1) == n.file + ":"@ + dec(
            n.start as nat,
        ) + "-"@ + dec(n.end as nat) + " — "@ + n.text + "\n"@,
        n.end == 0 && n.snippet.len() > 0 ==> message_of(seq![n], 1) == n.file + " — "@ + n.text
            + "\n```diff\n"@ + n.snippet + "```\n"@,
        n.end == 0 && n.snippet.len() == 0 ==> message_of(seq![n], 1) == n.file + " — "@ + n.text
            + "\n"@,
{
    reveal_strlit("\n");
    reveal_strlit("```diff\n");
    reveal_strlit("\n```diff\n");
    assert(message_of(seq![n], 0) =~= Seq::<char>::empty());
    assert(message_of(seq![n], 1) =~= note_message(n));
    let at = if n.end == 0 {
        n.file
    } else {
        n.file + ":"@ + dec(n.start as nat) + "-"@ + dec(n.end as nat)
    };
    assert(at + " — "@ + n.text + "\n"@ + "```diff\n"@ + n.snippet + "```\n"@ =~= at + " — "@
        + n.text + "\n```diff\n"@ + n.snippet + "```\n"@);
}

/// Every note of a batch is in its message, behind the notes before it.
pub proof fn law_no_note_is_left_out(notes: Seq<NoteView>, i: int)
    requires
        0 <= i < notes.len(),
    ensures
        message_of(notes, notes.len() as int) == message_of(notes.take(i), i) + message_of(
            seq![notes[i]],
            1,
        ) + message_of(notes.skip(i + 1), notes.len() - i - 1),
{
    let head = notes.take(i);
    let one = seq![notes[i]];
    let tail = notes.skip(i + 1);
    assert(notes =~= head + one + tail);
    law_batches_are_sent_in_order(head + one, tail);
    law_batches_are_sent_in_order(head, one);
}

/// The agent picker's answer: the pane to type into, and whether to submit.
pub open spec fn picked(answer: Seq<char>) -> Option<(Seq<char>, bool)> {
    if answer == "cancel"@ {
        None
    } else {
        match split_first(answer, '\t') {
            Some((pane, mode)) => Some((pane, mode == "submit"@)),
            None => None,
        }
    }
}

/// Read the agent picker's answer (`pane`, a tab, and `place` or `submit`).
pub fn pick_answer(answer: &str) -> (r: Option<(String, bool)>)
    ensures
        (match r {
            Some(p) => picked(answer@) == Some((p.0@, p.1)),
            None => picked(answer@) is None,
        }),
{
    if same(answer, "cancel") {
        return None;
    }
    match split_once(answer, '\t') {
        Some((pane, mode)) => {
            let submit = same(mode.as_str(), "submit");
            Some((pane, submit))
        },
        None => None,
    }
}

/// The picker's title.
pub fn picker_title(notes: usize) -> (r: String)
    ensures
        r@ == "send "@ + dec(notes as nat) + " note(s) to…"@,
{
    let mut s = copy("send ");
    append_dec(&mut s, notes as u64);
    append(&mut s, " note(s) to…");
    s
}

/// The picker's height for this many agents.
pub fn picker_height(agents: usize) -> (r: u16)
    ensures
        r == if agents + 6 < 14 {
            agents + 6
        } else {
            14
        },
{
    if agents < 8 {
        (agents + 6) as u16
    } else {
        14
    }
}

/// What the list is told of the notes.
pub open spec fn snapshot(notes: Seq<NoteView>) -> Seq<NoteInfoView> {
    notes.map_values(
        |n: NoteView|
            NoteInfoView {
                id: n.id,
                file: n.file,
                start: n.start,
                end: n.end,
                text: n.text,
                cached: n.cached,
            },
    )
}

pub fn notes_snapshot(notes: &Vec<Note>) -> (r: Vec<NoteInfo>)
    ensures
        infos_view(r@) == snapshot(notes_view(notes@)),
{
    let mut out: Vec<NoteInfo> = Vec::new();
    let mut i: usize = 0;
    while i < notes.len()
        invariant
            i <= notes@.len(),
            out@.len() == i,
            forall|k: int|
                0 <= k < i ==> (#[trigger] out@[k])@ == (NoteInfoView {
                    id: notes@[k].id,
                    file: notes@[k].file@,
                    start: notes@[k].start,
                    end: notes@[k].end,
                    text: notes@[k].text@,
                    cached: notes@[k].cached,
                }),
        decreases notes@.len() - i,
    {
        let n = &notes[i];
        out.push(
            NoteInfo {
                id: n.id,
                file: copy(n.file.as_str()),
                start: n.start,
                end: n.end,
                text: copy(n.text.as_str()),
                cached: n.cached,
            },
        );
        i += 1;
    }
    assert(infos_view(out@) =~= snapshot(notes_view(notes@)));
    out
}

/// The editor is run as it was configured, with the file last and the line to
/// jump to before it. An nvim listens on the socket that it is given.
pub proof fn law_the_editor_opens_the_file_at_its_line(
    editor: Seq<Seq<char>>,
    server: Option<Seq<char>>,
    line: Option<u32>,
    path: Seq<char>,
)
    requires
        editor.len() > 0,
    ensures
        ({
            let args = editor_args(editor, server, line, path);
            let n = args.len() as int;
            let listens = server is Some && contains_str(editor[0], "nvim"@);
            &&& args.take(editor.len() as int) == editor
            &&& args[n - 1] == path
            &&& line matches Some(l) ==> args[n - 2] == "+"@ + dec(l as nat)
            &&& n == editor.len() + (if listens {
                2int
            } else {
                0
            }) + (if line is Some {
                2int
            } else {
                1
            })
            &&& listens ==> args[editor.len() as int] == "--listen"@ && args[editor.len() as int + 1]
                == server->0
        }),
{
    let args = editor_args(editor, server, line, path);
    assert(args.take(editor.len() as int) =~= editor);
}

/// The editor is opened at the first change of the file that is shown, and
/// without a line at any other file.
pub proof fn law_only_the_shown_file_has_a_first_change(s: PreviewView, file: Seq<char>)
    ensures
        s.shows(file) ==> jump_line(s, file) == s.first_change,
        !s.shows(file) ==> jump_line(s, file) is None,
{
}

/// The branch is compared with where it began, a commit and the working tree
/// are not.
pub proof fn law_only_the_branch_needs_its_beginning(req: ReqView)
    ensures
        req.commit is Some ==> !wants_merge_base(req),
        req.scope == Scope::Worktree ==> !wants_merge_base(req),
        req.scope == Scope::Branch && req.commit is None ==> wants_merge_base(req),
{
}

} // verus!
