//! What the list's event loop decides: where a key goes, what the preview is
//! told to show, and how the editor, a commit and popups go on.
use crate::git::{entries_view, ChangeKind, EntryView, Scope};
use crate::input::{Action, KeyCode};
use crate::ipc::{infos_view, NoteInfo, ToPreview, ToPreviewView};
use crate::list::app::{App, AppView, EditorThen, Effect, EffectView, Modal, ModalView, Mode};
use crate::list::rows::{list_view, ListRow, ListRowView, Section};
use crate::path::{path_eq, same_path};
use crate::preview::app::{
    law_scrolling_goes_as_far_as_asked, law_scrolling_goes_line_by_line, max2, min2, PreviewView,
    ReqView, ShowReq,
};
use crate::text::{append, copy, copy_opt, lemma_strs_push, opt_str, same, trim, trimmed};
use vstd::prelude::*;

verus! {

broadcast use {vstd::string::group_string_axioms, lemma_strs_push};

/// The preview is shown a new selection once it stood still for this many
/// milliseconds.
pub const SHOW_DEBOUNCE_MS: u64 = 40;

// ---- where a key goes ------------------------------------------------------------

/// Where a key goes.
#[derive(Debug)]
pub enum Route {
    /// Enter: activate the selected row.
    Activate,
    /// Start a commit.
    Commit,
    /// Connect to the preview again, then handle the key.
    Reconnect,
    /// Straight to the preview.
    Forward(ToPreview),
    /// To the list itself.
    Handle,
}

#[verifier::ext_equal]
pub enum RouteView {
    Activate,
    Commit,
    Reconnect,
    Forward(ToPreviewView),
    Handle,
}

impl View for Route {
    type V = RouteView;

    open spec fn view(&self) -> RouteView {
        match self {
            Route::Activate => RouteView::Activate,
            Route::Commit => RouteView::Commit,
            Route::Reconnect => RouteView::Reconnect,
            Route::Forward(m) => RouteView::Forward(m@),
            Route::Handle => RouteView::Handle,
        }
    }
}

/// The message that a scroll key is forwarded as.
pub open spec fn scroll_view(action: Action) -> Option<ToPreviewView> {
    match action {
        Action::ScrollDown => Some(ToPreviewView::Scroll { delta: 1 }),
        Action::ScrollUp => Some(ToPreviewView::Scroll { delta: (-1) as i32 }),
        Action::HalfPageDown => Some(ToPreviewView::Page { down: true, full: false }),
        Action::HalfPageUp => Some(ToPreviewView::Page { down: false, full: false }),
        Action::DiffTop => Some(ToPreviewView::Scroll { delta: i32::MIN }),
        Action::DiffBottom => Some(ToPreviewView::Scroll { delta: i32::MAX }),
        _ => None,
    }
}

/// Translate a diff scroll or page key into the message that the preview
/// understands; `None` for any other.
pub fn scroll_message(action: Action) -> (r: Option<ToPreview>)
    ensures
        (match r {
            Some(m) => scroll_view(action) == Some(m@),
            None => scroll_view(action) is None,
        }),
{
    match action {
        Action::ScrollDown => Some(ToPreview::Scroll { delta: 1 }),
        Action::ScrollUp => Some(ToPreview::Scroll { delta: -1 }),
        Action::HalfPageDown => Some(ToPreview::Page { down: true, full: false }),
        Action::HalfPageUp => Some(ToPreview::Page { down: false, full: false }),
        Action::DiffTop => Some(ToPreview::Scroll { delta: i32::MIN }),
        Action::DiffBottom => Some(ToPreview::Scroll { delta: i32::MAX }),
        _ => None,
    }
}

/// Where a key goes: Enter and a commit need the link to the preview, a
/// refresh without one connects again, scroll keys are forwarded unless the
/// editor owns the preview.
pub open spec fn routed(s: AppView, action: Option<Action>, connected: bool) -> RouteView {
    match action {
        None => RouteView::Handle,
        Some(a) => if s.modal is None && a == Action::Edit {
            RouteView::Activate
        } else if connected && s.modal is None && s.busy is None && a == Action::Commit && s.mode
            == Mode::Files {
            RouteView::Commit
        } else if a == Action::Refresh && !connected && s.modal is None {
            RouteView::Reconnect
        } else if s.busy is None && scroll_view(a) is Some {
            RouteView::Forward(scroll_view(a)->0)
        } else {
            RouteView::Handle
        },
    }
}

pub fn route_key(app: &App, action: Option<Action>, connected: bool) -> (r: Route)
    ensures
        r@ == routed(app@, action, connected),
{
    let a = match action {
        None => {
            return Route::Handle;
        },
        Some(a) => a,
    };
    let open = app.modal.is_none();
    if open && a == Action::Edit {
        return Route::Activate;
    }
    if connected && open && app.busy.is_none() && a == Action::Commit && app.mode == Mode::Files {
        return Route::Commit;
    }
    if a == Action::Refresh && !connected && open {
        return Route::Reconnect;
    }
    if app.busy.is_none() {
        if let Some(msg) = scroll_message(a) {
            return Route::Forward(msg);
        }
    }
    Route::Handle
}

// ---- Enter -------------------------------------------------------------------------

/// What Enter (or a double click) does.
#[derive(Debug)]
pub enum Activation {
    Done,
    /// Load the selected commit's files.
    Load(Effect),
    /// Open this file in the editor; go on with `edit_started`.
    StartEdit { file: String },
    /// Switch the running editor to this file; go on with `remote_opened`.
    RemoteOpen { file: String },
}

#[verifier::ext_equal]
pub enum ActivationView {
    Done,
    Load(EffectView),
    StartEdit { file: Seq<char> },
    RemoteOpen { file: Seq<char> },
}

impl View for Activation {
    type V = ActivationView;

    open spec fn view(&self) -> ActivationView {
        match self {
            Activation::Done => ActivationView::Done,
            Activation::Load(e) => ActivationView::Load(e@),
            Activation::StartEdit { file } => ActivationView::StartEdit { file: file@ },
            Activation::RemoteOpen { file } => ActivationView::RemoteOpen { file: file@ },
        }
    }
}

impl AppView {
    /// Enter: open the selected commit, rewrite the selected note, toggle the
    /// selected directory, or edit the selected file, switching the file of an
    /// editor that is already running.
    pub open spec fn activated(self, connected: bool) -> (AppView, ActivationView) {
        match self.mode {
            Mode::Log => (
                self,
                match self.picked_commit() {
                    Some(c) => ActivationView::Load(EffectView::LoadCommit { info: c }),
                    None => ActivationView::Done,
                },
            ),
            Mode::Notes => (
                match self.note() {
                    Some(n) => AppView { edit_note_request: Some((n.id, n.text)), ..self },
                    None => self,
                },
                ActivationView::Done,
            ),
            Mode::Files | Mode::CommitFiles => match self.row() {
                Some(ListRowView::Dir { path, section, .. }) => (
                    self.dir_toggled(section, path),
                    ActivationView::Done,
                ),
                _ => if self.busy is Some {
                    (
                        self,
                        match self.entry() {
                            Some((e, _)) => ActivationView::RemoteOpen { file: e.path },
                            None => ActivationView::Done,
                        },
                    )
                } else if connected {
                    (
                        self,
                        match self.entry() {
                            Some((e, _)) => ActivationView::StartEdit { file: e.path },
                            None => ActivationView::Done,
                        },
                    )
                } else {
                    (self.no_preview(), ActivationView::Done)
                },
            },
        }
    }

    pub open spec fn editing(self, file: Seq<char>) -> AppView {
        AppView { busy: Some("editing "@ + file + "…"@), ..self }
    }
}

/// How switching the running editor's file went.
#[derive(Debug, Clone, Copy, PartialEq, Eq, Structural)]
pub enum RemoteOutcome {
    /// The file does not exist any more.
    Gone,
    /// The editor cannot be told: it is no nvim, or does not listen.
    Deaf,
    Failed,
    Opened,
}

impl App {
    /// Enter (or a double click) on the selected row.
    pub fn activate_selection(&mut self, connected: bool) -> (r: Activation)
        ensures
            (final(self)@, r@) == old(self)@.activated(connected),
    {
        match self.mode {
            Mode::Log => match self.selected_commit() {
                Some(c) => Activation::Load(Effect::LoadCommit { info: c.clone() }),
                None => Activation::Done,
            },
            Mode::Notes => {
                let request = match self.selected_note() {
                    Some(n) => Some((n.id, copy(n.text.as_str()))),
                    None => None,
                };
                if request.is_some() {
                    self.edit_note_request = request;
                }
                Activation::Done
            },
            Mode::Files | Mode::CommitFiles => self.activate_file(connected),
        }
    }

    fn activate_file(&mut self, connected: bool) -> (r: Activation)
        requires
            old(self)@.mode == Mode::Files || old(self)@.mode == Mode::CommitFiles,
        ensures
            (final(self)@, r@) == old(self)@.activated(connected),
    {
        let dir = self.selected_dir();
        if let Some((path, section)) = dir {
            self.toggle_dir(section, path.as_str());
            return Activation::Done;
        }
        let file = match self.selected_entry() {
            Some((e, _)) => Some(copy(e.path.as_str())),
            None => None,
        };
        if self.busy.is_some() {
            match file {
                Some(file) => Activation::RemoteOpen { file },
                None => Activation::Done,
            }
        } else if connected {
            match file {
                Some(file) => Activation::StartEdit { file },
                None => Activation::Done,
            }
        } else {
            self.say_no_preview();
            Activation::Done
        }
    }

    fn selected_dir(&self) -> (r: Option<(String, Section)>)
        ensures
            (match (r, self@.row()) {
                (Some(p), Some(ListRowView::Dir { path, section, .. })) => p.0@ == path && p.1
                    == section,
                (Some(_), _) => false,
                (None, Some(ListRowView::Dir { .. })) => false,
                (None, _) => true,
            }),
    {
        if self.cursor >= self.rows.len() {
            return None;
        }
        assert(list_view(self.rows@)[self.cursor as int] == self.rows@[self.cursor as int]@);
        match &self.rows[self.cursor] {
            ListRow::Dir { path, section, .. } => Some((copy(path.as_str()), *section)),
            _ => None,
        }
    }

    /// The preview was asked to edit a file: `exists` says whether the file is
    /// on disk, `sent` whether the link held.
    pub fn edit_started(&mut self, file: &str, exists: bool, sent: bool)
        ensures
            final(self)@ == (if !exists {
                old(self)@.status("file no longer exists — nothing to edit"@)
            } else if sent {
                old(self)@.editing(file@)
            } else {
                old(self)@
            }),
    {
        if !exists {
            self.set_status("file no longer exists — nothing to edit");
        } else if sent {
            self.mark_editing(file);
        }
    }

    fn mark_editing(&mut self, file: &str)
        ensures
            final(self)@ == old(self)@.editing(file@),
    {
        let mut what = copy("editing ");
        append(&mut what, file);
        append(&mut what, "…");
        self.busy = Some(what);
    }

    /// The running editor was told to switch its file.
    pub fn remote_opened(&mut self, file: &str, outcome: RemoteOutcome)
        ensures
            final(self)@ == (match outcome {
                RemoteOutcome::Gone => old(self)@.status(
                    "file no longer exists — nothing to edit"@,
                ),
                RemoteOutcome::Deaf => old(self)@.status("editor is open — close it first"@),
                RemoteOutcome::Failed => old(self)@.status("could not switch the editor's file"@),
                RemoteOutcome::Opened => old(self)@.editing(file@),
            }),
    {
        match outcome {
            RemoteOutcome::Gone => self.set_status("file no longer exists — nothing to edit"),
            RemoteOutcome::Deaf => self.set_status("editor is open — close it first"),
            RemoteOutcome::Failed => self.set_status("could not switch the editor's file"),
            RemoteOutcome::Opened => self.mark_editing(file),
        }
    }

    // ---- commits -------------------------------------------------------------------

    /// The staged files were counted before a commit: says whether to go on
    /// and run it. Nothing staged and a failed count are said.
    pub fn start_commit(&mut self, staged: Result<usize, String>) -> (go: bool)
        ensures
            go == (staged matches Ok(n) && n > 0),
            final(self)@ == (match staged {
                Ok(n) => if n == 0 {
                    old(self)@.status("nothing staged — s to stage files"@)
                } else {
                    old(self)@
                },
                Err(err) => old(self)@.status("commit preflight failed: "@ + err@),
            }),
    {
        match staged {
            Ok(n) => {
                if n == 0 {
                    self.set_status("nothing staged — s to stage files");
                    false
                } else {
                    true
                }
            },
            Err(err) => {
                let mut msg = copy("commit preflight failed: ");
                append(&mut msg, err.as_str());
                self.set_status(msg.as_str());
                false
            },
        }
    }

    /// The commit was handed to the preview.
    pub fn commit_started(&mut self, sent: bool)
        ensures
            final(self)@ == (if sent {
                AppView { busy: Some("committing…"@), ..old(self)@ }
            } else {
                old(self)@
            }),
    {
        if sent {
            self.busy = Some(copy("committing…"));
        }
    }

    /// The commit ended, and the status was loaded again: say how it went.
    pub fn git_done(&mut self, ok: bool, summary: Option<String>)
        ensures
            final(self)@ == old(self)@.status(
                if !ok {
                    "commit aborted"@
                } else {
                    match summary {
                        Some(s) => "committed "@ + s@,
                        None => "committed"@,
                    }
                },
            ),
    {
        if !ok {
            self.set_status("commit aborted");
        } else {
            match summary {
                Some(s) => {
                    let mut msg = copy("committed ");
                    append(&mut msg, s.as_str());
                    self.set_status(msg.as_str());
                },
                None => self.set_status("committed"),
            }
        }
    }

    // ---- closing the editor ----------------------------------------------------------

    /// After a key: whether the running editor should be asked for unsaved
    /// changes, and what for. An action asked for it, or the cursor moved (a
    /// clean editor then closes, so that the diff comes back while browsing).
    /// At most one such question is open.
    pub fn wants_probe(&mut self, action: Option<Action>, pending: bool) -> (r: Option<
        Option<EditorThen>,
    >)
        ensures
            ({
                let s = old(self)@;
                let moved = (action == Some(Action::Down) || action == Some(Action::Up) || action
                    == Some(Action::Top) || action == Some(Action::Bottom)) && s.modal is None;
                &&& r == (if s.busy is None || pending {
                    None
                } else if s.editor_close_request is Some {
                    Some(s.editor_close_request)
                } else if moved {
                    Some(None)
                } else {
                    None
                })
                &&& final(self)@ == (AppView { editor_close_request: None, ..s })
            }),
    {
        let request = self.editor_close_request;
        self.editor_close_request = None;
        if self.busy.is_none() || pending {
            return None;
        }
        if request.is_some() {
            return Some(request);
        }
        let moved = match action {
            Some(Action::Down) | Some(Action::Up) | Some(Action::Top) | Some(Action::Bottom) =>
                self.modal.is_none(),
            _ => false,
        };
        if moved {
            Some(None)
        } else {
            None
        }
    }

    /// The running editor was asked. `Some(false)`: it was clean and has been
    /// told to quit; `Some(true)`: it has unsaved changes; `None`: it could
    /// not be asked.
    pub fn probed(&mut self, then: Option<EditorThen>, unsaved: Option<bool>)
        ensures
            final(self)@ == (match (unsaved, then) {
                (Some(false), _) => AppView { after_edit: then, ..old(self)@ },
                (Some(true), Some(t)) => AppView {
                    modal: Some(ModalView::EditorClose { then: t }),
                    ..old(self)@
                },
                (Some(true), None) => old(self)@.status(
                    "editor has unsaved changes — stays open"@,
                ),
                (None, Some(_)) => old(self)@.status("editor is open — close it first"@),
                (None, None) => old(self)@,
            }),
    {
        match unsaved {
            Some(false) => {
                self.after_edit = then;
            },
            Some(true) => match then {
                Some(t) => {
                    self.modal = Some(Modal::EditorClose { then: t });
                },
                None => self.set_status("editor has unsaved changes — stays open"),
            },
            None => {
                if then.is_some() {
                    self.set_status("editor is open — close it first");
                }
            },
        }
    }

    /// The editor closed: what waited for it. Says whether a commit is to be
    /// started.
    pub fn resume_after_edit(&mut self) -> (commit: bool)
        ensures
            commit == (old(self)@.after_edit == Some(EditorThen::Commit)),
            final(self)@ == (AppView {
                after_edit: None,
                should_quit: old(self)@.should_quit || old(self)@.after_edit == Some(
                    EditorThen::QuitView,
                ),
                ..old(self)@
            }),
    {
        let then = self.after_edit;
        self.after_edit = None;
        match then {
            Some(EditorThen::QuitView) => {
                self.should_quit = true;
                false
            },
            Some(EditorThen::Commit) => true,
            None => false,
        }
    }

    // ---- messages from the preview ----------------------------------------------------

    /// The preview is up.
    pub fn on_ready(&mut self, now: u64)
        ensures
            final(self)@ == (match old(self)@.status_msg {
                Some((msg, at)) => if now - at < crate::list::app::STATUS_MS && msg
                    == "connecting…"@ {
                    AppView { status_msg: None, ..old(self)@ }
                } else {
                    old(self)@
                },
                None => old(self)@,
            }),
    {
        let connecting = match self.active_status(now) {
            Some(msg) => same(msg, "connecting…"),
            None => false,
        };
        if connecting {
            self.status_msg = None;
        }
    }

    /// The preview asks for the notes view.
    pub fn on_show_notes(&mut self) -> (r: Effect)
        ensures
            (final(self)@, r@) == (if old(self)@.mode != Mode::Notes && old(self)@.notes.len()
                > 0 {
                old(self)@.notes_keyed()
            } else {
                (old(self)@, EffectView::Nothing)
            }),
    {
        if self.mode != Mode::Notes && self.notes.len() > 0 {
            self.press_notes()
        } else {
            Effect::Nothing
        }
    }

    /// The notes changed. A notes view without notes is left.
    pub fn on_notes(&mut self, notes: Vec<NoteInfo>) -> (r: Effect)
        ensures
            ({
                let s = AppView { notes: infos_view(notes@), ..old(self)@ };
                (final(self)@, r@) == (if s.mode != Mode::Notes {
                    (s, EffectView::Nothing)
                } else if s.notes.len() > 0 {
                    (s.rows_rebuilt(), EffectView::Nothing)
                } else {
                    s.rows_rebuilt().status("notes sent"@).notes_keyed()
                })
            }),
    {
        let none = notes.len() == 0;
        assert(infos_view(notes@).len() == notes@.len());
        self.notes = notes;
        if self.mode != Mode::Notes {
            return Effect::Nothing;
        }
        self.rebuild_rows();
        if !none {
            return Effect::Nothing;
        }
        self.set_status("notes sent");
        proof {
            reveal(AppView::rows_rebuilt);
        }
        self.press_notes()
    }

    // ---- what is shown -----------------------------------------------------------------

    /// What the preview should show for the selection; `None` when nothing
    /// diffable is selected.
    pub fn current_show(&self) -> (r: Option<ShowReq>)
        ensures
            (match r {
                Some(q) => self@.show() == Some(q@),
                None => self@.show() is None,
            }),
    {
        match self.selected_entry() {
            None => None,
            Some((e, staged)) => {
                let commit = match self.mode {
                    Mode::CommitFiles => match &self.commit {
                        Some(c) => Some(copy(c.sha.as_str())),
                        None => {
                            return None;
                        },
                    },
                    _ => None,
                };
                Some(
                    ShowReq {
                        file: copy(e.path.as_str()),
                        orig_path: copy_opt(&e.orig_path),
                        scope: self.scope,
                        cached: staged && self.scope == Scope::Worktree,
                        kind: e.kind,
                        commit,
                    },
                )
            },
        }
    }

    /// What the preview should show for a note: its file in the note's own
    /// context, the live worktree diff of the side it was written on.
    pub fn note_show(&self) -> (r: Option<ShowReq>)
        ensures
            (match r {
                Some(q) => self@.note_shown() == Some(q@),
                None => self@.note_shown() is None,
            }),
    {
        match self.selected_note() {
            None => None,
            Some(n) => {
                let (orig_path, kind) = self.known_entry(n.file.as_str());
                Some(
                    ShowReq {
                        file: copy(n.file.as_str()),
                        orig_path,
                        scope: Scope::Worktree,
                        cached: n.cached,
                        kind,
                        commit: None,
                    },
                )
            },
        }
    }

    fn known_entry(&self, file: &str) -> (r: (Option<String>, ChangeKind))
        ensures
            (opt_str(r.0), r.1) == entry_facts(self@.entries, file@, 0),
    {
        let ghost all = entries_view(self.entries@);
        let mut i: usize = 0;
        while i < self.entries.len()
            invariant
                i <= self.entries@.len(),
                all == entries_view(self.entries@),
                entry_facts(all, file@, 0) == entry_facts(all, file@, i as int),
            decreases self.entries@.len() - i,
        {
            assert(all[i as int] == self.entries@[i as int]@);
            let e = &self.entries[i];
            if path_eq(e.path.as_str(), file) {
                return (copy_opt(&e.orig_path), e.kind);
            }
            i += 1;
        }
        (None, ChangeKind::Modified)
    }

    /// What identifies the selection to the preview; a change means that it
    /// has to be shown anew.
    pub fn show_key(&self) -> (r: Option<ShowKey>)
        ensures
            (match r {
                Some(k) => self@.shown_as() == Some(k@),
                None => self@.shown_as() is None,
            }),
    {
        if self.mode == Mode::Notes {
            return match self.selected_note() {
                Some(n) => Some(
                    ShowKey {
                        file: copy(n.file.as_str()),
                        scope: self.scope,
                        staged: n.cached,
                        commit: None,
                        note: Some(n.id),
                    },
                ),
                None => None,
            };
        }
        match self.selected_entry() {
            None => None,
            Some((e, staged)) => {
                let commit = match self.mode {
                    Mode::CommitFiles => match &self.commit {
                        Some(c) => Some(copy(c.sha.as_str())),
                        None => None,
                    },
                    _ => None,
                };
                Some(
                    ShowKey {
                        file: copy(e.path.as_str()),
                        scope: self.scope,
                        staged,
                        commit,
                        note: None,
                    },
                )
            },
        }
    }

    /// The messages that bring the preview to the selection, once it stood
    /// still.
    pub fn show_messages(&self) -> (r: Vec<ToPreview>)
        ensures
            messages_view(r@) == self@.shown_by(),
    {
        let mut out: Vec<ToPreview> = Vec::new();
        assert(messages_view(out@) =~= Seq::<ToPreviewView>::empty());
        if self.mode == Mode::Notes {
            let id = match self.selected_note() {
                Some(n) => n.id,
                None => {
                    return out;
                },
            };
            if let Some(req) = self.note_show() {
                out.push(ToPreview::Show(req));
            }
            out.push(ToPreview::FocusNote { id });
        } else {
            match self.current_show() {
                Some(req) => out.push(ToPreview::Show(req)),
                None => out.push(ToPreview::Clear),
            }
        }
        assert(messages_view(out@) =~= self@.shown_by());
        out
    }

    // ---- popups ------------------------------------------------------------------------

    /// The question that an open modal asks in a popup.
    pub fn popup_question(&self) -> (r: Option<String>)
        ensures
            opt_str(r) == (match self@.modal {
                Some(ModalView::Confirm { text, .. }) => Some(text),
                Some(ModalView::EditorClose { .. }) => Some(
                    "The editor has unsaved changes. Save them? (no discards)"@,
                ),
                _ => None,
            }),
    {
        match &self.modal {
            Some(Modal::Confirm { text, .. }) => Some(copy(text.as_str())),
            Some(Modal::EditorClose { .. }) => Some(
                copy("The editor has unsaved changes. Save them? (no discards)"),
            ),
            _ => None,
        }
    }
}

/// What identifies what the preview is showing.
#[derive(Debug)]
pub struct ShowKey {
    pub file: String,
    pub scope: Scope,
    pub staged: bool,
    pub commit: Option<String>,
    pub note: Option<u64>,
}

#[verifier::ext_equal]
pub struct ShowKeyView {
    pub file: Seq<char>,
    pub scope: Scope,
    pub staged: bool,
    pub commit: Option<Seq<char>>,
    pub note: Option<u64>,
}

impl View for ShowKey {
    type V = ShowKeyView;

    open spec fn view(&self) -> ShowKeyView {
        ShowKeyView {
            file: self.file@,
            scope: self.scope,
            staged: self.staged,
            commit: opt_str(self.commit),
            note: self.note,
        }
    }
}

/// Whether two selections are the same to the preview.
pub open spec fn same_show(a: Option<ShowKeyView>, b: Option<ShowKeyView>) -> bool {
    match (a, b) {
        (Some(x), Some(y)) => same_path(x.file, y.file) && x.scope == y.scope && x.staged
            == y.staged && x.commit == y.commit && x.note == y.note,
        (None, None) => true,
        _ => false,
    }
}

pub open spec fn opt_key(k: Option<ShowKey>) -> Option<ShowKeyView> {
    match k {
        Some(x) => Some(x@),
        None => None,
    }
}

/// Whether the selection changed as far as the preview is concerned.
pub fn show_changed(before: &Option<ShowKey>, after: &Option<ShowKey>) -> (r: bool)
    ensures
        r == !same_show(opt_key(*before), opt_key(*after)),
{
    match before {
        None => after.is_some(),
        Some(a) => match after {
            None => true,
            Some(b) => {
                let commits = match &a.commit {
                    Some(x) => match &b.commit {
                        Some(y) => same(x.as_str(), y.as_str()),
                        None => false,
                    },
                    None => b.commit.is_none(),
                };
                let notes = match a.note {
                    Some(x) => match b.note {
                        Some(y) => x == y,
                        None => false,
                    },
                    None => b.note.is_none(),
                };
                !(path_eq(a.file.as_str(), b.file.as_str()) && a.scope == b.scope && a.staged
                    == b.staged && commits && notes)
            },
        },
    }
}

pub open spec fn messages_view(s: Seq<ToPreview>) -> Seq<ToPreviewView> {
    s.map_values(|m: ToPreview| m@)
}

/// What is known of a file among the entries from `i` on: the path it was
/// renamed from and its kind of change.
pub open spec fn entry_facts(entries: Seq<EntryView>, file: Seq<char>, i: int) -> (
    Option<Seq<char>>,
    ChangeKind,
)
    decreases entries.len() - i,
{
    if i < 0 || i >= entries.len() {
        (None, ChangeKind::Modified)
    } else if same_path(entries[i].path, file) {
        (entries[i].orig_path, entries[i].kind)
    } else {
        entry_facts(entries, file, i + 1)
    }
}

impl AppView {
    /// What the preview should show for the selection.
    pub open spec fn show(self) -> Option<ReqView> {
        match self.entry() {
            None => None,
            Some((e, section)) => {
                let cached = section == Section::Staged && self.scope == Scope::Worktree;
                if self.mode == Mode::CommitFiles {
                    match self.commit {
                        None => None,
                        Some(c) => Some(
                            ReqView {
                                file: e.path,
                                orig_path: e.orig_path,
                                scope: self.scope,
                                cached,
                                kind: e.kind,
                                commit: Some(c.sha),
                            },
                        ),
                    }
                } else {
                    Some(
                        ReqView {
                            file: e.path,
                            orig_path: e.orig_path,
                            scope: self.scope,
                            cached,
                            kind: e.kind,
                            commit: None,
                        },
                    )
                }
            },
        }
    }

    /// What the preview should show for the selected note.
    pub open spec fn note_shown(self) -> Option<ReqView> {
        match self.note() {
            None => None,
            Some(n) => {
                let (orig_path, kind) = entry_facts(self.entries, n.file, 0);
                Some(
                    ReqView {
                        file: n.file,
                        orig_path,
                        scope: Scope::Worktree,
                        cached: n.cached,
                        kind,
                        commit: None,
                    },
                )
            },
        }
    }

    pub open spec fn shown_as(self) -> Option<ShowKeyView> {
        if self.mode == Mode::Notes {
            match self.note() {
                Some(n) => Some(
                    ShowKeyView {
                        file: n.file,
                        scope: self.scope,
                        staged: n.cached,
                        commit: None,
                        note: Some(n.id),
                    },
                ),
                None => None,
            }
        } else {
            match self.entry() {
                None => None,
                Some((e, section)) => Some(
                    ShowKeyView {
                        file: e.path,
                        scope: self.scope,
                        staged: section == Section::Staged,
                        commit: if self.mode == Mode::CommitFiles {
                            match self.commit {
                                Some(c) => Some(c.sha),
                                None => None,
                            }
                        } else {
                            None
                        },
                        note: None,
                    },
                ),
            }
        }
    }

    /// The messages that bring the preview to the selection: a note's file and
    /// its card, the selected diff, or nothing where nothing can be shown.
    pub open spec fn shown_by(self) -> Seq<ToPreviewView> {
        if self.mode == Mode::Notes {
            match self.note() {
                Some(n) => seq![
                    ToPreviewView::Show(self.note_shown()->0),
                    ToPreviewView::FocusNote { id: n.id },
                ],
                None => Seq::empty(),
            }
        } else {
            match self.show() {
                Some(req) => seq![ToPreviewView::Show(req)],
                None => seq![ToPreviewView::Clear],
            }
        }
    }
}

/// In the worktree view, the section of the selected file decides which diff
/// is shown: the staged one under "staged changes", else the unstaged one.
pub proof fn law_the_section_decides_the_diff(s: AppView)
    requires
        s.mode == Mode::Files,
        s.scope == Scope::Worktree,
        s.entry() is Some,
    ensures
        (match (s.show(), s.entry()) {
            (Some(req), Some((e, section))) => req.cached == (section == Section::Staged)
                && req.commit is None && req.file == e.path,
            _ => false,
        }),
{
}

/// The key that a popup's answer stands for.
pub open spec fn answer_code(answer: Seq<char>) -> KeyCode {
    if trim(answer) == "y"@ {
        KeyCode::Char('y')
    } else if trim(answer) == "n"@ {
        KeyCode::Char('n')
    } else {
        KeyCode::Esc
    }
}

pub fn answer_key(answer: &str) -> (r: KeyCode)
    ensures
        r == answer_code(answer@),
{
    let text = trimmed(answer);
    if same(text.as_str(), "y") {
        KeyCode::Char('y')
    } else if same(text.as_str(), "n") {
        KeyCode::Char('n')
    } else {
        KeyCode::Esc
    }
}

/// Whether a selection that changed at `since` has stood still long enough.
pub fn show_due(dirty: bool, since: u64, now: u64) -> (r: bool)
    ensures
        r == (dirty && now - since >= SHOW_DEBOUNCE_MS),
{
    dirty && now.saturating_sub(since) >= SHOW_DEBOUNCE_MS
}

// ---- what keys mean to the preview -------------------------------------------------

/// The preview is asked for the selected file, under the path that it had before
/// where it was renamed; of a commit's files, for the commit's own change.
pub proof fn law_the_preview_shows_the_selected_file(s: AppView)
    requires
        s.entry() is Some,
        s.mode == Mode::Files || (s.mode == Mode::CommitFiles && s.commit is Some),
    ensures
        ({
            let e = (s.entry()->Some_0).0;
            let req = s.show()->0;
            &&& s.show() is Some
            &&& s.shown_by() == seq![ToPreviewView::Show(req)]
            &&& req.file == e.path && req.orig_path == e.orig_path && req.kind == e.kind
            &&& req.scope == s.scope
            &&& s.mode == Mode::CommitFiles ==> req.commit == Some(s.commit->0.sha)
            &&& s.mode == Mode::Files ==> req.commit is None
        }),
{
    assert(s.shown_by() =~= seq![ToPreviewView::Show(s.show()->0)]);
}

/// A selected note is shown in its file's diff, staged or not as it was taken,
/// and brought into view.
pub proof fn law_a_selected_note_is_brought_into_view(s: AppView)
    requires
        s.mode == Mode::Notes,
        s.note() is Some,
    ensures
        ({
            let n = s.note()->0;
            &&& s.shown_by().len() == 2
            &&& s.shown_by()[0] matches ToPreviewView::Show(req) && req.file == n.file && req.cached
                == n.cached && req.commit is None && req.scope == Scope::Worktree
            &&& s.shown_by()[1] == (ToPreviewView::FocusNote { id: n.id })
        }),
{
}

/// A key that scrolls the preview by lines is told to it as that many lines.
pub proof fn law_line_keys_scroll_the_preview(p: PreviewView)
    ensures
        ({
            let t = p.told(scroll_view(Action::ScrollDown)->0);
            t.scroll == if p.scroll + 1 > p.max_scroll() {
                p.max_scroll()
            } else {
                p.scroll + 1
            }
        }),
        ({
            let t = p.told(scroll_view(Action::ScrollUp)->0);
            t.scroll == if p.scroll - 1 < 0 {
                0
            } else if p.scroll - 1 > p.max_scroll() {
                p.max_scroll()
            } else {
                p.scroll - 1
            }
        }),
{
    law_scrolling_goes_line_by_line(p, 1);
    law_scrolling_goes_line_by_line(p, (-1) as i32);
}

/// A key that scrolls the preview by half a page is told to it as such.
pub proof fn law_page_keys_scroll_the_preview(p: PreviewView)
    requires
        p.scroll <= p.max_scroll(),
        0 < p.viewport_h,
    ensures
        p.told(scroll_view(Action::HalfPageDown)->0).scroll == min2(
            p.scroll + max2(p.viewport_h as int / 2, 1),
            p.max_scroll(),
        ),
        p.told(scroll_view(Action::HalfPageUp)->0).scroll == max2(
            p.scroll - max2(p.viewport_h as int / 2, 1),
            0,
        ),
{
    law_scrolling_goes_as_far_as_asked(p, 0);
}

/// A key that goes to an edge of the diff is told to the preview as such.
pub proof fn law_edge_keys_scroll_the_preview(p: PreviewView)
    requires
        p.scroll <= p.max_scroll(),
        0 < p.viewport_h,
    ensures
        p.told(scroll_view(Action::DiffTop)->0).scroll == 0,
        p.told(scroll_view(Action::DiffBottom)->0).scroll == p.max_scroll(),
{
    law_scrolling_goes_as_far_as_asked(p, 0);
}

/// Enter is about what is selected: it opens the file, or switches a running
/// editor to it, loads the commit, or rewrites the note.
pub proof fn law_enter_is_about_what_is_selected(s: AppView)
    ensures
        s.mode == Mode::Log && s.picked_commit() is Some ==> s.activated(true) == (
            s,
            ActivationView::Load(EffectView::LoadCommit { info: s.picked_commit()->0 }),
        ),
        s.mode == Mode::Notes && s.note() is Some ==> s.activated(true) == (
            AppView { edit_note_request: Some((s.note()->0.id, s.note()->0.text)), ..s },
            ActivationView::Done,
        ),
        (s.mode == Mode::Files || s.mode == Mode::CommitFiles) && s.entry() is Some
            ==> s.activated(true) == (
            s,
            if s.busy is Some {
                ActivationView::RemoteOpen { file: (s.entry()->Some_0).0.path }
            } else {
                ActivationView::StartEdit { file: (s.entry()->Some_0).0.path }
            },
        ),
{
}

/// An open question gets every key but those that scroll the preview.
pub proof fn law_a_question_gets_the_keys(s: AppView, action: Action, connected: bool)
    requires
        s.modal is Some,
    ensures
        routed(s, Some(action), connected) is Handle || routed(
            s,
            Some(action),
            connected,
        ) is Forward,
        routed(s, Some(action), connected) is Forward ==> s.busy is None && scroll_view(
            action,
        ) is Some,
        routed(s, None, connected) is Handle,
{
}

} // verus!
