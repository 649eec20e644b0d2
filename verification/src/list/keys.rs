//! Keys and the mouse in the list pane, and how an action goes on once git or
//! the editor answered.
use crate::git::{ChangeKind, CommitInfo, CommitView, EntryView, FileEntry, Scope};
use crate::input::{Action, Key, KeyCode, MouseKind};
use crate::list::app::{
    law_stepping_goes_to_the_nearest_row, loaded_view, row_under, App, AppView, BaseFor, Effect,
    EffectView, EditorThen, Modal, ModalView, Mode, Mutation, PendingAction, Then, ThenView, DOUBLE_CLICK_MS,
};
use crate::list::rows::{list_view, ListRow, ListRowView, Section};
use crate::list::stage::{
    entries_of, entry_of, law_keys_are_about_the_file_under_the_cursor,
};
use crate::path::same_path;
use crate::repo::commits_view;
use crate::text::{append, copy, first_line, first_line_of};
use vstd::prelude::*;

verus! {

broadcast use vstd::string::group_string_axioms;

impl AppView {
    /// A whole-file note asked for.
    pub open spec fn annotate_asked(self) -> AppView {
        match self.entry() {
            Some((e, section)) => AppView {
                annotate_request: Some((e.path, section == Section::Staged)),
                ..self
            },
            None => self.status(
                if self.mode == Mode::Notes {
                    "annotate from the files view (n to go back)"@
                } else {
                    "select a file to annotate"@
                },
            ),
        }
    }

    /// The message where there is no preview to edit or commit in.
    pub open spec fn no_preview(self) -> AppView {
        self.status(
            if self.in_herdr {
                "preview not connected — press r to reconnect"@
            } else {
                "editing needs the preview pane (run inside herdr)"@
            },
        )
    }

    /// An action of the keyboard while nothing is in its way.
    pub open spec fn acted(self, action: Action) -> (AppView, EffectView) {
        match action {
            Action::Down => (self.stepped(true), EffectView::Nothing),
            Action::Up => (self.stepped(false), EffectView::Nothing),
            Action::Top => (self.at_edge(true), EffectView::Nothing),
            Action::Bottom => (self.at_edge(false), EffectView::Nothing),
            Action::ToggleScope => self.scope_toggled(),
            Action::ToggleCached => (
                self.status("staged/unstaged now follow the list sections"@),
                EffectView::Nothing,
            ),
            Action::Refresh => if self.mode == Mode::Files {
                (self, EffectView::Reload(ThenView::Refresh))
            } else {
                (self, EffectView::Nothing)
            },
            Action::Help => (
                AppView { modal: Some(ModalView::Help), ..self },
                EffectView::Nothing,
            ),
            Action::Log => self.log_toggled(),
            Action::NotesView => self.notes_toggled(),
            Action::Delete => if self.mode == Mode::Notes {
                (
                    AppView {
                        delete_note_request: match self.note() {
                            Some(n) => Some(n.id),
                            None => None,
                        },
                        ..self
                    },
                    EffectView::Nothing,
                )
            } else {
                (self, EffectView::Nothing)
            },
            Action::Annotate => (self.annotate_asked(), EffectView::Nothing),
            Action::SendNotes => (
                if self.notes.len() == 0 {
                    self.status("no notes yet — a annotates a file, v+a lines in the diff"@)
                } else {
                    AppView { send_notes_request: true, ..self }
                },
                EffectView::Nothing,
            ),
            Action::Quit => self.backed(),
            Action::Stage => self.stage_toggled(),
            Action::Unstage => self.unstaged(),
            Action::Discard => (self.discard_asked(), EffectView::Nothing),
            Action::Edit | Action::Commit => (self.no_preview(), EffectView::Nothing),
            Action::Select | Action::ScrollDown | Action::ScrollUp | Action::HalfPageDown
            | Action::HalfPageUp | Action::DiffTop | Action::DiffBottom => (
                self,
                EffectView::Nothing,
            ),
        }
    }

    /// While the editor owns the preview's terminal, quitting and committing
    /// ask it to close first; everything else keeps working.
    pub open spec fn acted_beside_editor(self, action: Action) -> (AppView, EffectView) {
        if self.busy is Some && action == Action::Quit && self.mode == Mode::Files {
            (
                AppView { editor_close_request: Some(EditorThen::QuitView), ..self },
                EffectView::Nothing,
            )
        } else if self.busy is Some && action == Action::Commit {
            (
                AppView { editor_close_request: Some(EditorThen::Commit), ..self },
                EffectView::Nothing,
            )
        } else if self.busy is Some && action == Action::Edit {
            (self, EffectView::Nothing)
        } else {
            self.acted(action)
        }
    }

    /// A key while a modal is open. Help: any key closes. A question: `y` or
    /// enter runs what it asked, `n` or esc cancels, anything else is ignored.
    pub open spec fn modal_keyed(self, code: KeyCode) -> (AppView, EffectView) {
        let closed = AppView { modal: None, ..self };
        let yes = code == KeyCode::Char('y') || code == KeyCode::Enter;
        let no = code == KeyCode::Char('n');
        match self.modal {
            None => (self, EffectView::Nothing),
            Some(ModalView::Help) => (closed, EffectView::Nothing),
            Some(ModalView::Confirm { discard, .. }) => if yes {
                (
                    closed,
                    EffectView::Discard(
                        entries_of(self.entries, discard, discard.len() as int),
                    ),
                )
            } else if no || code == KeyCode::Esc {
                (closed, EffectView::Nothing)
            } else {
                (self, EffectView::Nothing)
            },
            Some(ModalView::EditorClose { then }) => if yes {
                (closed, EffectView::CloseEditor { save: true, then })
            } else if no {
                (closed, EffectView::CloseEditor { save: false, then })
            } else if code == KeyCode::Esc {
                (closed, EffectView::Nothing)
            } else {
                (self, EffectView::Nothing)
            },
        }
    }

    /// The key of the notes view, pressed for the user: an open modal takes it
    /// for its answer, and the view stays.
    pub open spec fn notes_keyed(self) -> (AppView, EffectView) {
        if self.modal is Some {
            self.modal_keyed(KeyCode::Char('n'))
        } else {
            self.notes_toggled()
        }
    }

    /// A key: an open modal owns it, else the action it is bound to.
    pub open spec fn keyed(self, key: Key, action: Option<Action>) -> (AppView, EffectView) {
        if self.modal is Some {
            self.modal_keyed(key.code)
        } else {
            match action {
                Some(a) => self.acted_beside_editor(a),
                None => (self, EffectView::Nothing),
            }
        }
    }

    /// A click on row `i`: it is selected; a directory is toggled, and on
    /// anything else the second of two quick clicks activates.
    pub open spec fn clicked(self, i: int) -> (AppView, bool) {
        let s = AppView { cursor: i, last_click: Some((i, self.now)), ..self };
        match self.rows[i] {
            ListRowView::Dir { path, section, .. } => (s.dir_toggled(section, path), false),
            _ => (
                s,
                match self.last_click {
                    Some((j, at)) => i == j && self.now - at < DOUBLE_CLICK_MS,
                    None => false,
                },
            ),
        }
    }

    /// A mouse event at terminal row `y`; says whether the row is activated.
    pub open spec fn moused(self, kind: MouseKind, y: u16) -> (AppView, bool) {
        if self.modal is Some {
            (self, false)
        } else {
            match kind {
                MouseKind::ScrollDown => (self.stepped(true), false),
                MouseKind::ScrollUp => (self.stepped(false), false),
                MouseKind::LeftDown => if y == 0 {
                    (self, false)
                } else {
                    match row_under(self.rows, self.list_offset, y - 1) {
                        Some(i) => if self.rows[i].can_select() {
                            self.clicked(i)
                        } else {
                            (self, false)
                        },
                        None => (self, false),
                    }
                },
                MouseKind::LeftDrag | MouseKind::Other => (self, false),
            }
        }
    }

    /// The base branch found, or not.
    pub open spec fn base_found(
        self,
        purpose: BaseFor,
        found: Result<(Seq<char>, Seq<char>), Seq<char>>,
    ) -> (AppView, EffectView) {
        match found {
            Err(msg) => (self.status("no base found: "@ + msg), EffectView::Nothing),
            Ok((base, merge_base)) => {
                let s = AppView { base, merge_base: Some(merge_base), ..self };
                match purpose {
                    BaseFor::Scope => (
                        AppView { scope: Scope::Branch, ..s },
                        EffectView::Reload(ThenView::Refresh),
                    ),
                    BaseFor::Log => (s, EffectView::LoadLog { branch_only: true }),
                }
            },
        }
    }

    /// The log loaded, or not. A repository without any commit has no log to
    /// show; a branch without commits of its own has an empty one.
    pub open spec fn log_shown(
        self,
        branch_only: bool,
        loaded: Result<Seq<CommitView>, Seq<char>>,
    ) -> AppView {
        match loaded {
            Err(msg) => self.status("log failed: "@ + msg),
            Ok(commits) => if commits.len() == 0 && !branch_only {
                self.status("no commits yet"@)
            } else {
                AppView {
                    commits,
                    log_branch_only: branch_only,
                    mode: Mode::Log,
                    cursor: 0,
                    ..self
                }.rows_rebuilt()
            },
        }
    }

    /// A commit's files loaded, or not.
    pub open spec fn commit_shown(
        self,
        info: CommitView,
        loaded: Result<Seq<EntryView>, Seq<char>>,
    ) -> AppView {
        match loaded {
            Ok(entries) => AppView {
                entries,
                commit: Some(info),
                mode: Mode::CommitFiles,
                cursor: 0,
                ..self
            }.rows_rebuilt(),
            Err(msg) => self.status("commit files failed: "@ + msg),
        }
    }
}

/// `w` in the log view goes to the branch's own commits and, once they are
/// shown, back to all of them.
pub proof fn law_the_log_filter_toggles(
    s: AppView,
    own: Seq<CommitView>,
    all: Seq<CommitView>,
)
    requires
        s.mode == Mode::Log,
        !s.log_branch_only,
        s.merge_base is Some,
        all.len() > 0,
    ensures
        s.scope_toggled().1 == (EffectView::LoadLog { branch_only: true }),
        ({
            let t = s.log_shown(true, Ok(own));
            &&& t.mode == Mode::Log && t.log_branch_only && t.commits == own
            &&& t.scope_toggled().1 == (EffectView::LoadLog { branch_only: false })
            &&& t.log_shown(false, Ok(all)).commits == all
            &&& !t.log_shown(false, Ok(all)).log_branch_only
        }),
{
    reveal(AppView::rows_rebuilt);
}

/// Opening the log from branch scope starts with the branch's own commits, and
/// the filter is not the scope: leaving the log keeps the scope.
pub proof fn law_the_log_follows_the_scope(
    s: AppView,
    own: Seq<CommitView>,
    loaded: Result<Seq<EntryView>, Seq<char>>,
)
    requires
        s.mode == Mode::Files,
        s.merge_base is Some,
    ensures
        s.log_toggled().1 == (EffectView::LoadLog { branch_only: s.scope == Scope::Branch }),
        s.log_shown(true, Ok(own)).scope == s.scope,
        s.log_shown(true, Ok(own)).log_toggled().1 == EffectView::Reload(ThenView::LeaveHistory),
        s.log_shown(true, Ok(own)).settled(ThenView::LeaveHistory, loaded).scope == s.scope,
        s.log_shown(true, Ok(own)).settled(ThenView::LeaveHistory, loaded).mode == Mode::Files,
{
    reveal(AppView::rows_rebuilt);
    reveal(AppView::refreshed);
}

/// An open question is answered by `y`, `n`, enter and esc only.
pub proof fn law_other_keys_leave_a_question_open(s: AppView, code: KeyCode)
    requires
        s.modal matches Some(m) && m !is Help,
        code != KeyCode::Char('y'),
        code != KeyCode::Char('n'),
        code != KeyCode::Enter,
        code != KeyCode::Esc,
    ensures
        s.modal_keyed(code) == (s, EffectView::Nothing),
{
}

/// Nothing is discarded without a confirmed question.
pub proof fn law_discarding_needs_a_confirmation(s: AppView, key: Key, action: Option<Action>)
    requires
        s.keyed(key, action).1 is Discard,
    ensures
        s.modal is Some && s.modal->0 is Confirm,
        key.code == KeyCode::Char('y') || key.code == KeyCode::Enter,
{
}

pub open spec fn found_view(r: Result<(String, String), String>) -> Result<
    (Seq<char>, Seq<char>),
    Seq<char>,
> {
    match r {
        Ok(p) => Ok((p.0@, p.1@)),
        Err(m) => Err(m@),
    }
}

pub open spec fn log_view(r: Result<Vec<CommitInfo>, String>) -> Result<
    Seq<CommitView>,
    Seq<char>,
> {
    match r {
        Ok(v) => Ok(commits_view(v@)),
        Err(m) => Err(m@),
    }
}

impl App {
    /// A key pressed in this pane, with the action it is bound to.
    pub fn on_key(&mut self, ev: Key, action: Option<Action>) -> (r: Effect)
        ensures
            (final(self)@, r@) == old(self)@.keyed(ev, action),
    {
        if self.modal.is_some() {
            return self.on_modal_key(ev.code);
        }
        let action = match action {
            None => {
                return Effect::Nothing;
            },
            Some(a) => a,
        };
        if self.busy.is_some() {
            if action == Action::Quit && self.mode == Mode::Files {
                self.editor_close_request = Some(EditorThen::QuitView);
                return Effect::Nothing;
            }
            if action == Action::Commit {
                self.editor_close_request = Some(EditorThen::Commit);
                return Effect::Nothing;
            }
            if action == Action::Edit {
                return Effect::Nothing;
            }
        }
        self.act(action)
    }

    /// Press the key of the notes view for the user.
    pub(crate) fn press_notes(&mut self) -> (r: Effect)
        ensures
            (final(self)@, r@) == old(self)@.notes_keyed(),
    {
        if self.modal.is_some() {
            self.on_modal_key(KeyCode::Char('n'))
        } else {
            self.toggle_notes_view()
        }
    }

    fn act(&mut self, action: Action) -> (r: Effect)
        ensures
            (final(self)@, r@) == old(self)@.acted(action),
    {
        match action {
            Action::ToggleScope => self.toggle_scope(),
            Action::Refresh => if self.mode == Mode::Files {
                Effect::Reload(Then::Refresh)
            } else {
                Effect::Nothing
            },
            Action::Log => self.toggle_log(),
            Action::NotesView => self.toggle_notes_view(),
            Action::Quit => self.back_or_quit(),
            Action::Stage => self.stage_toggle(),
            Action::Unstage => self.unstage_selected(),
            _ => {
                self.act_here(action);
                Effect::Nothing
            },
        }
    }

    /// The actions that ask nothing of the outside.
    fn act_here(&mut self, action: Action)
        requires
            !(action is ToggleScope || action is Refresh || action is Log || action is NotesView
                || action is Quit || action is Stage || action is Unstage),
        ensures
            final(self)@ == old(self)@.acted(action).0,
    {
        match action {
            Action::Down => self.move_cursor(true),
            Action::Up => self.move_cursor(false),
            Action::Top => self.cursor_to_edge(true),
            Action::Bottom => self.cursor_to_edge(false),
            Action::ToggleCached => self.set_status("staged/unstaged now follow the list sections"),
            Action::Help => {
                self.modal = Some(Modal::Help);
            },
            Action::Delete => {
                if self.mode == Mode::Notes {
                    self.delete_note_request = match self.selected_note() {
                        Some(n) => Some(n.id),
                        None => None,
                    };
                }
            },
            Action::Annotate => self.ask_annotate(),
            Action::SendNotes => {
                if self.notes.len() == 0 {
                    self.set_status("no notes yet — a annotates a file, v+a lines in the diff");
                } else {
                    self.send_notes_request = true;
                }
            },
            Action::Discard => self.open_discard_confirm(),
            Action::Edit | Action::Commit => self.say_no_preview(),
            _ => {},
        }
    }

    fn ask_annotate(&mut self)
        ensures
            final(self)@ == old(self)@.annotate_asked(),
    {
        let request = match self.selected_entry() {
            Some((entry, staged)) => Some((copy(entry.path.as_str()), staged)),
            None => None,
        };
        match request {
            Some(p) => {
                self.annotate_request = Some(p);
            },
            None => {
                if self.mode == Mode::Notes {
                    self.set_status("annotate from the files view (n to go back)");
                } else {
                    self.set_status("select a file to annotate");
                }
            },
        }
    }

    pub(crate) fn say_no_preview(&mut self)
        ensures
            final(self)@ == old(self)@.no_preview(),
    {
        if self.in_herdr {
            self.set_status("preview not connected — press r to reconnect");
        } else {
            self.set_status("editing needs the preview pane (run inside herdr)");
        }
    }

    /// Keys while a modal is open.
    fn on_modal_key(&mut self, code: KeyCode) -> (r: Effect)
        ensures
            (final(self)@, r@) == old(self)@.modal_keyed(code),
    {
        let mut taken: Option<Modal> = None;
        std::mem::swap(&mut taken, &mut self.modal);
        let yes = code == KeyCode::Char('y') || code == KeyCode::Enter;
        let no = code == KeyCode::Char('n');
        match taken {
            None => Effect::Nothing,
            Some(Modal::Help) => Effect::Nothing,
            Some(Modal::Confirm { text, pending }) => {
                if yes {
                    match pending {
                        PendingAction::Discard { paths } => Effect::Discard(
                            self.discard_paths(&paths),
                        ),
                    }
                } else {
                    if !no && code != KeyCode::Esc {
                        self.modal = Some(Modal::Confirm { text, pending });
                    }
                    Effect::Nothing
                }
            },
            Some(Modal::EditorClose { then }) => {
                if yes {
                    Effect::CloseEditor { save: true, then }
                } else if no {
                    Effect::CloseEditor { save: false, then }
                } else {
                    if code != KeyCode::Esc {
                        self.modal = Some(Modal::EditorClose { then });
                    }
                    Effect::Nothing
                }
            },
        }
    }

    // ---- mouse -----------------------------------------------------------------

    /// The wheel moves the cursor; a click selects the row under the pointer,
    /// and toggles it where it is a directory. Returns true when a double
    /// click should activate the row, as Enter does.
    pub fn on_mouse(&mut self, kind: MouseKind, y: u16) -> (r: bool)
        ensures
            (final(self)@, r) == old(self)@.moused(kind, y),
    {
        if self.modal.is_some() {
            return false;
        }
        match kind {
            MouseKind::ScrollDown => {
                self.move_cursor(true);
                false
            },
            MouseKind::ScrollUp => {
                self.move_cursor(false);
                false
            },
            MouseKind::LeftDown => {
                if y == 0 {
                    return false;
                }
                match self.row_at(y - 1) {
                    Some(i) => {
                        assert(list_view(self.rows@)[i as int] == self.rows@[i as int]@);
                        if self.rows[i].selectable() {
                            self.click(i)
                        } else {
                            false
                        }
                    },
                    None => false,
                }
            },
            MouseKind::LeftDrag | MouseKind::Other => false,
        }
    }

    /// The row drawn `dy` terminal rows below the first one.
    fn row_at(&self, dy: u16) -> (r: Option<usize>)
        ensures
            (match r {
                Some(i) => row_under(self@.rows, self@.list_offset, dy as int) == Some(i as int)
                    && i < self.rows@.len(),
                None => row_under(self@.rows, self@.list_offset, dy as int) is None,
            }),
    {
        let ghost rows = list_view(self.rows@);
        let mut i: usize = self.list_offset;
        let mut left: usize = dy as usize;
        while i < self.rows.len()
            invariant
                self.list_offset <= i,
                i <= self.rows@.len() || i == self.list_offset,
                rows == list_view(self.rows@),
                row_under(rows, self.list_offset as int, dy as int) == row_under(
                    rows,
                    i as int,
                    left as int,
                ),
            decreases self.rows@.len() - i,
        {
            assert(rows[i as int] == self.rows@[i as int]@);
            let h = self.rows[i].height();
            if left < h {
                return Some(i);
            }
            left -= h;
            i += 1;
        }
        None
    }

    fn click(&mut self, i: usize) -> (r: bool)
        requires
            i < old(self).rows@.len(),
        ensures
            (final(self)@, r) == old(self)@.clicked(i as int),
    {
        assert(list_view(self.rows@)[i as int] == self.rows@[i as int]@);
        let before = self.last_click;
        self.cursor = i;
        self.last_click = Some((i, self.now));
        let dir = match &self.rows[i] {
            ListRow::Dir { path, section, .. } => Some((copy(path.as_str()), *section)),
            _ => None,
        };
        match dir {
            Some((path, section)) => {
                self.toggle_dir(section, path.as_str());
                false
            },
            None => match before {
                Some((j, at)) => i == j && self.now.saturating_sub(at) < DOUBLE_CLICK_MS,
                None => false,
            },
        }
    }

    // ---- answers -----------------------------------------------------------------

    /// The view was opened: the configured scope is gone to.
    pub fn open_scope(&mut self) -> (r: Effect)
        ensures
            (final(self)@, r@) == (if old(self)@.cfg.default_scope == Scope::Branch {
                old(self)@.keyed(Key::bare(KeyCode::Other), Some(Action::ToggleScope))
            } else {
                (old(self)@, EffectView::Nothing)
            }),
    {
        if self.cfg.default_scope == Scope::Branch {
            self.on_key(Key::plain(KeyCode::Other), Some(Action::ToggleScope))
        } else {
            Effect::Nothing
        }
    }

    /// The base branch and its merge base with HEAD were looked for.
    pub fn base_resolved(
        &mut self,
        purpose: BaseFor,
        found: Result<(String, String), String>,
    ) -> (r: Effect)
        ensures
            (final(self)@, r@) == old(self)@.base_found(purpose, found_view(found)),
    {
        match found {
            Err(err) => {
                let mut msg = copy("no base found: ");
                append(&mut msg, err.as_str());
                self.set_status(msg.as_str());
                Effect::Nothing
            },
            Ok((base, merge_base)) => {
                self.base = base;
                self.merge_base = Some(merge_base);
                match purpose {
                    BaseFor::Scope => {
                        self.scope = Scope::Branch;
                        Effect::Reload(Then::Refresh)
                    },
                    BaseFor::Log => Effect::LoadLog { branch_only: true },
                }
            },
        }
    }

    /// The log was loaded.
    pub fn log_loaded(&mut self, branch_only: bool, loaded: Result<Vec<CommitInfo>, String>)
        ensures
            final(self)@ == old(self)@.log_shown(branch_only, log_view(loaded)),
    {
        match loaded {
            Err(err) => {
                let mut msg = copy("log failed: ");
                append(&mut msg, err.as_str());
                self.set_status(msg.as_str());
            },
            Ok(commits) => {
                assert(commits_view(commits@).len() == commits@.len());
                if commits.len() == 0 && !branch_only {
                    self.set_status("no commits yet");
                    return ;
                }
                self.commits = commits;
                self.log_branch_only = branch_only;
                self.mode = Mode::Log;
                self.cursor = 0;
                self.rebuild_rows();
            },
        }
    }

    /// A commit's files were loaded.
    pub fn commit_loaded(&mut self, info: CommitInfo, loaded: Result<Vec<FileEntry>, String>)
        ensures
            final(self)@ == old(self)@.commit_shown(info@, loaded_view(loaded)),
    {
        match loaded {
            Ok(entries) => {
                self.entries = entries;
                self.commit = Some(info);
                self.mode = Mode::CommitFiles;
                self.cursor = 0;
                self.rebuild_rows();
            },
            Err(err) => {
                let mut msg = copy("commit files failed: ");
                append(&mut msg, err.as_str());
                self.set_status(msg.as_str());
            },
        }
    }

    /// Files were staged or unstaged, or git refused.
    pub fn mutated(&mut self, m: Mutation, failure: Option<String>) -> (r: Effect)
        ensures
            (match failure {
                Some(err) => final(self)@ == old(self)@.status(first_line_of(err@)) && r@
                    == EffectView::Nothing,
                None => final(self)@ == old(self)@ && r@ == EffectView::Reload(
                    ThenView::Mutated(m@),
                ),
            }),
    {
        match failure {
            Some(err) => {
                let msg = first_line(err.as_str());
                self.set_status(msg.as_str());
                Effect::Nothing
            },
            None => Effect::Reload(Then::Mutated(m)),
        }
    }

    /// Changes were discarded, up to the first failure.
    pub fn discarded(&mut self, failure: Option<String>) -> (r: Effect)
        ensures
            ({
                let s = match failure {
                    Some(err) => old(self)@.status(first_line_of(err@)),
                    None => old(self)@,
                };
                if s.mode == Mode::Files {
                    final(self)@ == s && r@ == EffectView::Reload(ThenView::Changed)
                } else {
                    final(self)@ == (AppView { needs_reshow: true, ..s }) && r@
                        == EffectView::Nothing
                }
            }),
    {
        if let Some(err) = failure {
            let msg = first_line(err.as_str());
            self.set_status(msg.as_str());
        }
        if self.mode == Mode::Files {
            Effect::Reload(Then::Changed)
        } else {
            self.needs_reshow = true;
            Effect::Nothing
        }
    }

    /// The editor was told to close; the resumed action runs when it has.
    pub fn editor_told(&mut self, delivered: bool, then: EditorThen)
        ensures
            final(self)@ == (if delivered {
                AppView { after_edit: Some(then), ..old(self)@ }
            } else {
                old(self)@.status("could not close the editor"@)
            }),
    {
        if delivered {
            self.after_edit = Some(then);
        } else {
            self.set_status("could not close the editor");
        }
    }
}

// ---- what keys lead to -----------------------------------------------------------

proof fn lemma_entry_found(entries: Seq<EntryView>, from: int, i: int)
    requires
        0 <= from <= i < entries.len(),
        forall|k: int|
            0 <= k < entries.len() && k != i ==> !same_path(
                (#[trigger] entries[k]).path,
                entries[i].path,
            ),
    ensures
        entry_of(entries, entries[i].path, from) == seq![entries[i]],
    decreases i - from,
{
    if from < i {
        assert(!same_path(entries[from].path, entries[i].path));
        lemma_entry_found(entries, from + 1, i);
    } else {
        assert(same_path(entries[i].path, entries[i].path));
    }
}

/// A confirmed question discards the file that it was asked about, and a denied
/// one nothing. No two entries go by one path.
pub proof fn law_a_confirmed_discard_is_of_that_file(s: AppView, ask: Key, answer: Key)
    requires
        s.modal is None,
        s.mode == Mode::Files,
        s.scope == Scope::Worktree,
        s.row() matches Some(ListRowView::Entry { idx, .. }) && 0 <= idx < s.entries.len()
            && s.entries[idx].kind != ChangeKind::Conflicted && forall|k: int|
            0 <= k < s.entries.len() && k != idx ==> !same_path(
                (#[trigger] s.entries[k]).path,
                s.entries[idx].path,
            ),
    ensures
        ({
            let e = (s.entry()->Some_0).0;
            let asked = s.keyed(ask, Some(Action::Discard)).0;
            &&& s.keyed(ask, Some(Action::Discard)).1 is Nothing
            &&& asked.entries == s.entries
            &&& answer.code == KeyCode::Char('y') || answer.code == KeyCode::Enter
                ==> asked.keyed(answer, None) == (
                AppView { modal: None, ..asked },
                EffectView::Discard(seq![e]),
            )
            &&& answer.code == KeyCode::Char('n') || answer.code == KeyCode::Esc
                ==> asked.keyed(answer, None) == (s, EffectView::Nothing)
        }),
{
    law_keys_are_about_the_file_under_the_cursor(s);
    let idx = s.row()->0->Entry_idx;
    let e = s.entries[idx];
    lemma_entry_found(s.entries, 0, idx);
    reveal_with_fuel(entries_of, 2);
    assert(entries_of(s.entries, seq![e.path], 1) =~= seq![e]);
}

/// The editor is closed with its changes saved on yes, thrown away on no, and
/// not at all on esc.
pub proof fn law_the_answer_decides_what_the_editor_does(s: AppView, then: EditorThen)
    requires
        s.modal == Some(ModalView::EditorClose { then }),
    ensures
        s.modal_keyed(KeyCode::Char('y')).1 == (EffectView::CloseEditor { save: true, then }),
        s.modal_keyed(KeyCode::Enter).1 == (EffectView::CloseEditor { save: true, then }),
        s.modal_keyed(KeyCode::Char('n')).1 == (EffectView::CloseEditor { save: false, then }),
        s.modal_keyed(KeyCode::Esc).1 == EffectView::Nothing,
        forall|code: KeyCode| (#[trigger] s.modal_keyed(code)).1 !is Nothing ==> s.modal_keyed(
            code,
        ).0.modal is None,
{
}

/// The keys that move the cursor move it their way, and do nothing else.
pub proof fn law_moving_keys_only_move(s: AppView, key: Key)
    requires
        s.modal is None,
        0 <= s.cursor < s.rows.len(),
    ensures
        s.keyed(key, Some(Action::Down)).0.cursor >= s.cursor,
        s.keyed(key, Some(Action::Up)).0.cursor <= s.cursor,
        forall|a: Action|
            a == Action::Down || a == Action::Up || a == Action::Top || a == Action::Bottom ==> (
            #[trigger] s.keyed(key, Some(a))).1 is Nothing && s.keyed(key, Some(a)).0 == (AppView {
                cursor: s.keyed(key, Some(a)).0.cursor,
                ..s
            }),
        s.keyed(key, None) == (s, EffectView::Nothing),
{
    law_stepping_goes_to_the_nearest_row(s);
}

/// A click selects the row under the pointer. On a file it is activated by a
/// second click on the same row within four tenths of a second.
pub proof fn law_a_click_selects_its_row(s: AppView, i: int)
    requires
        0 <= i < s.rows.len(),
        s.rows[i] !is Dir,
        s.last_click matches Some((_, at)) ==> at <= s.now,
    ensures
        s.clicked(i).0.cursor == i,
        s.clicked(i).0.rows == s.rows,
        s.clicked(i).1 <==> (s.last_click matches Some((j, at)) && j == i && s.now - at < 400),
        s.clicked(i).0.last_click == Some((i, s.now)),
{
}

/// A note is asked for on the selected file, and on its staged side where it is
/// shown as staged.
pub proof fn law_a_note_is_asked_for_on_the_selected_file(s: AppView, key: Key)
    requires
        s.modal is None,
        s.entry() is Some,
    ensures
        ({
            let (e, section) = s.entry()->Some_0;
            s.keyed(key, Some(Action::Annotate)) == (
                AppView { annotate_request: Some((e.path, section == Section::Staged)), ..s },
                EffectView::Nothing,
            )
        }),
{
}

/// A base that was found is what the branch is compared with from then on. One
/// that was not leaves everything as it is, and says so.
pub proof fn law_a_found_base_is_kept(
    s: AppView,
    base: Seq<char>,
    merge_base: Seq<char>,
    msg: Seq<char>,
)
    ensures
        ({
            let (t, effect) = s.base_found(BaseFor::Scope, Ok((base, merge_base)));
            &&& t.base == base && t.merge_base == Some(merge_base)
            &&& t.scope == Scope::Branch
            &&& effect == EffectView::Reload(ThenView::Refresh)
        }),
        ({
            let (t, effect) = s.base_found(BaseFor::Log, Ok((base, merge_base)));
            &&& t.base == base && t.merge_base == Some(merge_base)
            &&& t.scope == s.scope
            &&& effect == EffectView::LoadLog { branch_only: true }
        }),
        forall|purpose: BaseFor|
            {
                let (t, effect) = #[trigger] s.base_found(purpose, Err(msg));
                &&& t == (AppView { status_msg: t.status_msg, ..s })
                &&& t.status_msg is Some
                &&& effect == EffectView::Nothing
            },
{
}

/// The files of a commit take the place of the commits, with the cursor at the
/// top. Where they could not be loaded the commits stay.
pub proof fn law_a_commit_shows_its_files(
    s: AppView,
    info: CommitView,
    entries: Seq<EntryView>,
    msg: Seq<char>,
)
    ensures
        s.commit_shown(info, Ok(entries)).entries == entries,
        s.commit_shown(info, Ok(entries)).commit == Some(info),
        s.commit_shown(info, Ok(entries)).mode == Mode::CommitFiles,
        s.commit_shown(info, Err(msg)).mode == s.mode,
        s.commit_shown(info, Err(msg)).entries == s.entries,
        s.commit_shown(info, Err(msg)).commit == s.commit,
{
    reveal(AppView::rows_rebuilt);
}

} // verus!
