//! List-pane state and the input-to-action logic.
//!
//! The state owns no channels or terminals and never runs git: where an
//! action needs git or the editor, it hands back an `Effect`, and a method
//! takes what came of it.
use crate::config::{Config, ConfigView};
use crate::git::{entries_view, CommitInfo, CommitView, EntryView, FileEntry, Scope, StageState};
use crate::ipc::{infos_view, NoteInfo, NoteInfoView};
use crate::list::rows::{
    collapsed_view, flat_tree_rows, grouped, grouped_rows, list_view, note_rows, rows_of_notes,
    tree_rows, ListRow, ListRowView, Section,
};
use crate::path::{path_eq, same_path};
use crate::repo::{commits_view, Repo};
use crate::text::{append, append_dec, copy, dec, opt_str, strs};
use vstd::prelude::*;

verus! {

broadcast use vstd::string::group_string_axioms;

/// How long a transient footer message stays visible, in milliseconds.
pub const STATUS_MS: u64 = 3000;

/// Two clicks on a row within this many milliseconds are a double click.
pub const DOUBLE_CLICK_MS: u64 = 400;

/// How many commits the history view loads.
pub const LOG_LIMIT: usize = 200;

/// What the list is currently showing.
#[derive(Debug, Clone, Copy, PartialEq, Eq, Structural)]
pub enum Mode {
    /// Working-tree or branch changes (the normal view).
    Files,
    /// `git log`: pick a commit to inspect.
    Log,
    /// The files changed by the selected commit.
    CommitFiles,
    /// The batched review notes.
    Notes,
}

/// What to do once the editor has been closed.
#[derive(Debug, Clone, Copy, PartialEq, Eq, Structural)]
pub enum EditorThen {
    QuitView,
    Commit,
}

/// What a confirmed question should do.
#[derive(Debug)]
pub enum PendingAction {
    /// Paths, not positions, so that a refresh between question and answer
    /// cannot discard the wrong file.
    Discard { paths: Vec<String> },
}

/// A centered overlay that captures all keys while open.
#[derive(Debug)]
pub enum Modal {
    Help,
    /// Yes/no question; `y`/enter runs the pending action, `n`/esc cancels.
    Confirm { text: String, pending: PendingAction },
    /// The editor has unsaved changes and something needs it closed: `y` saves
    /// and closes, `n` discards and closes, esc cancels.
    EditorClose { then: EditorThen },
}

#[verifier::ext_equal]
pub enum ModalView {
    Help,
    Confirm { text: Seq<char>, discard: Seq<Seq<char>> },
    EditorClose { then: EditorThen },
}

impl View for Modal {
    type V = ModalView;

    open spec fn view(&self) -> ModalView {
        match self {
            Modal::Help => ModalView::Help,
            Modal::Confirm { text, pending } => ModalView::Confirm {
                text: text@,
                discard: match pending {
                    PendingAction::Discard { paths } => strs(paths@),
                },
            },
            Modal::EditorClose { then } => ModalView::EditorClose { then: *then },
        }
    }
}

pub open spec fn opt_modal(m: Option<Modal>) -> Option<ModalView> {
    match m {
        Some(x) => Some(x@),
        None => None,
    }
}

/// Paths to stage or unstage, and what to say of it.
#[derive(Debug)]
pub struct Mutation {
    pub unstage: bool,
    pub paths: Vec<String>,
    /// The directory row that it was asked for on.
    pub folder: Option<String>,
    /// Whether to report the outcome.
    pub report: bool,
}

#[verifier::ext_equal]
pub struct MutationView {
    pub unstage: bool,
    pub paths: Seq<Seq<char>>,
    pub folder: Option<Seq<char>>,
    pub report: bool,
}

impl View for Mutation {
    type V = MutationView;

    open spec fn view(&self) -> MutationView {
        MutationView {
            unstage: self.unstage,
            paths: strs(self.paths@),
            folder: opt_str(self.folder),
            report: self.report,
        }
    }
}

/// What a reload is for.
#[derive(Debug)]
pub enum Then {
    /// Nothing more.
    Refresh,
    /// Back from the notes view.
    LeaveNotes,
    /// Back from the history views.
    LeaveHistory,
    /// Files on disk changed: show the diff again.
    Changed,
    /// Files were staged or unstaged.
    Mutated(Mutation),
}

#[verifier::ext_equal]
pub enum ThenView {
    Refresh,
    LeaveNotes,
    LeaveHistory,
    Changed,
    Mutated(MutationView),
}

impl View for Then {
    type V = ThenView;

    open spec fn view(&self) -> ThenView {
        match self {
            Then::Refresh => ThenView::Refresh,
            Then::LeaveNotes => ThenView::LeaveNotes,
            Then::LeaveHistory => ThenView::LeaveHistory,
            Then::Changed => ThenView::Changed,
            Then::Mutated(m) => ThenView::Mutated(m@),
        }
    }
}

/// What the base branch is resolved for.
#[derive(Debug, Clone, Copy, PartialEq, Eq, Structural)]
pub enum BaseFor {
    Scope,
    Log,
}

/// What an action asks of the outside.
#[derive(Debug)]
pub enum Effect {
    Nothing,
    /// Load the entries of the scope and go on with `reloaded`.
    Reload(Then),
    /// Find the base branch and its merge base; go on with `base_resolved`.
    ResolveBase(BaseFor),
    /// Load the history, all of it or the branch's; go on with `log_loaded`.
    LoadLog { branch_only: bool },
    /// Load the files of a commit; go on with `commit_loaded`.
    LoadCommit { info: CommitInfo },
    /// Stage or unstage; go on with `mutated`.
    Mutate(Mutation),
    /// Discard the changes of these entries, up to the first failure; go on
    /// with `discarded`.
    Discard(Vec<FileEntry>),
    /// Tell the editor to close; go on with `editor_told`.
    CloseEditor { save: bool, then: EditorThen },
}

#[verifier::ext_equal]
pub enum EffectView {
    Nothing,
    Reload(ThenView),
    ResolveBase(BaseFor),
    LoadLog { branch_only: bool },
    LoadCommit { info: CommitView },
    Mutate(MutationView),
    Discard(Seq<EntryView>),
    CloseEditor { save: bool, then: EditorThen },
}

impl View for Effect {
    type V = EffectView;

    open spec fn view(&self) -> EffectView {
        match self {
            Effect::Nothing => EffectView::Nothing,
            Effect::Reload(t) => EffectView::Reload(t@),
            Effect::ResolveBase(b) => EffectView::ResolveBase(*b),
            Effect::LoadLog { branch_only } => EffectView::LoadLog { branch_only: *branch_only },
            Effect::LoadCommit { info } => EffectView::LoadCommit { info: info@ },
            Effect::Mutate(m) => EffectView::Mutate(m@),
            Effect::Discard(v) => EffectView::Discard(entries_view(v@)),
            Effect::CloseEditor { save, then } => EffectView::CloseEditor {
                save: *save,
                then: *then,
            },
        }
    }
}

pub struct App {
    pub repo: Repo,
    pub cfg: Config,
    /// Whether a host runs this pane (and so there can be a preview).
    pub in_herdr: bool,
    /// The time of the event at hand, in milliseconds; set by the event loop.
    pub now: u64,
    pub mode: Mode,
    pub scope: Scope,
    /// Entries backing the Files and CommitFiles views.
    pub entries: Vec<FileEntry>,
    /// Commits backing the Log view.
    pub commits: Vec<CommitInfo>,
    /// Whether the Log view holds only the commits of this branch.
    pub log_branch_only: bool,
    /// The commit whose files the CommitFiles view shows.
    pub commit: Option<CommitInfo>,
    /// Directories that are collapsed, each in its section.
    pub collapsed: Vec<(Section, String)>,
    /// Visual rows derived from the above; `cursor` indexes them and rests on
    /// a selectable row.
    pub rows: Vec<ListRow>,
    pub cursor: usize,
    pub list_offset: usize,
    /// Base branch and its merge base with HEAD, resolved when first needed.
    pub base: String,
    pub merge_base: Option<String>,
    /// Current branch for the header (None = detached HEAD).
    pub branch: Option<String>,
    /// Transient footer message and when it was set.
    pub status_msg: Option<(String, u64)>,
    pub should_quit: bool,
    pub modal: Option<Modal>,
    /// Header text while the preview's terminal is busy (editor or commit):
    /// actions that need it are refused until then.
    pub busy: Option<String>,
    /// Set when the shown diff's content changed without the selection
    /// changing.
    pub needs_reshow: bool,
    /// Action to resume after the editor finishes closing.
    pub after_edit: Option<EditorThen>,
    /// An action needs the editor closed: ask it whether it has unsaved
    /// changes.
    pub editor_close_request: Option<EditorThen>,
    /// Last left click (row, time) for double-click detection.
    pub last_click: Option<(usize, u64)>,
    /// True while the modal is shown as a floating popup instead of the
    /// overlay.
    pub modal_external: bool,
    /// Review notes (owned by the preview, mirrored for the notes view).
    pub notes: Vec<NoteInfo>,
    /// Where the notes view was opened from.
    pub notes_return: Option<Mode>,
    /// A whole-file note is asked for: the file, and whether of its staged side.
    pub annotate_request: Option<(String, bool)>,
    pub send_notes_request: bool,
    /// A note is to be rewritten: its id and text.
    pub edit_note_request: Option<(u64, String)>,
    pub delete_note_request: Option<u64>,
}

#[verifier::ext_equal]
pub struct AppView {
    pub root: Seq<char>,
    pub cfg: ConfigView,
    pub in_herdr: bool,
    pub now: u64,
    pub mode: Mode,
    pub scope: Scope,
    pub entries: Seq<EntryView>,
    pub commits: Seq<CommitView>,
    pub log_branch_only: bool,
    pub commit: Option<CommitView>,
    pub collapsed: Seq<(Section, Seq<char>)>,
    pub rows: Seq<ListRowView>,
    pub cursor: int,
    pub list_offset: int,
    pub base: Seq<char>,
    pub merge_base: Option<Seq<char>>,
    pub branch: Option<Seq<char>>,
    pub status_msg: Option<(Seq<char>, u64)>,
    pub should_quit: bool,
    pub modal: Option<ModalView>,
    pub busy: Option<Seq<char>>,
    pub needs_reshow: bool,
    pub after_edit: Option<EditorThen>,
    pub editor_close_request: Option<EditorThen>,
    pub last_click: Option<(int, u64)>,
    pub modal_external: bool,
    pub notes: Seq<NoteInfoView>,
    pub notes_return: Option<Mode>,
    pub annotate_request: Option<(Seq<char>, bool)>,
    pub send_notes_request: bool,
    pub edit_note_request: Option<(u64, Seq<char>)>,
    pub delete_note_request: Option<u64>,
}

pub open spec fn opt_commit(c: Option<CommitInfo>) -> Option<CommitView> {
    match c {
        Some(x) => Some(x@),
        None => None,
    }
}

pub open spec fn opt_status(m: Option<(String, u64)>) -> Option<(Seq<char>, u64)> {
    match m {
        Some(x) => Some((x.0@, x.1)),
        None => None,
    }
}

pub open spec fn opt_click(c: Option<(usize, u64)>) -> Option<(int, u64)> {
    match c {
        Some(x) => Some((x.0 as int, x.1)),
        None => None,
    }
}

pub open spec fn opt_annotate(a: Option<(String, bool)>) -> Option<(Seq<char>, bool)> {
    match a {
        Some(x) => Some((x.0@, x.1)),
        None => None,
    }
}

pub open spec fn opt_edit(a: Option<(u64, String)>) -> Option<(u64, Seq<char>)> {
    match a {
        Some(x) => Some((x.0, x.1@)),
        None => None,
    }
}

impl View for App {
    type V = AppView;

    open spec fn view(&self) -> AppView {
        AppView {
            root: self.repo.root@,
            cfg: self.cfg@,
            in_herdr: self.in_herdr,
            now: self.now,
            mode: self.mode,
            scope: self.scope,
            entries: entries_view(self.entries@),
            commits: commits_view(self.commits@),
            log_branch_only: self.log_branch_only,
            commit: opt_commit(self.commit),
            collapsed: collapsed_view(self.collapsed@),
            rows: list_view(self.rows@),
            cursor: self.cursor as int,
            list_offset: self.list_offset as int,
            base: self.base@,
            merge_base: opt_str(self.merge_base),
            branch: opt_str(self.branch),
            status_msg: opt_status(self.status_msg),
            should_quit: self.should_quit,
            modal: opt_modal(self.modal),
            busy: opt_str(self.busy),
            needs_reshow: self.needs_reshow,
            after_edit: self.after_edit,
            editor_close_request: self.editor_close_request,
            last_click: opt_click(self.last_click),
            modal_external: self.modal_external,
            notes: infos_view(self.notes@),
            notes_return: self.notes_return,
            annotate_request: opt_annotate(self.annotate_request),
            send_notes_request: self.send_notes_request,
            edit_note_request: opt_edit(self.edit_note_request),
            delete_note_request: self.delete_note_request,
        }
    }
}

// ---- the cursor --------------------------------------------------------------

/// The first selectable row from `i` on.
pub open spec fn select_after(rows: Seq<ListRowView>, i: int) -> Option<int>
    decreases rows.len() - i,
{
    if i < 0 || i >= rows.len() {
        None
    } else if rows[i].can_select() {
        Some(i)
    } else {
        select_after(rows, i + 1)
    }
}

/// The last selectable row up to `i`.
pub open spec fn select_before(rows: Seq<ListRowView>, i: int) -> Option<int>
    decreases i + 1,
{
    if i < 0 || i >= rows.len() {
        None
    } else if rows[i].can_select() {
        Some(i)
    } else {
        select_before(rows, i - 1)
    }
}

/// The row for a cursor at `at`: the nearest selectable one at or behind it,
/// else before it; the first row where none is selectable.
pub open spec fn snapped_cursor(rows: Seq<ListRowView>, at: int) -> int {
    if rows.len() == 0 {
        0
    } else {
        let start = if at < rows.len() {
            at
        } else {
            rows.len() - 1
        };
        match (select_after(rows, start), select_before(rows, start - 1)) {
            (Some(i), _) => i,
            (None, Some(i)) => i,
            (None, None) => 0,
        }
    }
}

/// The row that `dy` terminal rows below row `offset` belongs to.
pub open spec fn row_under(rows: Seq<ListRowView>, offset: int, dy: int) -> Option<int>
    decreases rows.len() - offset,
{
    if offset < 0 || offset >= rows.len() {
        None
    } else if dy < rows[offset].rows_high() {
        Some(offset)
    } else {
        row_under(rows, offset + 1, dy - rows[offset].rows_high())
    }
}

/// Whether row `i` is an entry of this path, in this section where one is
/// asked for.
pub open spec fn is_entry_at(
    rows: Seq<ListRowView>,
    entries: Seq<EntryView>,
    i: int,
    path: Seq<char>,
    section: Option<Section>,
) -> bool {
    match rows[i] {
        ListRowView::Entry { idx, section: s, .. } => 0 <= idx < entries.len() && same_path(
            entries[idx].path,
            path,
        ) && (section is None || section == Some(s)),
        _ => false,
    }
}

/// The first such row from `i` on.
pub open spec fn find_entry(
    rows: Seq<ListRowView>,
    entries: Seq<EntryView>,
    i: int,
    path: Seq<char>,
    section: Option<Section>,
) -> Option<int>
    decreases rows.len() - i,
{
    if i < 0 || i >= rows.len() {
        None
    } else if is_entry_at(rows, entries, i, path, section) {
        Some(i)
    } else {
        find_entry(rows, entries, i + 1, path, section)
    }
}

impl AppView {
    /// The rows of the current view.
    pub open spec fn view_rows(self) -> Seq<ListRowView> {
        match self.mode {
            Mode::Log => Seq::new(self.commits.len(), |i: int| ListRowView::Commit(i)),
            Mode::Notes => note_rows(self.notes),
            Mode::CommitFiles => tree_rows(self.entries, Section::Flat, self.collapsed),
            Mode::Files => if self.scope == Scope::Branch {
                tree_rows(self.entries, Section::Flat, self.collapsed)
            } else {
                grouped_rows(self.entries, self.collapsed)
            },
        }
    }

    /// The rows derived anew, with the cursor on a selectable one.
    #[verifier::opaque]
    pub open spec fn rows_rebuilt(self) -> AppView {
        let rows = self.view_rows();
        AppView { rows, cursor: snapped_cursor(rows, self.cursor), ..self }
    }

    /// The row under the cursor.
    pub open spec fn row(self) -> Option<ListRowView> {
        if 0 <= self.cursor < self.rows.len() {
            Some(self.rows[self.cursor])
        } else {
            None
        }
    }

    /// The selected entry and its section.
    pub open spec fn entry(self) -> Option<(EntryView, Section)> {
        match self.row() {
            Some(ListRowView::Entry { idx, section, .. }) => if 0 <= idx < self.entries.len() {
                Some((self.entries[idx], section))
            } else {
                None
            },
            _ => None,
        }
    }

    pub open spec fn picked_commit(self) -> Option<CommitView> {
        match self.row() {
            Some(ListRowView::Commit(i)) => if 0 <= i < self.commits.len() {
                Some(self.commits[i])
            } else {
                None
            },
            _ => None,
        }
    }

    /// The selected note.
    pub open spec fn note(self) -> Option<NoteInfoView> {
        match self.row() {
            Some(ListRowView::Note(i)) => if 0 <= i < self.notes.len() {
                Some(self.notes[i])
            } else {
                None
            },
            _ => None,
        }
    }

    pub open spec fn status(self, msg: Seq<char>) -> AppView {
        AppView { status_msg: Some((msg, self.now)), ..self }
    }

    pub open spec fn stepped(self, down: bool) -> AppView {
        let to = if down {
            select_after(self.rows, self.cursor + 1)
        } else {
            select_before(self.rows, self.cursor - 1)
        };
        match to {
            Some(i) => AppView { cursor: i, ..self },
            None => self,
        }
    }

    pub open spec fn at_edge(self, top: bool) -> AppView {
        let to = if top {
            select_after(self.rows, 0)
        } else {
            select_before(self.rows, self.rows.len() - 1)
        };
        match to {
            Some(i) => AppView { cursor: i, ..self },
            None => self,
        }
    }

    /// The cursor on the entry that it was on: the same path in the same
    /// section, else the same path anywhere.
    pub open spec fn cursor_restored(self, keep: Option<(EntryView, Section)>) -> AppView {
        let found = match keep {
            None => None,
            Some((e, section)) => match find_entry(
                self.rows,
                self.entries,
                0,
                e.path,
                Some(section),
            ) {
                Some(i) => Some(i),
                None => find_entry(self.rows, self.entries, 0, e.path, None),
            },
        };
        match found {
            Some(i) => AppView { cursor: i, ..self },
            None => AppView { cursor: snapped_cursor(self.rows, self.cursor), ..self },
        }
    }

    /// New entries taken over, with the cursor kept where it was. The history
    /// views and the notes are snapshots and stay.
    #[verifier::opaque]
    pub open spec fn refreshed(self, loaded: Result<Seq<EntryView>, Seq<char>>) -> AppView {
        if self.mode != Mode::Files {
            self
        } else {
            match loaded {
                Ok(entries) => AppView { entries, ..self }.rows_rebuilt().cursor_restored(
                    self.entry(),
                ),
                Err(msg) => self.status("refresh failed: "@ + msg),
            }
        }
    }

    /// Whether there are entries and all of them are staged.
    pub open spec fn all_staged(self) -> bool {
        self.entries.len() > 0 && forall|i: int|
            0 <= i < self.entries.len() ==> (#[trigger] self.entries[i]).stage
                == StageState::Staged
    }

    /// The outcome of staging or unstaging said.
    #[verifier::opaque]
    pub open spec fn reported(self, m: MutationView) -> AppView {
        if !m.report {
            self
        } else if self.all_staged() {
            self.status("all changes staged — c to commit"@)
        } else {
            match m.folder {
                Some(folder) => self.status(
                    (if m.unstage {
                        "unstaged"@
                    } else {
                        "staged"@
                    }) + " "@ + dec(m.paths.len()) + " file(s) under "@ + folder,
                ),
                None => self,
            }
        }
    }

    /// The view that the notes view goes back to.
    pub open spec fn back_from_notes(self) -> Mode {
        match self.notes_return {
            Some(m) => m,
            None => Mode::Files,
        }
    }

    /// What a reload was for, done with what it loaded.
    pub open spec fn settled(
        self,
        then: ThenView,
        loaded: Result<Seq<EntryView>, Seq<char>>,
    ) -> AppView {
        match then {
            ThenView::Refresh => self.refreshed(loaded),
            ThenView::LeaveNotes => AppView {
                mode: self.back_from_notes(),
                notes_return: None,
                cursor: 0,
                ..self
            }.refreshed(loaded).rows_rebuilt(),
            ThenView::LeaveHistory => AppView {
                mode: Mode::Files,
                commit: None,
                cursor: 0,
                ..self
            }.refreshed(loaded).rows_rebuilt(),
            ThenView::Changed => AppView { needs_reshow: true, ..self.refreshed(loaded) },
            ThenView::Mutated(m) => AppView {
                needs_reshow: true,
                ..self.refreshed(loaded)
            }.reported(m),
        }
    }

    /// Whether the directory is collapsed.
    pub open spec fn is_collapsed(self, section: Section, path: Seq<char>) -> bool {
        self.collapsed.contains((section, path))
    }

    /// The directory collapsed, or expanded where it was collapsed.
    pub open spec fn dir_toggled(self, section: Section, path: Seq<char>) -> AppView {
        AppView {
            collapsed: if self.is_collapsed(section, path) {
                uncollapsed(self.collapsed, (section, path), self.collapsed.len() as int)
            } else {
                self.collapsed.push((section, path))
            },
            ..self
        }.rows_rebuilt()
    }

    /// The notes view opened.
    pub open spec fn notes_opened(self) -> AppView {
        if self.notes.len() == 0 {
            self.status("no notes yet"@)
        } else {
            AppView {
                notes_return: Some(self.mode),
                mode: Mode::Notes,
                cursor: 0,
                ..self
            }.rows_rebuilt()
        }
    }

    /// The notes view toggled.
    pub open spec fn notes_toggled(self) -> (AppView, EffectView) {
        if self.mode == Mode::Notes {
            if self.back_from_notes() == Mode::Files {
                (self, EffectView::Reload(ThenView::LeaveNotes))
            } else {
                (
                    AppView {
                        mode: self.back_from_notes(),
                        notes_return: None,
                        cursor: 0,
                        ..self
                    }.rows_rebuilt(),
                    EffectView::Nothing,
                )
            }
        } else {
            (self.notes_opened(), EffectView::Nothing)
        }
    }

    /// The log view toggled. Entered from branch scope it starts filtered.
    pub open spec fn log_toggled(self) -> (AppView, EffectView) {
        match self.mode {
            Mode::Notes => (self.status("leave the notes view first (n)"@), EffectView::Nothing),
            Mode::Files => (self, self.log_effect(self.scope == Scope::Branch)),
            Mode::Log | Mode::CommitFiles => (self, EffectView::Reload(ThenView::LeaveHistory)),
        }
    }

    /// What loading the log takes: the branch's commits need the merge base.
    pub open spec fn log_effect(self, branch_only: bool) -> EffectView {
        if branch_only && self.merge_base is None {
            EffectView::ResolveBase(BaseFor::Log)
        } else {
            EffectView::LoadLog { branch_only }
        }
    }

    /// The scope toggled; in the log view its filter.
    pub open spec fn scope_toggled(self) -> (AppView, EffectView) {
        match self.mode {
            Mode::Log => (self, self.log_effect(!self.log_branch_only)),
            Mode::CommitFiles | Mode::Notes => (
                self.status("read-only in history view"@),
                EffectView::Nothing,
            ),
            Mode::Files => match self.scope {
                Scope::Worktree => if self.merge_base is None {
                    (self, EffectView::ResolveBase(BaseFor::Scope))
                } else {
                    (
                        AppView { scope: Scope::Branch, ..self },
                        EffectView::Reload(ThenView::Refresh),
                    )
                },
                Scope::Branch => (
                    AppView { scope: Scope::Worktree, ..self },
                    EffectView::Reload(ThenView::Refresh),
                ),
            },
        }
    }

    /// One step back: from a commit's files to the log, from there or the
    /// notes to the files, and from the files out.
    pub open spec fn backed(self) -> (AppView, EffectView) {
        match self.mode {
            Mode::CommitFiles => (
                AppView {
                    commit: None,
                    mode: Mode::Log,
                    entries: Seq::empty(),
                    cursor: 0,
                    ..self
                }.rows_rebuilt(),
                EffectView::Nothing,
            ),
            Mode::Log => (self, EffectView::Reload(ThenView::LeaveHistory)),
            Mode::Notes => self.notes_toggled(),
            Mode::Files => (AppView { should_quit: true, ..self }, EffectView::Nothing),
        }
    }
}

/// The first `n` collapsed directories without `p`.
pub open spec fn uncollapsed(
    c: Seq<(Section, Seq<char>)>,
    p: (Section, Seq<char>),
    n: int,
) -> Seq<(Section, Seq<char>)>
    decreases n,
{
    if n <= 0 {
        Seq::empty()
    } else if c[n - 1] == p {
        uncollapsed(c, p, n - 1)
    } else {
        uncollapsed(c, p, n - 1).push(c[n - 1])
    }
}

// ---- the pane ------------------------------------------------------------------

fn next_selectable(rows: &Vec<ListRow>, from: usize) -> (r: Option<usize>)
    ensures
        (match r {
            Some(i) => select_after(list_view(rows@), from as int) == Some(i as int) && i
                < rows@.len(),
            None => select_after(list_view(rows@), from as int) is None,
        }),
{
    let ghost all = list_view(rows@);
    let mut i: usize = from;
    while i < rows.len()
        invariant
            from <= i,
            i <= rows@.len() || i == from,
            all == list_view(rows@),
            select_after(all, from as int) == select_after(all, i as int),
        decreases rows@.len() - i,
    {
        assert(all[i as int] == rows@[i as int]@);
        if rows[i].selectable() {
            return Some(i);
        }
        i += 1;
    }
    None
}

/// The last selectable row of the first `n`.
fn last_selectable(rows: &Vec<ListRow>, n: usize) -> (r: Option<usize>)
    requires
        n <= rows@.len(),
    ensures
        (match r {
            Some(i) => select_before(list_view(rows@), n - 1) == Some(i as int) && i < n,
            None => select_before(list_view(rows@), n - 1) is None,
        }),
{
    let ghost all = list_view(rows@);
    let mut k: usize = n;
    while k > 0
        invariant
            k <= n <= rows@.len(),
            all == list_view(rows@),
            select_before(all, n - 1) == select_before(all, k - 1),
        decreases k,
    {
        assert(all[k - 1] == rows@[k - 1]@);
        if rows[k - 1].selectable() {
            return Some(k - 1);
        }
        k -= 1;
    }
    None
}

fn snap(rows: &Vec<ListRow>, at: usize) -> (r: usize)
    ensures
        r == snapped_cursor(list_view(rows@), at as int),
{
    if rows.len() == 0 {
        return 0;
    }
    let start: usize = if at < rows.len() {
        at
    } else {
        rows.len() - 1
    };
    match next_selectable(rows, start) {
        Some(i) => i,
        None => match last_selectable(rows, start) {
            Some(i) => i,
            None => 0,
        },
    }
}

/// The state that a pane starts in.
pub open spec fn fresh_list(
    root: Seq<char>,
    cfg: ConfigView,
    branch: Option<Seq<char>>,
    in_herdr: bool,
    entries: Seq<EntryView>,
) -> AppView {
    AppView {
        root,
        cfg,
        in_herdr,
        now: 0,
        mode: Mode::Files,
        scope: Scope::Worktree,
        entries,
        commits: Seq::empty(),
        log_branch_only: false,
        commit: None,
        collapsed: Seq::empty(),
        rows: Seq::empty(),
        cursor: 0,
        list_offset: 0,
        base: Seq::empty(),
        merge_base: None,
        branch,
        status_msg: None,
        should_quit: false,
        modal: None,
        busy: None,
        needs_reshow: false,
        after_edit: None,
        editor_close_request: None,
        last_click: None,
        modal_external: false,
        notes: Seq::empty(),
        notes_return: None,
        annotate_request: None,
        send_notes_request: false,
        edit_note_request: None,
        delete_note_request: None,
    }.rows_rebuilt()
}

fn no_text() -> (r: String)
    ensures
        r@ == Seq::<char>::empty(),
{
    let s = String::new();
    assert(s@ =~= Seq::<char>::empty());
    s
}

fn no_entries() -> (r: Vec<FileEntry>)
    ensures
        entries_view(r@) == Seq::<EntryView>::empty(),
{
    let v: Vec<FileEntry> = Vec::new();
    assert(entries_view(v@) =~= Seq::<EntryView>::empty());
    v
}

pub open spec fn loaded_view(r: Result<Vec<FileEntry>, String>) -> Result<
    Seq<EntryView>,
    Seq<char>,
> {
    match r {
        Ok(v) => Ok(entries_view(v@)),
        Err(m) => Err(m@),
    }
}

impl App {
    /// Build an app around already-loaded entries of the working tree.
    pub fn from_entries(
        repo: Repo,
        cfg: Config,
        branch: Option<String>,
        in_herdr: bool,
        entries: Vec<FileEntry>,
    ) -> (r: App)
        ensures
            r@ == fresh_list(
                repo.root@,
                cfg@,
                opt_str(branch),
                in_herdr,
                entries_view(entries@),
            ),
    {
        let commits: Vec<CommitInfo> = Vec::new();
        let collapsed: Vec<(Section, String)> = Vec::new();
        let rows: Vec<ListRow> = Vec::new();
        let notes: Vec<NoteInfo> = Vec::new();
        proof {
            assert(commits_view(commits@) =~= Seq::<CommitView>::empty());
            assert(collapsed_view(collapsed@) =~= Seq::<(Section, Seq<char>)>::empty());
            assert(list_view(rows@) =~= Seq::<ListRowView>::empty());
            assert(infos_view(notes@) =~= Seq::<NoteInfoView>::empty());
        }
        let mut app = App {
            repo,
            cfg,
            in_herdr,
            now: 0,
            mode: Mode::Files,
            scope: Scope::Worktree,
            entries,
            commits,
            log_branch_only: false,
            commit: None,
            collapsed,
            rows,
            cursor: 0,
            list_offset: 0,
            base: no_text(),
            merge_base: None,
            branch,
            status_msg: None,
            should_quit: false,
            modal: None,
            busy: None,
            needs_reshow: false,
            after_edit: None,
            editor_close_request: None,
            last_click: None,
            modal_external: false,
            notes,
            notes_return: None,
            annotate_request: None,
            send_notes_request: false,
            edit_note_request: None,
            delete_note_request: None,
        };
        app.rebuild_rows();
        app
    }

    // ---- rows ----------------------------------------------------------------

    /// Derive the rows of the current view anew, keeping the cursor on a
    /// selectable one.
    pub fn rebuild_rows(&mut self)
        ensures
            final(self)@ == old(self)@.rows_rebuilt(),
    {
        proof {
            reveal(AppView::rows_rebuilt);
        }
        let rows = match self.mode {
            Mode::Log => commit_rows(self.commits.len()),
            Mode::Notes => rows_of_notes(&self.notes),
            Mode::CommitFiles => flat_tree_rows(&self.entries, &self.collapsed),
            Mode::Files => match self.scope {
                Scope::Branch => flat_tree_rows(&self.entries, &self.collapsed),
                Scope::Worktree => grouped(&self.entries, &self.collapsed),
            },
        };
        self.cursor = snap(&rows, self.cursor);
        self.rows = rows;
    }

    /// The selected entry and whether it sits in the staged section.
    pub fn selected_entry(&self) -> (r: Option<(&FileEntry, bool)>)
        ensures
            (match (r, self@.entry()) {
                (Some(p), Some((e, s))) => p.0@ == e && p.1 == (s == Section::Staged),
                (None, None) => true,
                _ => false,
            }),
    {
        match self.entry_at_cursor() {
            Some((idx, section)) => Some((&self.entries[idx], section.cached())),
            None => None,
        }
    }

    /// The selected entry's position and section.
    pub(crate) fn entry_at_cursor(&self) -> (r: Option<(usize, Section)>)
        ensures
            (match (r, self@.entry()) {
                (Some(p), Some((e, s))) => p.0 < self.entries@.len() && self.entries@[p.0 as int]@
                    == e && p.1 == s,
                (None, None) => true,
                _ => false,
            }),
    {
        if self.cursor >= self.rows.len() {
            return None;
        }
        assert(list_view(self.rows@)[self.cursor as int] == self.rows@[self.cursor as int]@);
        match &self.rows[self.cursor] {
            ListRow::Entry { idx, section, .. } => {
                if *idx < self.entries.len() {
                    assert(entries_view(self.entries@)[*idx as int] == self.entries@[*idx as int]@);
                    Some((*idx, *section))
                } else {
                    None
                }
            },
            _ => None,
        }
    }

    pub fn selected_commit(&self) -> (r: Option<&CommitInfo>)
        ensures
            (match r {
                Some(c) => self@.picked_commit() == Some(c@),
                None => self@.picked_commit() is None,
            }),
    {
        if self.cursor >= self.rows.len() {
            return None;
        }
        assert(list_view(self.rows@)[self.cursor as int] == self.rows@[self.cursor as int]@);
        match &self.rows[self.cursor] {
            ListRow::Commit(idx) => {
                if *idx < self.commits.len() {
                    assert(commits_view(self.commits@)[*idx as int] == self.commits@[*idx as int]@);
                    Some(&self.commits[*idx])
                } else {
                    None
                }
            },
            _ => None,
        }
    }

    /// The selected note.
    pub fn selected_note(&self) -> (r: Option<&NoteInfo>)
        ensures
            (match r {
                Some(n) => self@.note() == Some(n@),
                None => self@.note() is None,
            }),
    {
        if self.cursor >= self.rows.len() {
            return None;
        }
        assert(list_view(self.rows@)[self.cursor as int] == self.rows@[self.cursor as int]@);
        match &self.rows[self.cursor] {
            ListRow::Note(idx) => {
                if *idx < self.notes.len() {
                    assert(infos_view(self.notes@)[*idx as int] == self.notes@[*idx as int]@);
                    Some(&self.notes[*idx])
                } else {
                    None
                }
            },
            _ => None,
        }
    }

    // ---- the cursor ------------------------------------------------------------

    pub(crate) fn move_cursor(&mut self, down: bool)
        ensures
            final(self)@ == old(self)@.stepped(down),
    {
        if down {
            if self.cursor < self.rows.len() {
                if let Some(i) = next_selectable(&self.rows, self.cursor + 1) {
                    self.cursor = i;
                }
            }
        } else if self.cursor <= self.rows.len() {
            if let Some(i) = last_selectable(&self.rows, self.cursor) {
                self.cursor = i;
            }
        }
    }

    pub(crate) fn cursor_to_edge(&mut self, top: bool)
        ensures
            final(self)@ == old(self)@.at_edge(top),
    {
        let found = if top {
            next_selectable(&self.rows, 0)
        } else {
            last_selectable(&self.rows, self.rows.len())
        };
        if let Some(i) = found {
            self.cursor = i;
        }
    }

    fn find_row(&self, path: &str, section: Option<Section>) -> (r: Option<usize>)
        ensures
            (match r {
                Some(i) => find_entry(self@.rows, self@.entries, 0, path@, section) == Some(
                    i as int,
                ),
                None => find_entry(self@.rows, self@.entries, 0, path@, section) is None,
            }),
    {
        let ghost rows = list_view(self.rows@);
        let ghost entries = entries_view(self.entries@);
        let mut i: usize = 0;
        while i < self.rows.len()
            invariant
                i <= self.rows@.len(),
                rows == list_view(self.rows@),
                entries == entries_view(self.entries@),
                find_entry(rows, entries, 0, path@, section) == find_entry(
                    rows,
                    entries,
                    i as int,
                    path@,
                    section,
                ),
            decreases self.rows@.len() - i,
        {
            assert(rows[i as int] == self.rows@[i as int]@);
            if let ListRow::Entry { idx, section: s, .. } = &self.rows[i] {
                if *idx < self.entries.len() {
                    assert(entries[*idx as int] == self.entries@[*idx as int]@);
                    let wanted = match section {
                        Some(w) => w == *s,
                        None => true,
                    };
                    if wanted && path_eq(self.entries[*idx].path.as_str(), path) {
                        return Some(i);
                    }
                }
            }
            i += 1;
        }
        None
    }

    fn restore_cursor(&mut self, keep: Option<(FileEntry, Section)>)
        ensures
            final(self)@ == old(self)@.cursor_restored(
                match keep {
                    Some(p) => Some((p.0@, p.1)),
                    None => None,
                },
            ),
    {
        if let Some((e, section)) = keep {
            let found = match self.find_row(e.path.as_str(), Some(section)) {
                Some(i) => Some(i),
                None => self.find_row(e.path.as_str(), None),
            };
            if let Some(i) = found {
                self.cursor = i;
                return ;
            }
        }
        self.cursor = snap(&self.rows, self.cursor);
    }

    // ---- refreshing --------------------------------------------------------------

    /// Take over entries that were loaded in the background, keeping the
    /// cursor on the same path and section when possible.
    pub fn apply_refresh(&mut self, entries: Vec<FileEntry>)
        ensures
            final(self)@ == old(self)@.refreshed(Ok(entries_view(entries@))),
    {
        self.force_refresh(Ok(entries));
    }

    /// Take over what a reload loaded.
    pub fn force_refresh(&mut self, loaded: Result<Vec<FileEntry>, String>)
        ensures
            final(self)@ == old(self)@.refreshed(loaded_view(loaded)),
    {
        proof {
            reveal(AppView::refreshed);
        }
        if self.mode != Mode::Files {
            return ;
        }
        match loaded {
            Ok(entries) => {
                let keep = match self.entry_at_cursor() {
                    Some((idx, section)) => Some((self.entries[idx].clone(), section)),
                    None => None,
                };
                self.entries = entries;
                self.rebuild_rows();
                self.restore_cursor(keep);
            },
            Err(err) => {
                let mut msg = copy("refresh failed: ");
                append(&mut msg, err.as_str());
                self.set_status(msg.as_str());
            },
        }
    }

    /// A reload ended: finish what it was for.
    pub fn reloaded(&mut self, then: Then, loaded: Result<Vec<FileEntry>, String>)
        ensures
            final(self)@ == old(self)@.settled(then@, loaded_view(loaded)),
    {
        match then {
            Then::Refresh => self.force_refresh(loaded),
            Then::LeaveNotes => self.leave_notes(loaded),
            Then::LeaveHistory => self.leave_history(loaded),
            Then::Changed => {
                self.force_refresh(loaded);
                self.needs_reshow = true;
            },
            Then::Mutated(m) => {
                self.force_refresh(loaded);
                self.needs_reshow = true;
                self.report(&m);
            },
        }
    }

    fn leave_notes(&mut self, loaded: Result<Vec<FileEntry>, String>)
        ensures
            final(self)@ == old(self)@.settled(ThenView::LeaveNotes, loaded_view(loaded)),
    {
        self.mode = match self.notes_return {
            Some(m) => m,
            None => Mode::Files,
        };
        self.notes_return = None;
        self.cursor = 0;
        self.force_refresh(loaded);
        self.rebuild_rows();
    }

    fn leave_history(&mut self, loaded: Result<Vec<FileEntry>, String>)
        ensures
            final(self)@ == old(self)@.settled(ThenView::LeaveHistory, loaded_view(loaded)),
    {
        self.mode = Mode::Files;
        self.commit = None;
        self.cursor = 0;
        self.force_refresh(loaded);
        self.rebuild_rows();
    }

    fn report(&mut self, m: &Mutation)
        ensures
            final(self)@ == old(self)@.reported(m@),
    {
        proof {
            reveal(AppView::reported);
        }
        if !m.report {
            return ;
        }
        if self.everything_staged() {
            self.set_status("all changes staged — c to commit");
        } else if let Some(folder) = &m.folder {
            let mut msg = if m.unstage {
                copy("unstaged")
            } else {
                copy("staged")
            };
            append(&mut msg, " ");
            append_dec(&mut msg, m.paths.len() as u64);
            append(&mut msg, " file(s) under ");
            append(&mut msg, folder.as_str());
            self.set_status(msg.as_str());
        }
    }

    fn everything_staged(&self) -> (r: bool)
        ensures
            r == self@.all_staged(),
    {
        let ghost all = entries_view(self.entries@);
        let mut i: usize = 0;
        while i < self.entries.len()
            invariant
                i <= self.entries@.len(),
                all == entries_view(self.entries@),
                forall|k: int| 0 <= k < i ==> (#[trigger] all[k]).stage == StageState::Staged,
            decreases self.entries@.len() - i,
        {
            assert(all[i as int] == self.entries@[i as int]@);
            if self.entries[i].stage != StageState::Staged {
                return false;
            }
            i += 1;
        }
        self.entries.len() > 0
    }

    /// The editor or commit finished: unlock, and reload the status, since
    /// files changed on disk.
    pub fn on_edit_done(&mut self) -> (r: Effect)
        ensures
            ({
                let s = AppView { busy: None, ..old(self)@ };
                if s.mode == Mode::Files {
                    final(self)@ == s && r@ == EffectView::Reload(ThenView::Changed)
                } else {
                    final(self)@ == (AppView { needs_reshow: true, ..s }) && r@
                        == EffectView::Nothing
                }
            }),
    {
        self.busy = None;
        if self.mode == Mode::Files {
            Effect::Reload(Then::Changed)
        } else {
            self.needs_reshow = true;
            Effect::Nothing
        }
    }

    pub fn set_status(&mut self, msg: &str)
        ensures
            final(self)@ == old(self)@.status(msg@),
    {
        self.status_msg = Some((copy(msg), self.now));
    }

    /// The footer message if one is set and still fresh.
    pub fn active_status(&self, now: u64) -> (r: Option<&str>)
        ensures
            (match (r, self@.status_msg) {
                (Some(s), Some((msg, at))) => s@ == msg && now - at < STATUS_MS,
                (Some(_), None) => false,
                (None, Some((_, at))) => now - at >= STATUS_MS,
                (None, None) => true,
            }),
    {
        match &self.status_msg {
            Some((msg, at)) => if now.saturating_sub(*at) < STATUS_MS {
                Some(msg.as_str())
            } else {
                None
            },
            None => None,
        }
    }

    // ---- history, notes, scope -----------------------------------------------------

    fn log_request(&self, branch_only: bool) -> (r: Effect)
        ensures
            r@ == self@.log_effect(branch_only),
    {
        if branch_only && self.merge_base.is_none() {
            Effect::ResolveBase(BaseFor::Log)
        } else {
            Effect::LoadLog { branch_only }
        }
    }

    /// Enter the log view; again (or back) returns to the files.
    pub(crate) fn toggle_log(&mut self) -> (r: Effect)
        ensures
            (final(self)@, r@) == old(self)@.log_toggled(),
    {
        match self.mode {
            Mode::Notes => {
                self.set_status("leave the notes view first (n)");
                Effect::Nothing
            },
            Mode::Files => self.log_request(self.scope == Scope::Branch),
            Mode::Log | Mode::CommitFiles => Effect::Reload(Then::LeaveHistory),
        }
    }

    /// Open the notes view from anywhere; again returns to where it was
    /// opened from.
    pub fn toggle_notes_view(&mut self) -> (r: Effect)
        ensures
            (final(self)@, r@) == old(self)@.notes_toggled(),
    {
        if self.mode == Mode::Notes {
            let back = match self.notes_return {
                Some(m) => m,
                None => Mode::Files,
            };
            if back == Mode::Files {
                return Effect::Reload(Then::LeaveNotes);
            }
            self.mode = back;
            self.notes_return = None;
            self.cursor = 0;
            self.rebuild_rows();
            return Effect::Nothing;
        }
        if self.notes.len() == 0 {
            self.set_status("no notes yet");
        } else {
            self.notes_return = Some(self.mode);
            self.mode = Mode::Notes;
            self.cursor = 0;
            self.rebuild_rows();
        }
        Effect::Nothing
    }

    pub(crate) fn toggle_scope(&mut self) -> (r: Effect)
        ensures
            (final(self)@, r@) == old(self)@.scope_toggled(),
    {
        match self.mode {
            Mode::Log => self.log_request(!self.log_branch_only),
            Mode::CommitFiles | Mode::Notes => {
                self.set_status("read-only in history view");
                Effect::Nothing
            },
            Mode::Files => match self.scope {
                Scope::Worktree => {
                    if self.merge_base.is_none() {
                        return Effect::ResolveBase(BaseFor::Scope);
                    }
                    self.scope = Scope::Branch;
                    Effect::Reload(Then::Refresh)
                },
                Scope::Branch => {
                    self.scope = Scope::Worktree;
                    Effect::Reload(Then::Refresh)
                },
            },
        }
    }

    /// One step back, out of the view at last.
    pub(crate) fn back_or_quit(&mut self) -> (r: Effect)
        ensures
            (final(self)@, r@) == old(self)@.backed(),
    {
        match self.mode {
            Mode::CommitFiles => {
                self.commit = None;
                self.mode = Mode::Log;
                self.entries = no_entries();
                self.cursor = 0;
                self.rebuild_rows();
                Effect::Nothing
            },
            Mode::Log => Effect::Reload(Then::LeaveHistory),
            Mode::Notes => self.toggle_notes_view(),
            Mode::Files => {
                self.should_quit = true;
                Effect::Nothing
            },
        }
    }

    /// Open the selected commit: its files are to be loaded.
    pub fn open_commit(&self) -> (r: Effect)
        ensures
            r@ == (match self@.picked_commit() {
                Some(c) => EffectView::LoadCommit { info: c },
                None => EffectView::Nothing,
            }),
    {
        match self.selected_commit() {
            Some(c) => Effect::LoadCommit { info: c.clone() },
            None => Effect::Nothing,
        }
    }

    /// Collapse or expand a directory.
    pub(crate) fn toggle_dir(&mut self, section: Section, path: &str)
        ensures
            final(self)@ == old(self)@.dir_toggled(section, path@),
    {
        let ghost all = collapsed_view(self.collapsed@);
        let ghost p = (section, path@);
        let mut left: Vec<(Section, String)> = Vec::new();
        let mut found = false;
        let mut i: usize = 0;
        assert(collapsed_view(left@) =~= Seq::<(Section, Seq<char>)>::empty());
        while i < self.collapsed.len()
            invariant
                i <= self.collapsed@.len(),
                all == collapsed_view(self.collapsed@),
                p == (section, path@),
                collapsed_view(left@) == uncollapsed(all, p, i as int),
                found == (exists|k: int| 0 <= k < i && all[k] == p),
            decreases self.collapsed@.len() - i,
        {
            let c = &self.collapsed[i];
            assert(all[i as int] == (c.0, c.1@));
            if c.0 == section && crate::text::same(c.1.as_str(), path) {
                found = true;
            } else {
                let pair = (c.0, copy(c.1.as_str()));
                assert(collapsed_view(left@.push(pair)) =~= collapsed_view(left@).push(
                    (pair.0, pair.1@),
                ));
                left.push(pair);
            }
            i += 1;
        }
        if found {
            self.collapsed = left;
        } else {
            let pair = (section, copy(path));
            assert(collapsed_view(self.collapsed@.push(pair)) =~= all.push(p));
            self.collapsed.push(pair);
        }
        self.rebuild_rows();
    }
}

fn commit_rows(n: usize) -> (r: Vec<ListRow>)
    ensures
        list_view(r@) == Seq::new(n as nat, |i: int| ListRowView::Commit(i)),
{
    let mut out: Vec<ListRow> = Vec::new();
    let mut i: usize = 0;
    while i < n
        invariant
            i <= n,
            out@.len() == i,
            forall|k: int| 0 <= k < i ==> (#[trigger] out@[k])@ == ListRowView::Commit(k),
        decreases n - i,
    {
        out.push(ListRow::Commit(i));
        i += 1;
    }
    assert(list_view(out@) =~= Seq::new(n as nat, |i: int| ListRowView::Commit(i)));
    out
}

// ---- laws ----------------------------------------------------------------------

proof fn lemma_select_after(rows: Seq<ListRowView>, i: int)
    requires
        0 <= i,
    ensures
        (match select_after(rows, i) {
            Some(k) => i <= k < rows.len() && rows[k].can_select(),
            None => forall|k: int| i <= k < rows.len() ==> !(#[trigger] rows[k]).can_select(),
        }),
    decreases rows.len() - i,
{
    if i < rows.len() && !rows[i].can_select() {
        lemma_select_after(rows, i + 1);
    }
}

proof fn lemma_select_before(rows: Seq<ListRowView>, i: int)
    requires
        i < rows.len(),
    ensures
        (match select_before(rows, i) {
            Some(k) => 0 <= k <= i && rows[k].can_select(),
            None => forall|k: int| 0 <= k <= i ==> !(#[trigger] rows[k]).can_select(),
        }),
    decreases i + 1,
{
    if i >= 0 && !rows[i].can_select() {
        lemma_select_before(rows, i - 1);
    }
}

/// Whether the cursor rests on a selectable row.
pub open spec fn rests(s: AppView) -> bool {
    s.row() matches Some(r) && r.can_select()
}

proof fn lemma_snapped(rows: Seq<ListRowView>, at: int)
    requires
        0 <= at,
        exists|i: int| 0 <= i < rows.len() && (#[trigger] rows[i]).can_select(),
    ensures
        0 <= snapped_cursor(rows, at) < rows.len(),
        rows[snapped_cursor(rows, at)].can_select(),
{
    let start = if at < rows.len() {
        at
    } else {
        rows.len() - 1
    };
    lemma_select_after(rows, start);
    lemma_select_before(rows, start - 1);
}

/// Wherever there is a selectable row, the cursor rests on one: after the rows
/// were derived anew, and after moving.
pub proof fn law_the_cursor_rests_on_a_selectable_row(s: AppView, down: bool, top: bool)
    requires
        0 <= s.cursor,
    ensures
        (exists|i: int|
            0 <= i < s.rows_rebuilt().rows.len() && (
            #[trigger] s.rows_rebuilt().rows[i]).can_select()) ==> rests(s.rows_rebuilt()),
        rests(s) ==> rests(s.stepped(down)) && rests(s.at_edge(top)),
{
    reveal(AppView::rows_rebuilt);
    let rows = s.view_rows();
    if exists|i: int| 0 <= i < rows.len() && (#[trigger] rows[i]).can_select() {
        lemma_snapped(rows, s.cursor);
    }
    if rests(s) {
        lemma_select_after(s.rows, s.cursor + 1);
        lemma_select_before(s.rows, s.cursor - 1);
        lemma_select_after(s.rows, 0);
        lemma_select_before(s.rows, s.rows.len() - 1);
    }
}

proof fn lemma_find_entry(
    rows: Seq<ListRowView>,
    entries: Seq<EntryView>,
    i: int,
    path: Seq<char>,
    section: Option<Section>,
)
    requires
        0 <= i,
    ensures
        find_entry(rows, entries, i, path, section) matches Some(k) ==> i <= k < rows.len()
            && is_entry_at(rows, entries, k, path, section),
    decreases rows.len() - i,
{
    if i < rows.len() && !is_entry_at(rows, entries, i, path, section) {
        lemma_find_entry(rows, entries, i + 1, path, section);
    }
}

/// A refresh keeps the cursor on the file that it was on: in the same section
/// where the file is still there, else wherever the file is.
pub proof fn law_a_refresh_keeps_the_selection(s: AppView, entries: Seq<EntryView>)
    requires
        s.mode == Mode::Files,
        s.entry() is Some,
    ensures
        ({
            let (e, section) = s.entry()->0;
            let t = s.refreshed(Ok(entries));
            &&& find_entry(t.rows, t.entries, 0, e.path, Some(section)) is Some ==> (
            t.entry() matches Some((f, g)) && same_path(f.path, e.path) && g == section)
            &&& find_entry(t.rows, t.entries, 0, e.path, None) is Some ==> (
            t.entry() matches Some((f, _)) && same_path(f.path, e.path))
        }),
{
    reveal(AppView::refreshed);
    reveal(AppView::rows_rebuilt);
    let (e, section) = s.entry()->0;
    let t = s.refreshed(Ok(entries));
    lemma_find_entry(t.rows, t.entries, 0, e.path, Some(section));
    lemma_find_entry(t.rows, t.entries, 0, e.path, None);
}

proof fn lemma_uncollapsed(
    c: Seq<(Section, Seq<char>)>,
    p: (Section, Seq<char>),
    n: int,
    q: (Section, Seq<char>),
)
    requires
        0 <= n <= c.len(),
    ensures
        uncollapsed(c, p, n).contains(q) <==> q != p && c.take(n).contains(q),
    decreases n,
{
    if n <= 0 {
        assert(c.take(0) =~= Seq::<(Section, Seq<char>)>::empty());
    } else {
        lemma_uncollapsed(c, p, n - 1, q);
        let rest = uncollapsed(c, p, n - 1);
        assert(c.take(n) =~= c.take(n - 1).push(c[n - 1]));
        lemma_push_contains(c.take(n - 1), c[n - 1], q);
        lemma_push_contains(rest, c[n - 1], q);
    }
}

proof fn lemma_push_contains(
    s: Seq<(Section, Seq<char>)>,
    x: (Section, Seq<char>),
    q: (Section, Seq<char>),
)
    ensures
        s.push(x).contains(q) <==> s.contains(q) || q == x,
{
    if s.contains(q) {
        let k = choose|k: int| 0 <= k < s.len() && s[k] == q;
        assert(s.push(x)[k] == q);
    }
    if q == x {
        assert(s.push(x)[s.len() as int] == q);
    }
    if s.push(x).contains(q) && q != x {
        let k = choose|k: int| 0 <= k < s.push(x).len() && s.push(x)[k] == q;
        assert(s[k] == q);
    }
}

/// Toggling a directory flips it and leaves every other one alone, in every
/// section.
pub proof fn law_toggling_flips_one_directory(
    s: AppView,
    section: Section,
    path: Seq<char>,
    other: (Section, Seq<char>),
)
    ensures
        s.dir_toggled(section, path).is_collapsed(section, path) == !s.is_collapsed(section, path),
        other != (section, path) ==> s.dir_toggled(section, path).is_collapsed(other.0, other.1)
            == s.is_collapsed(other.0, other.1),
{
    reveal(AppView::rows_rebuilt);
    let p = (section, path);
    let n = s.collapsed.len() as int;
    assert(s.collapsed.take(n) =~= s.collapsed);
    lemma_uncollapsed(s.collapsed, p, n, p);
    lemma_uncollapsed(s.collapsed, p, n, other);
    lemma_push_contains(s.collapsed, p, p);
    lemma_push_contains(s.collapsed, p, other);
    assert((other.0, other.1) == other);
}

/// The history and notes views are snapshots: a refresh leaves them alone.
pub proof fn law_snapshots_ignore_refreshes(
    s: AppView,
    loaded: Result<Seq<EntryView>, Seq<char>>,
)
    requires
        s.mode != Mode::Files,
    ensures
        s.refreshed(loaded) == s,
{
    reveal(AppView::refreshed);
}

/// What is collapsed stays so over a refresh.
pub proof fn law_collapse_survives_a_refresh(
    s: AppView,
    loaded: Result<Seq<EntryView>, Seq<char>>,
)
    ensures
        s.refreshed(loaded).collapsed == s.collapsed,
{
    reveal(AppView::refreshed);
    reveal(AppView::rows_rebuilt);
}

// ---- where the cursor goes -------------------------------------------------------

/// Down goes to the next row that can be selected and up to the one before; where
/// there is none, the cursor stays.
pub proof fn law_stepping_goes_to_the_nearest_row(s: AppView)
    requires
        0 <= s.cursor < s.rows.len(),
    ensures
        ({
            let to = s.stepped(true).cursor;
            &&& s.cursor <= to < s.rows.len()
            &&& to > s.cursor ==> s.rows[to].can_select()
            &&& forall|k: int|
                s.cursor < k < s.rows.len() && (k < to || to == s.cursor)
                    ==> !(#[trigger] s.rows[k]).can_select()
        }),
        ({
            let to = s.stepped(false).cursor;
            &&& 0 <= to <= s.cursor
            &&& to < s.cursor ==> s.rows[to].can_select()
            &&& forall|k: int|
                0 <= k < s.cursor && (k > to || to == s.cursor)
                    ==> !(#[trigger] s.rows[k]).can_select()
        }),
        s.stepped(true) == (AppView { cursor: s.stepped(true).cursor, ..s }),
        s.stepped(false) == (AppView { cursor: s.stepped(false).cursor, ..s }),
{
    lemma_first_selectable(s.rows, s.cursor + 1);
    lemma_last_selectable(s.rows, s.cursor - 1);
}

/// The edges are the first and the last row that can be selected.
pub proof fn law_the_edges_are_the_outermost_rows(s: AppView)
    requires
        exists|k: int| 0 <= k < s.rows.len() && (#[trigger] s.rows[k]).can_select(),
    ensures
        ({
            let to = s.at_edge(true).cursor;
            &&& 0 <= to < s.rows.len() && s.rows[to].can_select()
            &&& forall|k: int| 0 <= k < to ==> !(#[trigger] s.rows[k]).can_select()
        }),
        ({
            let to = s.at_edge(false).cursor;
            &&& 0 <= to < s.rows.len() && s.rows[to].can_select()
            &&& forall|k: int| to < k < s.rows.len() ==> !(#[trigger] s.rows[k]).can_select()
        }),
{
    lemma_first_selectable(s.rows, 0);
    lemma_last_selectable(s.rows, s.rows.len() - 1);
}

proof fn lemma_first_selectable(rows: Seq<ListRowView>, i: int)
    requires
        0 <= i <= rows.len(),
    ensures
        match select_after(rows, i) {
            Some(k) => i <= k < rows.len() && rows[k].can_select() && forall|j: int|
                i <= j < k ==> !(#[trigger] rows[j]).can_select(),
            None => forall|j: int| i <= j < rows.len() ==> !(#[trigger] rows[j]).can_select(),
        },
    decreases rows.len() - i,
{
    if i < rows.len() && !rows[i].can_select() {
        lemma_first_selectable(rows, i + 1);
    }
}

proof fn lemma_last_selectable(rows: Seq<ListRowView>, i: int)
    requires
        -1 <= i < rows.len(),
    ensures
        match select_before(rows, i) {
            Some(k) => 0 <= k <= i && rows[k].can_select() && forall|j: int|
                k < j <= i ==> !(#[trigger] rows[j]).can_select(),
            None => forall|j: int| 0 <= j <= i ==> !(#[trigger] rows[j]).can_select(),
        },
    decreases i + 1,
{
    if i >= 0 && !rows[i].can_select() {
        lemma_last_selectable(rows, i - 1);
    }
}

/// Terminal rows that rows `from..to` of the list take.
pub open spec fn lines_high(rows: Seq<ListRowView>, from: int, to: int) -> int
    decreases to - from,
{
    if from >= to {
        0
    } else {
        lines_high(rows, from, to - 1) + (if rows[to - 1] is Note {
            2int
        } else {
            1
        })
    }
}

proof fn lemma_lines_high_front(rows: Seq<ListRowView>, from: int, to: int)
    requires
        from < to,
    ensures
        lines_high(rows, from, to) == (if rows[from] is Note {
            2int
        } else {
            1
        }) + lines_high(rows, from + 1, to),
    decreases to - from,
{
    if from + 1 < to {
        lemma_lines_high_front(rows, from, to - 1);
    } else {
        assert(lines_high(rows, from, to - 1) == 0);
    }
}

/// The row under the pointer is the one that is drawn there: notes are two
/// terminal rows high, all others one.
pub proof fn law_the_row_under_the_pointer(rows: Seq<ListRowView>, offset: int, dy: int)
    requires
        0 <= offset <= rows.len(),
        0 <= dy,
    ensures
        match row_under(rows, offset, dy) {
            Some(i) => offset <= i < rows.len() && lines_high(rows, offset, i) <= dy < lines_high(
                rows,
                offset,
                i + 1,
            ),
            None => lines_high(rows, offset, rows.len() as int) <= dy,
        },
    decreases rows.len() - offset,
{
    if offset < rows.len() {
        let h = rows[offset].rows_high();
        if dy < h {
            assert(lines_high(rows, offset, offset) == 0);
            assert(lines_high(rows, offset, offset + 1) == h);
        } else {
            law_the_row_under_the_pointer(rows, offset + 1, dy - h);
            match row_under(rows, offset + 1, dy - h) {
                Some(i) => {
                    lemma_lines_high_front(rows, offset, i);
                    lemma_lines_high_front(rows, offset, i + 1);
                },
                None => {
                    lemma_lines_high_front(rows, offset, rows.len() as int);
                },
            }
        }
    }
}

/// The scope goes back and forth between the working tree and the branch, once
/// the base is known.
pub proof fn law_the_scope_goes_back_and_forth(s: AppView)
    requires
        s.mode == Mode::Files,
        s.merge_base is Some,
    ensures
        s.scope_toggled().0.scope != s.scope,
        s.scope_toggled().0.scope_toggled().0 == s,
        s.scope_toggled().1 == EffectView::Reload(ThenView::Refresh),
{
}

/// The notes view goes back to the view that it was opened from.
pub proof fn law_the_notes_view_goes_back(
    s: AppView,
    loaded: Result<Seq<EntryView>, Seq<char>>,
)
    requires
        s.mode != Mode::Notes,
        s.notes.len() > 0,
    ensures
        s.notes_toggled().0.mode == Mode::Notes,
        ({
            let t = s.notes_toggled().0;
            &&& s.mode != Mode::Files ==> t.notes_toggled().0.mode == s.mode
            &&& s.mode == Mode::Files ==> t.notes_toggled().1 == EffectView::Reload(
                ThenView::LeaveNotes,
            ) && t.settled(ThenView::LeaveNotes, loaded).mode == Mode::Files
        }),
{
    reveal(AppView::rows_rebuilt);
    reveal(AppView::refreshed);
}

/// Going back leads from a commit's files to the log, from there to the files,
/// and only from the files out.
pub proof fn law_going_back_ends_at_the_files(
    s: AppView,
    loaded: Result<Seq<EntryView>, Seq<char>>,
)
    requires
        !s.should_quit,
    ensures
        s.mode == Mode::CommitFiles ==> s.backed().0.mode == Mode::Log && s.backed().0.commits
            == s.commits,
        s.mode == Mode::Log ==> s.backed().1 == EffectView::Reload(ThenView::LeaveHistory)
            && s.settled(ThenView::LeaveHistory, loaded).mode == Mode::Files,
        s.backed().0.should_quit <==> s.mode == Mode::Files,
{
    reveal(AppView::rows_rebuilt);
    reveal(AppView::refreshed);
}

} // verus!
