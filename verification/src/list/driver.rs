//! The list's event loop, without the waiting: one event makes a command, the
//! command's outcome goes back to the list, and what is left over (a changed
//! selection, a question for the editor, a popup) is settled afterwards.
use crate::git::{entries_view, EntryView, FileEntry};
use crate::input::{Action, Key, MouseKind};
use crate::ipc::{infos_view, NoteInfoView, ToList, ToPreview, ToPreviewView};
use crate::list::app::{App, AppView, EditorThen, Effect, EffectView, Mode, ThenView};
use crate::list::session::{
    answer_code, answer_key, messages_view, opt_key, route_key, routed, same_show, show_changed, show_due,
    Activation, ActivationView, Route, RouteView, ShowKey, ShowKeyView, SHOW_DEBOUNCE_MS,
};
use crate::text::{append, copy};
use vstd::prelude::*;

verus! {

broadcast use vstd::string::group_string_axioms;

/// What the loop remembers between two events.
#[derive(Debug)]
pub struct Driver {
    /// The preview has to be brought to the selection, which changed at `since`.
    pub dirty: bool,
    pub since: u64,
    /// The editor is being asked for unsaved changes.
    pub probing: bool,
    /// A popup asks the open question.
    pub asking: bool,
    /// A popup is open for a note on this whole file, or its staged side.
    pub annotating: Option<(String, bool)>,
    /// A popup is open that rewrites this note.
    pub rewriting: Option<u64>,
}

#[verifier::ext_equal]
pub struct DriverView {
    pub dirty: bool,
    pub since: u64,
    pub probing: bool,
    pub asking: bool,
    pub annotating: Option<(Seq<char>, bool)>,
    pub rewriting: Option<u64>,
}

impl View for Driver {
    type V = DriverView;

    open spec fn view(&self) -> DriverView {
        DriverView {
            dirty: self.dirty,
            since: self.since,
            probing: self.probing,
            asking: self.asking,
            annotating: match self.annotating {
                Some(p) => Some((p.0@, p.1)),
                None => None,
            },
            rewriting: self.rewriting,
        }
    }
}

/// What happened.
#[derive(Debug)]
pub enum Event {
    Key { key: Key, action: Option<Action> },
    Mouse { kind: MouseKind, row: u16 },
    /// Files changed on disk, and the entries were loaded again.
    Refresh(Vec<FileEntry>),
    /// A message of the preview.
    Message(ToList),
    /// The preview went away.
    Closed,
    /// The editor was asked for unsaved changes.
    Probe { then: Option<EditorThen>, unsaved: Option<bool> },
}

pub enum EventView {
    Key { key: Key, action: Option<Action> },
    Mouse { kind: MouseKind, row: u16 },
    Refresh(Seq<EntryView>),
    Ready,
    EditDone,
    GitDone { ok: bool },
    Notes(Seq<NoteInfoView>),
    ShowNotes,
    EditSelection,
    Closed,
    Probe { then: Option<EditorThen>, unsaved: Option<bool> },
}

impl View for Event {
    type V = EventView;

    open spec fn view(&self) -> EventView {
        match self {
            Event::Key { key, action } => EventView::Key { key: *key, action: *action },
            Event::Mouse { kind, row } => EventView::Mouse { kind: *kind, row: *row },
            Event::Refresh(entries) => EventView::Refresh(entries_view(entries@)),
            Event::Message(m) => match m {
                ToList::Ready => EventView::Ready,
                ToList::EditDone { .. } => EventView::EditDone,
                ToList::GitDone { ok } => EventView::GitDone { ok: *ok },
                ToList::Notes { notes } => EventView::Notes(infos_view(notes@)),
                ToList::ShowNotesView => EventView::ShowNotes,
                ToList::EditSelection => EventView::EditSelection,
            },
            Event::Closed => EventView::Closed,
            Event::Probe { then, unsaved } => EventView::Probe { then: *then, unsaved: *unsaved },
        }
    }
}

/// What is to be done for an event.
#[derive(Debug)]
pub enum Command {
    Nothing,
    /// Perform the effect.
    Perform(Effect),
    /// Perform the effect, then focus our own pane.
    PerformAndFocus(Effect),
    /// Enter was pressed.
    Activate(Activation),
    /// Count the staged files and start a commit.
    StartCommit,
    /// Connect to the preview again, go on with `reconnected`, then hand the
    /// key to the list.
    Reconnect,
    Send(ToPreview),
    /// The editor closed: perform the effect, focus our own pane, and go on
    /// with `resume_after_edit`.
    Resume(Effect),
    /// A commit ended: perform the effect, focus our own pane, and go on with
    /// `git_done`.
    Committed { ok: bool, effect: Effect },
    /// Drop the link to the preview; the list stays usable.
    Disconnect,
}

#[verifier::ext_equal]
pub enum CommandView {
    Nothing,
    Perform(EffectView),
    PerformAndFocus(EffectView),
    Activate(ActivationView),
    StartCommit,
    Reconnect,
    Send(ToPreviewView),
    Resume(EffectView),
    Committed { ok: bool, effect: EffectView },
    Disconnect,
}

impl View for Command {
    type V = CommandView;

    open spec fn view(&self) -> CommandView {
        match self {
            Command::Nothing => CommandView::Nothing,
            Command::Perform(e) => CommandView::Perform(e@),
            Command::PerformAndFocus(e) => CommandView::PerformAndFocus(e@),
            Command::Activate(a) => CommandView::Activate(a@),
            Command::StartCommit => CommandView::StartCommit,
            Command::Reconnect => CommandView::Reconnect,
            Command::Send(m) => CommandView::Send(m@),
            Command::Resume(e) => CommandView::Resume(e@),
            Command::Committed { ok, effect } => CommandView::Committed {
                ok: *ok,
                effect: effect@,
            },
            Command::Disconnect => CommandView::Disconnect,
        }
    }
}

// ---- events ----------------------------------------------------------------------

impl AppView {
    /// The editor or a commit gave the preview's terminal back.
    pub open spec fn unlocked(self) -> (AppView, EffectView) {
        let s = AppView { busy: None, ..self };
        if s.mode == Mode::Files {
            (s, EffectView::Reload(ThenView::Changed))
        } else {
            (AppView { needs_reshow: true, ..s }, EffectView::Nothing)
        }
    }

    /// The notes changed. A notes view without notes is left.
    pub open spec fn told_notes(self, notes: Seq<NoteInfoView>) -> (AppView, EffectView) {
        let s = AppView { notes, ..self };
        if s.mode != Mode::Notes {
            (s, EffectView::Nothing)
        } else if s.notes.len() > 0 {
            (s.rows_rebuilt(), EffectView::Nothing)
        } else {
            s.rows_rebuilt().status("notes sent"@).notes_keyed()
        }
    }

    /// The notes view was asked for.
    pub open spec fn told_show_notes(self) -> (AppView, EffectView) {
        if self.mode != Mode::Notes && self.notes.len() > 0 {
            self.notes_keyed()
        } else {
            (self, EffectView::Nothing)
        }
    }

    /// The editor was asked for unsaved changes.
    pub open spec fn told_unsaved(self, then: Option<EditorThen>, unsaved: Option<bool>) -> AppView {
        match (unsaved, then) {
            (Some(false), _) => AppView { after_edit: then, ..self },
            (Some(true), Some(t)) => AppView {
                modal: Some(crate::list::app::ModalView::EditorClose { then: t }),
                ..self
            },
            (Some(true), None) => self.status("editor has unsaved changes — stays open"@),
            (None, Some(_)) => self.status("editor is open — close it first"@),
            (None, None) => self,
        }
    }

    /// The preview is up: the word that we are connecting goes.
    pub open spec fn told_ready(self, now: u64) -> AppView {
        match self.status_msg {
            Some((msg, at)) => if now - at < crate::list::app::STATUS_MS && msg
                == "connecting…"@ {
                AppView { status_msg: None, ..self }
            } else {
                self
            },
            None => self,
        }
    }
}

impl DriverView {
    /// The preview has to be brought to the selection.
    pub open spec fn touched(self, now: u64) -> DriverView {
        DriverView { dirty: true, since: now, ..self }
    }

    /// What an event does to the loop and the list, and the command it makes.
    pub open spec fn handled(self, s: AppView, event: EventView, connected: bool, now: u64) -> (
        DriverView,
        AppView,
        CommandView,
    ) {
        match event {
            EventView::Key { key, action } => match routed(s, action, connected) {
                RouteView::Activate => {
                    let (t, a) = s.activated(connected);
                    (self, t, CommandView::Activate(a))
                },
                RouteView::Commit => (self, s, CommandView::StartCommit),
                RouteView::Reconnect => (self, s, CommandView::Reconnect),
                RouteView::Forward(m) => (self, s, CommandView::Send(m)),
                RouteView::Handle => {
                    let (t, e) = s.keyed(key, action);
                    (self, t, CommandView::Perform(e))
                },
            },
            EventView::Mouse { kind, row } => {
                let (t, activate) = s.moused(kind, row);
                if activate {
                    let (u, a) = t.activated(connected);
                    (self, u, CommandView::Activate(a))
                } else {
                    (self, t, CommandView::Nothing)
                }
            },
            EventView::Refresh(entries) => (
                self.touched(now),
                s.refreshed(Ok(entries)),
                CommandView::Nothing,
            ),
            EventView::Ready => (self, s.told_ready(now), CommandView::Nothing),
            EventView::EditDone => {
                let (t, e) = s.unlocked();
                (self.touched(now), t, CommandView::Resume(e))
            },
            EventView::GitDone { ok } => {
                let (t, e) = s.unlocked();
                (self.touched(now), t, CommandView::Committed { ok, effect: e })
            },
            EventView::Notes(notes) => {
                let (t, e) = s.told_notes(notes);
                (self, t, CommandView::Perform(e))
            },
            EventView::ShowNotes => {
                let (t, e) = s.told_show_notes();
                (self.touched(now), t, CommandView::PerformAndFocus(e))
            },
            EventView::EditSelection => {
                let (t, a) = s.activated(connected);
                (self, t, CommandView::Activate(a))
            },
            EventView::Closed => (self, s, CommandView::Disconnect),
            EventView::Probe { then, unsaved } => (
                DriverView { probing: false, ..self },
                s.told_unsaved(then, unsaved),
                CommandView::Nothing,
            ),
        }
    }
}

impl Driver {
    /// The loop starts with the first selection still to be shown.
    pub fn new(now: u64) -> (r: Driver)
        ensures
            r@ == (DriverView {
                dirty: true,
                since: now,
                probing: false,
                asking: false,
                annotating: None,
                rewriting: None,
            }),
    {
        Driver {
            dirty: true,
            since: now,
            probing: false,
            asking: false,
            annotating: None,
            rewriting: None,
        }
    }

    fn touch(&mut self, now: u64)
        ensures
            final(self)@ == old(self)@.touched(now),
    {
        self.dirty = true;
        self.since = now;
    }

    /// One event. `connected` says whether there is a link to the preview.
    pub fn on_event(&mut self, app: &mut App, event: Event, connected: bool, now: u64) -> (r:
        Command)
        ensures
            (final(self)@, final(app)@, r@) == old(self)@.handled(
                old(app)@,
                event@,
                connected,
                now,
            ),
    {
        match event {
            Event::Key { key, action } => self.on_key(app, key, action, connected),
            Event::Mouse { kind, row } => {
                if app.on_mouse(kind, row) {
                    Command::Activate(app.activate_selection(connected))
                } else {
                    Command::Nothing
                }
            },
            Event::Refresh(entries) => {
                app.apply_refresh(entries);
                self.touch(now);
                Command::Nothing
            },
            Event::Message(m) => self.on_message(app, m, connected, now),
            Event::Closed => Command::Disconnect,
            Event::Probe { then, unsaved } => {
                self.probing = false;
                app.probed(then, unsaved);
                Command::Nothing
            },
        }
    }

    fn on_key(&mut self, app: &mut App, key: Key, action: Option<Action>, connected: bool) -> (r:
        Command)
        ensures
            (final(self)@, final(app)@, r@) == old(self)@.handled(
                old(app)@,
                EventView::Key { key, action },
                connected,
                0,
            ),
    {
        match route_key(app, action, connected) {
            Route::Activate => Command::Activate(app.activate_selection(connected)),
            Route::Commit => Command::StartCommit,
            Route::Reconnect => Command::Reconnect,
            Route::Forward(m) => Command::Send(m),
            Route::Handle => Command::Perform(app.on_key(key, action)),
        }
    }

    fn on_message(&mut self, app: &mut App, m: ToList, connected: bool, now: u64) -> (r: Command)
        ensures
            (final(self)@, final(app)@, r@) == old(self)@.handled(
                old(app)@,
                Event::Message(m)@,
                connected,
                now,
            ),
    {
        match m {
            ToList::Ready => {
                app.on_ready(now);
                Command::Nothing
            },
            ToList::EditDone { .. } => {
                let effect = app.on_edit_done();
                self.touch(now);
                Command::Resume(effect)
            },
            ToList::GitDone { ok } => {
                let effect = app.on_edit_done();
                self.touch(now);
                Command::Committed { ok, effect }
            },
            ToList::Notes { notes } => Command::Perform(app.on_notes(notes)),
            ToList::ShowNotesView => {
                let effect = app.on_show_notes();
                self.touch(now);
                Command::PerformAndFocus(effect)
            },
            ToList::EditSelection => Command::Activate(app.activate_selection(connected)),
        }
    }
}

// ---- after an event --------------------------------------------------------------

impl DriverView {
    /// A key was handled: a selection that changed since `before`, or content
    /// that changed under it, has to be shown.
    pub open spec fn after_key(self, s: AppView, before: Option<ShowKeyView>, now: u64) -> DriverView {
        if s.needs_reshow || !same_show(before, s.shown_as()) {
            self.touched(now)
        } else {
            self
        }
    }

    /// The question for the running editor that follows a key: what waits for
    /// it to close, or nothing when the cursor just moved on.
    pub open spec fn question(self, s: AppView, action: Option<Action>) -> Option<
        Option<EditorThen>,
    > {
        let moved = (action == Some(Action::Down) || action == Some(Action::Up) || action == Some(
            Action::Top,
        ) || action == Some(Action::Bottom)) && s.modal is None;
        if s.busy is None || self.probing {
            None
        } else if s.editor_close_request is Some {
            Some(s.editor_close_request)
        } else if moved {
            Some(None)
        } else {
            None
        }
    }
}

impl Driver {
    /// A key's command was carried out; `before` is what was selected before
    /// it. Returns the question that the running editor is to be asked.
    pub fn key_done(
        &mut self,
        app: &mut App,
        action: Option<Action>,
        before: &Option<ShowKey>,
        now: u64,
    ) -> (r: Option<Option<EditorThen>>)
        ensures
            ({
                let s = AppView { needs_reshow: false, ..old(app)@ };
                let d = old(self)@.after_key(old(app)@, opt_key(*before), now);
                &&& r == d.question(s, action)
                &&& final(self)@ == (DriverView { probing: d.probing || r is Some, ..d })
                &&& final(app)@ == (AppView { editor_close_request: None, ..s })
            }),
    {
        let current = app.show_key();
        if app.needs_reshow || show_changed(before, &current) {
            self.touch(now);
        }
        app.needs_reshow = false;
        let r = app.wants_probe(action, self.probing);
        if r.is_some() {
            self.probing = true;
        }
        r
    }

    /// A mouse event's command was carried out.
    pub fn mouse_done(&mut self, app: &App, before: &Option<ShowKey>, now: u64)
        ensures
            final(self)@ == (if same_show(opt_key(*before), app@.shown_as()) {
                old(self)@
            } else {
                old(self)@.touched(now)
            }),
    {
        let current = app.show_key();
        if show_changed(before, &current) {
            self.touch(now);
        }
    }

    /// The link to the preview was tried again.
    pub fn reconnected(&mut self, app: &mut App, ok: bool, now: u64)
        ensures
            (final(self)@, final(app)@) == (if ok {
                (old(self)@.touched(now), old(app)@.status("preview reconnected"@))
            } else {
                (old(self)@, old(app)@)
            }),
    {
        if ok {
            app.set_status("preview reconnected");
            self.touch(now);
        }
    }

    /// The messages that bring the preview to the selection, once it stood
    /// still.
    pub fn flush(&mut self, app: &App, now: u64) -> (r: Vec<ToPreview>)
        ensures
            ({
                let due = old(self)@.dirty && now - old(self)@.since >= SHOW_DEBOUNCE_MS;
                &&& messages_view(r@) == if due {
                    app@.shown_by()
                } else {
                    Seq::empty()
                }
                &&& final(self)@ == (DriverView { dirty: old(self)@.dirty && !due, ..old(self)@ })
            }),
    {
        if show_due(self.dirty, self.since, now) {
            self.dirty = false;
            app.show_messages()
        } else {
            let none: Vec<ToPreview> = Vec::new();
            assert(messages_view(none@) =~= Seq::<ToPreviewView>::empty());
            none
        }
    }
}

// ---- notes -----------------------------------------------------------------------

/// A popup that is to be opened for a note.
#[derive(Debug)]
pub struct NotePopup {
    pub title: String,
    pub prefill: Option<String>,
}

impl Driver {
    /// A note on a whole file was asked for: the popup to open.
    pub fn annotate(&mut self, app: &mut App) -> (r: Option<NotePopup>)
        ensures
            (match old(app)@.annotate_request {
                Some(request) => {
                    &&& r matches Some(p)
                    &&& p.title@ == "note for "@ + request.0
                    &&& p.prefill is None
                    &&& final(app)@ == (AppView { annotate_request: None, ..old(app)@ })
                    &&& final(self)@ == (DriverView { annotating: Some(request), ..old(self)@ })
                },
                None => r is None && final(app)@ == old(app)@ && final(self)@ == old(self)@,
            }),
    {
        let mut request: Option<(String, bool)> = None;
        std::mem::swap(&mut request, &mut app.annotate_request);
        match request {
            Some(file) => {
                let mut title = copy("note for ");
                append(&mut title, file.0.as_str());
                self.annotating = Some(file);
                Some(NotePopup { title, prefill: None })
            },
            None => None,
        }
    }

    /// A note is to be rewritten: the popup to open.
    pub fn rewrite(&mut self, app: &mut App) -> (r: Option<NotePopup>)
        ensures
            (match old(app)@.edit_note_request {
                Some(request) => {
                    &&& r matches Some(p)
                    &&& p.title@ == "edit note"@
                    &&& p.prefill matches Some(text)
                    &&& text@ == request.1
                    &&& final(app)@ == (AppView { edit_note_request: None, ..old(app)@ })
                    &&& final(self)@ == (DriverView { rewriting: Some(request.0), ..old(self)@ })
                },
                None => r is None && final(app)@ == old(app)@ && final(self)@ == old(self)@,
            }),
    {
        let mut request: Option<(u64, String)> = None;
        std::mem::swap(&mut request, &mut app.edit_note_request);
        match request {
            Some((id, text)) => {
                self.rewriting = Some(id);
                Some(NotePopup { title: copy("edit note"), prefill: Some(text) })
            },
            None => None,
        }
    }

    /// The popup for a note on a whole file could not be opened.
    pub fn annotate_failed(&mut self, app: &mut App)
        ensures
            final(self)@ == (DriverView { annotating: None, ..old(self)@ }),
            final(app)@ == old(app)@.status(
                "popup failed — needs herdr ≥0.7.4 + re-linked plugin (see debug log)"@,
            ),
    {
        self.annotating = None;
        app.set_status("popup failed — needs herdr ≥0.7.4 + re-linked plugin (see debug log)");
    }

    /// The popup that rewrites a note could not be opened.
    pub fn rewrite_failed(&mut self, app: &mut App)
        ensures
            final(self)@ == (DriverView { rewriting: None, ..old(self)@ }),
            final(app)@ == old(app)@.status("popup failed (see debug log)"@),
    {
        self.rewriting = None;
        app.set_status("popup failed (see debug log)");
    }

    /// The answer of the popup for a note on a whole file; an empty one is a
    /// cancel.
    pub fn annotated(&mut self, text: String) -> (r: Option<ToPreview>)
        ensures
            final(self)@ == (DriverView { annotating: None, ..old(self)@ }),
            opt_message(r) == (match old(self)@.annotating {
                Some((file, cached)) => if text@.len() > 0 {
                    Some(ToPreviewView::AddNote { file, text: text@, cached })
                } else {
                    None
                },
                None => None,
            }),
    {
        let mut open: Option<(String, bool)> = None;
        std::mem::swap(&mut open, &mut self.annotating);
        match open {
            Some((file, cached)) => {
                if text.as_str().is_empty() {
                    None
                } else {
                    Some(ToPreview::AddNote { file, text, cached })
                }
            },
            None => None,
        }
    }

    /// The answer of the popup that rewrites a note; an empty one is a cancel.
    pub fn rewritten(&mut self, text: String) -> (r: Option<ToPreview>)
        ensures
            final(self)@ == (DriverView { rewriting: None, ..old(self)@ }),
            opt_message(r) == (match old(self)@.rewriting {
                Some(id) => if text@.len() > 0 {
                    Some(ToPreviewView::EditNote { id, text: text@ })
                } else {
                    None
                },
                None => None,
            }),
    {
        let open = self.rewriting;
        self.rewriting = None;
        match open {
            Some(id) => {
                if text.as_str().is_empty() {
                    None
                } else {
                    Some(ToPreview::EditNote { id, text })
                }
            },
            None => None,
        }
    }
}

pub open spec fn opt_message(m: Option<ToPreview>) -> Option<ToPreviewView> {
    match m {
        Some(m) => Some(m@),
        None => None,
    }
}

/// The messages about notes that the preview is owed: the request to send them,
/// then a note to delete.
pub fn note_messages(app: &mut App) -> (r: Vec<ToPreview>)
    ensures
        final(app)@ == (AppView {
            send_notes_request: false,
            delete_note_request: None,
            ..old(app)@
        }),
        messages_view(r@) == (if old(app)@.send_notes_request {
            seq![ToPreviewView::SendNotes]
        } else {
            Seq::empty()
        }) + (match old(app)@.delete_note_request {
            Some(id) => seq![ToPreviewView::DeleteNote { id }],
            None => Seq::empty(),
        }),
{
    let ghost s = app@;
    let mut out: Vec<ToPreview> = Vec::new();
    if app.send_notes_request {
        app.send_notes_request = false;
        out.push(ToPreview::SendNotes);
    }
    if let Some(id) = app.delete_note_request {
        app.delete_note_request = None;
        out.push(ToPreview::DeleteNote { id });
    }
    assert(messages_view(out@) =~= (if s.send_notes_request {
        seq![ToPreviewView::SendNotes]
    } else {
        Seq::empty()
    }) + (match s.delete_note_request {
        Some(id) => seq![ToPreviewView::DeleteNote { id }],
        None => Seq::empty(),
    }));
    out
}

// ---- confirmations ---------------------------------------------------------------

impl DriverView {
    /// The question that is to be asked in a popup: an open one that no popup
    /// asks yet, where the host has popups.
    pub open spec fn popup_due(self, s: AppView, supported: bool) -> Option<Seq<char>> {
        if !supported || s.modal_external || self.asking {
            None
        } else {
            match s.modal {
                Some(crate::list::app::ModalView::Confirm { text, .. }) => Some(text),
                Some(crate::list::app::ModalView::EditorClose { .. }) => Some(
                    "The editor has unsaved changes. Save them? (no discards)"@,
                ),
                _ => None,
            }
        }
    }
}

impl Driver {
    pub fn confirm_due(&self, app: &App, supported: bool) -> (r: Option<String>)
        ensures
            crate::text::opt_str(r) == self@.popup_due(app@, supported),
    {
        if !supported || app.modal_external || self.asking {
            return None;
        }
        app.popup_question()
    }

    /// A popup asks the question; the overlay stays away.
    pub fn confirm_opened(&mut self, app: &mut App)
        ensures
            final(self)@ == (DriverView { asking: true, ..old(self)@ }),
            final(app)@ == (AppView { modal_external: true, ..old(app)@ }),
    {
        self.asking = true;
        app.modal_external = true;
    }

    /// The popup's answer, handed to the list as the key it stands for; `action`
    /// is what that key is bound to.
    pub fn confirm_answered(
        &mut self,
        app: &mut App,
        answer: &str,
        action: Option<Action>,
    ) -> (r: Effect)
        ensures
            final(self)@ == (DriverView { asking: false, ..old(self)@ }),
            (final(app)@, r@) == (AppView { modal_external: false, ..old(app)@ }).keyed(
                Key::bare(answer_code(answer@)),
                action,
            ),
    {
        self.asking = false;
        app.modal_external = false;
        app.on_key(Key::plain(answer_key(answer)), action)
    }

    /// The answer's effect was carried out: content that it changed has to be
    /// shown.
    pub fn confirm_done(&mut self, app: &mut App, now: u64)
        ensures
            final(self)@ == (if old(app)@.needs_reshow {
                old(self)@.touched(now)
            } else {
                old(self)@
            }),
            final(app)@ == (AppView { needs_reshow: false, ..old(app)@ }),
    {
        if app.needs_reshow {
            app.needs_reshow = false;
            self.touch(now);
        }
    }
}

// ---- laws ------------------------------------------------------------------------

/// At most one question for the editor is open: none is asked while one is.
pub proof fn law_the_editor_is_asked_once(d: DriverView, s: AppView, action: Option<Action>)
    ensures
        d.probing ==> d.question(s, action) is None,
        s.busy is None ==> d.question(s, action) is None,
{
}

/// A selection that changed is shown, and only after it stood still: the loop
/// is due from then on, and not before.
pub proof fn law_a_new_selection_is_shown(
    d: DriverView,
    s: AppView,
    before: Option<ShowKeyView>,
    now: u64,
)
    ensures
        !same_show(before, s.shown_as()) ==> d.after_key(s, before, now).dirty && d.after_key(
            s,
            before,
            now,
        ).since == now,
        s.needs_reshow ==> d.after_key(s, before, now).dirty,
        d.dirty ==> d.after_key(s, before, now).dirty,
{
}

/// No event but a lost link drops the preview, and no event quits the list
/// behind the user's back: only a key does.
pub proof fn law_only_keys_quit(
    d: DriverView,
    s: AppView,
    event: EventView,
    connected: bool,
    now: u64,
)
    requires
        !(event is Key),
        !(event is Mouse),
        !(event is EditSelection),
    ensures
        d.handled(s, event, connected, now).1.should_quit == s.should_quit,
        d.handled(s, event, connected, now).2 is Disconnect <==> event is Closed,
{
    reveal(AppView::refreshed);
    reveal(AppView::rows_rebuilt);
}

/// An editor without unsaved changes gives way to what waits for it; one with
/// some is asked about first; and one that could not be asked stays.
pub proof fn law_unsaved_changes_are_asked_about(s: AppView, then: EditorThen)
    ensures
        s.told_unsaved(Some(then), Some(false)) == (AppView { after_edit: Some(then), ..s }),
        s.told_unsaved(Some(then), Some(true)) == (AppView {
            modal: Some(crate::list::app::ModalView::EditorClose { then }),
            ..s
        }),
        s.told_unsaved(Some(then), None).modal == s.modal,
        s.told_unsaved(Some(then), None).after_edit == s.after_edit,
        s.told_unsaved(None, Some(true)).after_edit == s.after_edit,
        s.told_unsaved(None, Some(true)).modal == s.modal,
{
}

/// Once the editor is done the list is free again, and what it shows of the
/// working tree is loaded anew.
pub proof fn law_the_list_is_free_after_editing(s: AppView)
    ensures
        s.unlocked().0.busy is None,
        s.mode == Mode::Files ==> s.unlocked().1 == EffectView::Reload(ThenView::Changed),
        s.mode != Mode::Files ==> s.unlocked().0.needs_reshow && s.unlocked().1
            == EffectView::Nothing,
{
}

/// The list takes over the notes that it is told of. The notes view is left when
/// the last of them is gone.
pub proof fn law_the_list_takes_over_the_notes(s: AppView, notes: Seq<NoteInfoView>)
    requires
        s.modal is None,
    ensures
        s.told_notes(notes).0.notes == notes,
        s.mode != Mode::Notes || notes.len() > 0 ==> s.told_notes(notes).0.mode == s.mode,
        s.mode == Mode::Notes && notes.len() == 0 ==> s.told_notes(notes).1 == EffectView::Reload(
            ThenView::LeaveNotes,
        ) || s.told_notes(notes).0.mode == s.back_from_notes(),
{
    reveal(AppView::rows_rebuilt);
}

/// Only a clear yes discards: no other answer of a popup does, white space aside.
pub proof fn law_only_a_yes_discards(s: AppView, answer: Seq<char>)
    requires
        s.modal matches Some(m) && m is Confirm,
    ensures
        s.modal_keyed(answer_code(answer)).1 is Discard <==> crate::text::trim(answer) == "y"@,
        s.modal_keyed(answer_code(answer)).0.modal is None,
{
    reveal_strlit("y");
    reveal_strlit("n");
    assert("y"@[0] == 'y' && "n"@[0] == 'n');
}

/// A question is asked in a popup where the host has them, once, and in the
/// words in which the list asks it.
pub proof fn law_a_question_is_asked_once(
    d: DriverView,
    s: AppView,
    supported: bool,
    text: Seq<char>,
    discard: Seq<Seq<char>>,
)
    ensures
        d.popup_due(s, supported) is Some ==> supported && !d.asking && !s.modal_external
            && s.modal is Some,
        supported && !d.asking && !s.modal_external && s.modal == Some(
            crate::list::app::ModalView::Confirm { text, discard },
        ) ==> d.popup_due(s, supported) == Some(text),
        s.modal == Some(crate::list::app::ModalView::Help) ==> d.popup_due(s, supported) is None,
{
}

} // verus!
