//! The preview's event loop, without the waiting: what an event does, what
//! follows the editor or git on our terminal, what the list is told, and how
//! notes go to an agent.
use crate::annotate::{agents_view, Agent};
use crate::config::Config;
use crate::input::{Action, Key, MouseKind};
use crate::ipc::{infos_view, NoteInfoView, ToList, ToPreview, ToPreviewView};
use crate::json::parsed_text;
use crate::popup::{agents_json, encode_agents};
use crate::preview::app::{NoteView, PreviewApp, PreviewView, ReqView, ShowReq, State, StateView};
use crate::preview::render::{DiffDoc, DocView};
use crate::preview::session::{
    deliver_notes, handle_ipc, message_of, notes_snapshot, pick_answer, picked, picker_height,
    picker_title, snapshot,
};
use crate::repo::Output;
use crate::text::{
    append, arg, copy, dec, first_line, first_line_of, join, joined, lemma_strs_push, no_args,
    strs,
};
use vstd::prelude::*;

verus! {

broadcast use {vstd::string::group_string_axioms, lemma_strs_push};

/// What the loop remembers between two events.
#[derive(Debug, Clone, Copy, PartialEq, Eq, Structural)]
pub struct Driver {
    /// The agent picker is open.
    pub picking: bool,
    /// The state of the notes that the list was told of last.
    pub told: u64,
}

/// What happened.
pub enum Event {
    Key { key: Key, action: Option<Action> },
    Mouse { kind: MouseKind, row: u16 },
    /// The list connected.
    Connected,
    /// A message of the list.
    Message(ToPreview),
    /// The list went away.
    Closed,
    /// The diff of a request was built.
    Diff { req: ShowReq, result: Result<DiffDoc, String> },
}

pub enum EventView {
    Key { key: Key, action: Option<Action> },
    Mouse { kind: MouseKind, row: u16 },
    Connected,
    Message(ToPreviewView),
    Closed,
    Diff { req: ReqView, result: Result<DocView, Seq<char>> },
}

pub open spec fn built_view(r: Result<DiffDoc, String>) -> Result<DocView, Seq<char>> {
    match r {
        Ok(d) => Ok(d@),
        Err(m) => Err(m@),
    }
}

impl View for Event {
    type V = EventView;

    open spec fn view(&self) -> EventView {
        match self {
            Event::Key { key, action } => EventView::Key { key: *key, action: *action },
            Event::Mouse { kind, row } => EventView::Mouse { kind: *kind, row: *row },
            Event::Connected => EventView::Connected,
            Event::Message(m) => EventView::Message(m@),
            Event::Closed => EventView::Closed,
            Event::Diff { req, result } => EventView::Diff {
                req: req@,
                result: built_view(*result),
            },
        }
    }
}

/// What is to be done for an event.
#[derive(Debug)]
pub enum Command {
    Nothing,
    /// Tell the list that we are up.
    Greet,
    /// Build the diff of this request.
    Fetch(ShowReq),
    /// Run the editor on this file, then go on with `edited`.
    Edit { file: String },
    /// Run git on our terminal, then go on with `git_ran`.
    Git { argv: Vec<String> },
}

#[verifier::ext_equal]
pub enum CommandView {
    Nothing,
    Greet,
    Fetch(ReqView),
    Edit { file: Seq<char> },
    Git { argv: Seq<Seq<char>> },
}

impl View for Command {
    type V = CommandView;

    open spec fn view(&self) -> CommandView {
        match self {
            Command::Nothing => CommandView::Nothing,
            Command::Greet => CommandView::Greet,
            Command::Fetch(req) => CommandView::Fetch(req@),
            Command::Edit { file } => CommandView::Edit { file: file@ },
            Command::Git { argv } => CommandView::Git { argv: strs(argv@) },
        }
    }
}

// ---- events ----------------------------------------------------------------------

impl PreviewView {
    /// The list connected.
    pub open spec fn greeted(self) -> PreviewView {
        if self.current is None {
            PreviewView { state: StateView::Splash("no file selected"@), ..self }
        } else {
            self
        }
    }

    /// The pane after an event, and the command that the event makes.
    pub open spec fn handled(self, event: EventView) -> (PreviewView, CommandView) {
        match event {
            EventView::Key { key, action } => (self.keyed(key, action), CommandView::Nothing),
            EventView::Mouse { kind, row } => (self.moused(kind, row), CommandView::Nothing),
            EventView::Connected => (self.greeted(), CommandView::Greet),
            EventView::Message(m) => match m {
                ToPreviewView::Edit { file } => (self, CommandView::Edit { file }),
                ToPreviewView::GitInPane { argv } => (self, CommandView::Git { argv }),
                ToPreviewView::Show(req) => (self.told(m), CommandView::Fetch(req)),
                _ => (self.told(m), CommandView::Nothing),
            },
            EventView::Closed => (
                PreviewView { should_quit: true, ..self },
                CommandView::Nothing,
            ),
            EventView::Diff { req, result } => (
                self.diff_applied(req, result),
                CommandView::Nothing,
            ),
        }
    }
}

/// One event.
pub fn on_event(app: &mut PreviewApp, event: Event) -> (r: Command)
    ensures
        (final(app)@, r@) == old(app)@.handled(event@),
{
    match event {
        Event::Key { key, action } => {
            app.on_key(key, action);
            Command::Nothing
        },
        Event::Mouse { kind, row } => {
            app.on_mouse(kind, row);
            Command::Nothing
        },
        Event::Connected => {
            app.on_connected();
            Command::Greet
        },
        Event::Message(m) => on_message(app, m),
        Event::Closed => {
            app.should_quit = true;
            Command::Nothing
        },
        Event::Diff { req, result } => {
            app.apply_diff(&req, result);
            Command::Nothing
        },
    }
}

fn on_message(app: &mut PreviewApp, m: ToPreview) -> (r: Command)
    ensures
        (final(app)@, r@) == old(app)@.handled(EventView::Message(m@)),
{
    match m {
        ToPreview::Edit { file } => Command::Edit { file },
        ToPreview::GitInPane { argv } => Command::Git { argv },
        other => match handle_ipc(app, other) {
            Some(req) => Command::Fetch(req),
            None => Command::Nothing,
        },
    }
}

/// After the editor or git: the diff that is built again, since the file may
/// have changed on disk.
pub fn after_suspend(app: &PreviewApp) -> (r: Option<ShowReq>)
    ensures
        (match (r, app@.current) {
            (Some(req), Some(current)) => req@ == current,
            (None, None) => true,
            _ => false,
        }),
{
    match &app.current {
        Some(req) => Some(req.clone()),
        None => None,
    }
}

/// A program could not be started on our terminal: the pane shows why.
pub fn suspend_failed(app: &mut PreviewApp, reason: &str)
    ensures
        final(app)@ == (PreviewView {
            state: StateView::Error(first_line_of(reason@)),
            ..old(app)@
        }),
{
    app.state = State::Error(first_line(reason));
}

/// Whether git has an editor configured, from its answer.
pub fn has_core_editor(out: &Option<Output>) -> (r: bool)
    ensures
        r == (match *out {
            Some(out) => out.ok() && out.stdout@.len() > 0,
            None => false,
        }),
{
    match out {
        Some(out) => out.success() && out.stdout.len() > 0,
        None => false,
    }
}

/// The editor that git is told to use: ours, unless one is set already.
pub fn git_editor(cfg: &Config, set: bool, core_editor: bool) -> (r: Option<String>)
    ensures
        crate::text::opt_str(r) == if set || core_editor {
            None
        } else {
            Some(join(cfg@.editor, " "@))
        },
{
    if set || core_editor {
        None
    } else {
        Some(joined(&cfg.editor, " "))
    }
}

// ---- telling the list ------------------------------------------------------------

/// A message to the list, as far as it comes from here.
pub enum NewsView {
    ShowNotes,
    EditSelection,
    Notes(Seq<NoteInfoView>),
    Other,
}

pub open spec fn news_view(m: ToList) -> NewsView {
    match m {
        ToList::ShowNotesView => NewsView::ShowNotes,
        ToList::EditSelection => NewsView::EditSelection,
        ToList::Notes { notes } => NewsView::Notes(infos_view(notes@)),
        _ => NewsView::Other,
    }
}

pub open spec fn all_news(v: Seq<ToList>) -> Seq<NewsView> {
    v.map_values(|m: ToList| news_view(m))
}

/// What the list is owed: the notes view, the editor, and the notes whenever
/// they changed.
pub open spec fn news(s: PreviewView, told: u64) -> Seq<NewsView> {
    (if s.notes_view_request {
        seq![NewsView::ShowNotes]
    } else {
        Seq::empty()
    }) + (if s.edit_request {
        seq![NewsView::EditSelection]
    } else {
        Seq::empty()
    }) + (if s.notes_rev != told {
        seq![NewsView::Notes(snapshot(s.notes))]
    } else {
        Seq::empty()
    })
}

impl Driver {
    /// Nothing is open yet, and the list knows of no notes.
    pub fn new() -> (r: Driver)
        ensures
            r == (Driver { picking: false, told: 0 }),
    {
        Driver { picking: false, told: 0 }
    }

    /// The messages that the list is owed.
    pub fn outgoing(&mut self, app: &mut PreviewApp) -> (r: Vec<ToList>)
        ensures
            all_news(r@) == news(old(app)@, old(self).told),
            *final(self) == (Driver { told: old(app)@.notes_rev, ..*old(self) }),
            final(app)@ == (PreviewView {
                notes_view_request: false,
                edit_request: false,
                ..old(app)@
            }),
    {
        let ghost s = app@;
        let ghost told = self.told;
        let mut out: Vec<ToList> = Vec::new();
        if app.notes_view_request {
            app.notes_view_request = false;
            out.push(ToList::ShowNotesView);
        }
        if app.edit_request {
            app.edit_request = false;
            out.push(ToList::EditSelection);
        }
        if app.notes_rev != self.told {
            self.told = app.notes_rev;
            out.push(ToList::Notes { notes: notes_snapshot(&app.notes) });
        }
        assert(all_news(out@) =~= news(s, told));
        out
    }
}

/// The list is told of the notes exactly when they changed since it last heard
/// of them, and then of all of them.
pub proof fn law_the_list_hears_of_every_change(s: PreviewView, told: u64)
    ensures
        s.notes_rev != told ==> news(s, told).last() == NewsView::Notes(snapshot(s.notes)),
        s.notes_rev == told && !s.notes_view_request && !s.edit_request ==> news(s, told).len()
            == 0,
        snapshot(s.notes).len() == s.notes.len(),
{
}

// ---- sending notes to an agent ---------------------------------------------------

/// The popup that lets the user choose an agent.
#[derive(Debug)]
pub struct Picker {
    /// The agents, as one text.
    pub agents: String,
    pub title: String,
    pub width: u16,
    pub height: u16,
}

impl Driver {
    /// Whether the picker is asked for; a request while it is open is dropped.
    pub fn wants_picker(&mut self, app: &mut PreviewApp) -> (r: bool)
        ensures
            r == (old(app)@.popup_request is Some && !old(self).picking),
            *final(self) == *old(self),
            final(app)@ == (PreviewView { popup_request: None, ..old(app)@ }),
    {
        let wanted = app.popup_request.is_some();
        app.popup_request = None;
        wanted && !self.picking
    }

    /// The picker for these agents; without any, the pane says so.
    pub fn picker(&self, app: &mut PreviewApp, agents: &Vec<Agent>) -> (r: Option<Picker>)
        ensures
            (match r {
                Some(p) => {
                    &&& agents@.len() > 0
                    &&& parsed_text(p.agents@) == Some(agents_json(agents_view(agents@)))
                    &&& p.title@ == "send "@ + dec(old(app)@.notes.len()) + " note(s) to…"@
                    &&& p.width == 74
                    &&& p.height == if agents@.len() < 8 {
                        agents@.len() + 6
                    } else {
                        14
                    }
                    &&& final(app)@ == old(app)@
                },
                None => agents@.len() == 0 && final(app)@ == old(app)@.flashed(
                    "no agent panes in this workspace"@,
                ),
            }),
    {
        if agents.len() == 0 {
            app.flash("no agent panes in this workspace");
            return None;
        }
        assert(app@.notes.len() == app.notes@.len());
        Some(
            Picker {
                agents: encode_agents(agents),
                title: picker_title(app.notes.len()),
                width: 74,
                height: picker_height(agents.len()),
            },
        )
    }

    /// The picker was opened, or could not be.
    pub fn picker_opened(&mut self, app: &mut PreviewApp, ok: bool)
        ensures
            *final(self) == (Driver { picking: old(self).picking || ok, ..*old(self) }),
            final(app)@ == (if ok {
                old(app)@
            } else {
                old(app)@.flashed(
                    "popup failed — needs herdr ≥0.7.4 + re-linked plugin (see debug log)"@,
                )
            }),
    {
        if ok {
            self.picking = true;
        } else {
            app.flash("popup failed — needs herdr ≥0.7.4 + re-linked plugin (see debug log)");
        }
    }

    /// The picker's answer: the pane to type into, the text, and whether to
    /// submit it.
    pub fn answered(&mut self, app: &PreviewApp, answer: &str) -> (r: Option<(String, String, bool)>)
        ensures
            *final(self) == (Driver { picking: false, ..*old(self) }),
            (match r {
                Some(d) => picked(answer@) == Some((d.0@, d.2)) && d.1@ == message_of(
                    app@.notes,
                    app@.notes.len() as int,
                ),
                None => picked(answer@) is None,
            }),
    {
        self.picking = false;
        match pick_answer(answer) {
            Some((pane, submit)) => {
                assert(app@.notes.len() == app.notes@.len());
                Some((pane, deliver_notes(&app.notes), submit))
            },
            None => None,
        }
    }
}

/// The notes were sent, or could not be: what was sent is gone from the pane,
/// what was not stays.
pub fn delivered(app: &mut PreviewApp, sent: Result<String, String>)
    ensures
        final(app)@ == (match sent {
            Ok(agent) => old(app)@.without_notes().flashed("notes sent to "@ + agent@),
            Err(e) => old(app)@.flashed("send failed: "@ + e@),
        }),
{
    match sent {
        Ok(agent) => {
            app.clear_notes();
            let mut msg = copy("notes sent to ");
            append(&mut msg, agent.as_str());
            app.flash(msg.as_str());
        },
        Err(e) => {
            let mut msg = copy("send failed: ");
            append(&mut msg, e.as_str());
            app.flash(msg.as_str());
        },
    }
}

impl PreviewView {
    /// All notes are gone.
    pub open spec fn without_notes(self) -> PreviewView {
        PreviewView { notes: Seq::empty(), notes_rev: self.notes_bumped(), ..self }.rebuilt()
    }
}

/// Notes that could not be sent are not lost.
pub proof fn law_unsent_notes_stay(s: PreviewView, e: Seq<char>)
    ensures
        s.flashed("send failed: "@ + e).notes == s.notes,
        s.flashed("send failed: "@ + e).notes_rev == s.notes_rev,
{
}

/// The arguments that type a text into a pane.
pub fn send_text_args(pane: &str, text: &str) -> (r: Vec<String>)
    ensures
        strs(r@) == seq!["pane"@, "send-text"@, pane@, text@],
{
    let mut v = no_args();
    arg(&mut v, "pane");
    arg(&mut v, "send-text");
    arg(&mut v, pane);
    arg(&mut v, text);
    assert(strs(v@) =~= seq!["pane"@, "send-text"@, pane@, text@]);
    v
}

/// The arguments that press enter in a pane.
pub fn submit_args(pane: &str) -> (r: Vec<String>)
    ensures
        strs(r@) == seq!["pane"@, "send-keys"@, pane@, "enter"@],
{
    let mut v = no_args();
    arg(&mut v, "pane");
    arg(&mut v, "send-keys");
    arg(&mut v, pane);
    arg(&mut v, "enter");
    assert(strs(v@) =~= seq!["pane"@, "send-keys"@, pane@, "enter"@]);
    v
}

/// Notes that were sent are gone from the pane, and the list hears of it.
pub proof fn law_sent_notes_are_gone(s: PreviewView)
    ensures
        s.without_notes().notes.len() == 0,
        news(s.without_notes(), s.notes_rev).len() > 0,
        news(s.without_notes(), s.notes_rev).last() == NewsView::Notes(Seq::empty()),
{
    reveal(PreviewView::rebuilt);
    let t = s.without_notes();
    assert(t.notes_rev != s.notes_rev);
    assert(snapshot(t.notes) =~= Seq::<NoteInfoView>::empty());
}

/// What the list is told of a note is what the note is.
pub proof fn law_the_list_hears_what_the_notes_are(notes: Seq<NoteView>, i: int)
    requires
        0 <= i < notes.len(),
    ensures
        snapshot(notes).len() == notes.len(),
        ({
            let told = snapshot(notes)[i];
            &&& told.id == notes[i].id
            &&& told.file == notes[i].file
            &&& told.start == notes[i].start && told.end == notes[i].end
            &&& told.text == notes[i].text
            &&& told.cached == notes[i].cached
        }),
{
}

} // verus!
