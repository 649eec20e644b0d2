//! The list pane: its rows, what it draws, and its event loop.
use gitview::config::Config;
use gitview::git::{ChangeKind, CommitInfo, FileEntry, Scope, StageState};
use gitview::input::{Action, Hints, Key, KeyCode, MouseKind};
use gitview::ipc::{NoteInfo, ToList, ToPreview};
use gitview::list::app::{App, EditorThen, Effect, Modal, Mode, Then};
use gitview::list::driver::{note_messages, Command, Driver, Event};
use gitview::list::rows::{ListRow, Section};
use gitview::list::session::{
    answer_key, route_key, scroll_message, show_changed, Activation, RemoteOutcome, Route,
    SHOW_DEBOUNCE_MS,
};
use gitview::list::ui;
use gitview::repo::Repo;
use gitview::style::{Color, Line};

const W: usize = 40;

fn entry(path: &str, kind: ChangeKind, stage: StageState, adds: u32, dels: u32) -> FileEntry {
    FileEntry {
        path: path.to_string(),
        orig_path: None,
        kind,
        stage,
        adds: Some(adds),
        dels: Some(dels),
    }
}

fn modified(path: &str) -> FileEntry {
    entry(path, ChangeKind::Modified, StageState::Unstaged, 1, 0)
}

fn app_with(entries: Vec<FileEntry>) -> App {
    let repo = Repo { root: ".".to_string() };
    App::from_entries(repo, Config::default(), Some("main".to_string()), true, entries)
}

fn flat(line: &Line) -> String {
    line.spans.iter().map(|s| s.text.as_str()).collect()
}

/// The text of every row of the body.
fn body(app: &App) -> Vec<String> {
    (0..app.rows.len()).flat_map(|i| ui::item_lines(app, i, W)).map(|l| flat(&l)).collect()
}

fn key(c: char) -> Key {
    Key::plain(KeyCode::Char(c))
}

// ---- drawing ---------------------------------------------------------------

#[test]
fn partial_file_appears_in_both_sections() {
    let app = app_with(vec![entry(
        "both.rs",
        ChangeKind::Modified,
        StageState::Partial,
        2,
        1,
    )]);
    let body = body(&app).join("\n");
    let hits = body.matches("both.rs").count();
    assert_eq!(
        hits, 2,
        "partial file should be in staged AND changes:\n{body}"
    );
}

#[test]
fn header_shows_file_count() {
    let app = app_with(vec![
        entry("a.rs", ChangeKind::Modified, StageState::Unstaged, 1, 0),
        entry("b.rs", ChangeKind::Added, StageState::Staged, 2, 0),
    ]);
    let header = flat(&ui::header(&app, W));
    assert!(header.contains("2 files"), "header: {header:?}");
}

#[test]
fn empty_state_message() {
    let app = app_with(vec![]);
    let body = ui::empty_message(&app).unwrap();
    assert!(body.contains("working tree clean"), "body: {body:?}");
    assert_eq!(ui::empty_message(&app_with(vec![modified("a.rs")])), None);
}

#[test]
fn entries_show_their_marker_and_counts() {
    let app = app_with(vec![
        entry("src/main.rs", ChangeKind::Modified, StageState::Unstaged, 3, 1),
        entry("new.rs", ChangeKind::Added, StageState::Staged, 10, 0),
        entry("notes.txt", ChangeKind::Untracked, StageState::Untracked, 5, 0),
    ]);
    let rows = body(&app);
    assert!(rows[0].contains("STAGED CHANGES"), "{}", rows[0]);
    assert_eq!(rows[1].trim_start().chars().next(), Some('A'));
    assert!(rows[1].trim_end().ends_with("+10"), "{}", rows[1]);
    assert!(rows[2].contains("CHANGES"), "{}", rows[2]);
    assert!(rows[3].contains("src/"), "{}", rows[3]);
    assert_eq!(rows[4].trim_start().chars().next(), Some('M'));
    assert!(rows[4].contains("+3 −1") && rows[4].contains("main.rs"), "{}", rows[4]);
    assert_eq!(rows[5].trim_start().chars().next(), Some('U'));
    assert!(rows[5].trim_end().ends_with("+5"), "{}", rows[5]);
}

#[test]
fn markers_and_counts_by_kind() {
    assert_eq!(ui::marker(ChangeKind::Modified), ('M', Color::Yellow));
    assert_eq!(ui::marker(ChangeKind::Deleted).0, 'D');
    assert_eq!(ui::marker(ChangeKind::Renamed).0, 'R');
    assert_eq!(ui::marker(ChangeKind::Conflicted).0, '!');
    assert_eq!(ui::stats(&entry("a", ChangeKind::Modified, StageState::Unstaged, 3, 1)).0, "+3 −1");
    assert_eq!(ui::stats(&entry("a", ChangeKind::Modified, StageState::Unstaged, 0, 2)).0, "−2");
}

#[test]
fn a_long_path_loses_its_head() {
    assert_eq!(ui::elide_head("short", 10), "short");
    assert_eq!(ui::elide_head("very/long/path.rs", 8), "…path.rs");
    assert_eq!(ui::split_dir("src/list/ui.rs"), ("src/list/".to_string(), "ui.rs".to_string()));
    assert_eq!(ui::split_dir("ui.rs"), (String::new(), "ui.rs".to_string()));
    assert_eq!(ui::uppercase("staged changes"), "STAGED CHANGES");
}

#[test]
fn a_box_is_centered_in_its_area() {
    let area = ui::Rect { x: 0, y: 0, width: 40, height: 12 };
    let r = ui::centered_rect(area, 20, 4);
    assert_eq!((r.x, r.y, r.width, r.height), (10, 4, 20, 4));
    let r = ui::centered_rect(area, 90, 90);
    assert_eq!((r.x, r.y, r.width, r.height), (0, 0, 40, 12));
}

#[test]
fn help_names_the_bound_keys() {
    let hints = Hints { keys: vec![(Action::Stage, "s".to_string())] };
    let text: Vec<String> = ui::help_lines(&hints).iter().map(flat).collect();
    assert!(text.iter().any(|l| l.contains("stage")), "{text:?}");
    let footer = flat(&ui::footer(&app_with(vec![modified("a.rs")]), &hints, 0));
    assert!(footer.contains("s stage"), "{footer}");
}

// ---- rows and the cursor ---------------------------------------------------

#[test]
fn the_cursor_rests_on_a_selectable_row() {
    let mut app = app_with(vec![modified("a.rs"), modified("b.rs")]);
    assert!(matches!(app.rows[app.cursor], ListRow::Entry { .. }));
    app.on_key(key('k'), Some(Action::Up)); // no row above but the header
    assert!(matches!(app.rows[app.cursor], ListRow::Entry { .. }));
    app.on_key(key('j'), Some(Action::Down));
    assert_eq!(app.selected_entry().unwrap().0.path, "b.rs");
    app.on_key(key('g'), Some(Action::Top));
    assert_eq!(app.selected_entry().unwrap().0.path, "a.rs");
    app.on_key(key('G'), Some(Action::Bottom));
    assert_eq!(app.selected_entry().unwrap().0.path, "b.rs");
}

#[test]
fn a_refresh_keeps_the_selection() {
    let mut app = app_with(vec![modified("b.rs"), modified("c.rs")]);
    app.on_key(key('j'), Some(Action::Down));
    assert_eq!(app.selected_entry().unwrap().0.path, "c.rs");
    app.apply_refresh(vec![modified("a.rs"), modified("b.rs"), modified("c.rs")]);
    assert_eq!(app.selected_entry().unwrap().0.path, "c.rs");
    app.apply_refresh(vec![]);
    assert!(app.selected_entry().is_none());
}

#[test]
fn a_directory_collapses_and_expands() {
    let mut app = app_with(vec![modified("src/a.rs"), modified("src/b.rs"), modified("z.rs")]);
    let open = app.rows.len();
    app.cursor = 1;
    assert!(matches!(&app.rows[1], ListRow::Dir { path, .. } if path == "src/"));
    assert!(matches!(app.activate_selection(true), Activation::Done));
    assert_eq!(app.rows.len(), open - 2);
    assert!(matches!(&app.rows[1], ListRow::Dir { collapsed: true, .. }));
    app.activate_selection(true);
    assert_eq!(app.rows.len(), open);
}

#[test]
fn asking_changes_nothing_and_other_keys_leave_the_question() {
    let mut app = app_with(vec![modified("a.rs")]);
    app.on_key(key('x'), Some(Action::Discard));
    assert!(matches!(app.modal, Some(Modal::Confirm { .. })));
    assert_eq!(app.entries.len(), 1);
    assert!(matches!(app.on_key(key('z'), None), Effect::Nothing));
    assert!(app.modal.is_some());
    assert!(matches!(app.on_key(key('y'), None), Effect::Discard(v) if v.len() == 1));
    assert!(app.modal.is_none());
}

#[test]
fn a_double_click_activates() {
    let mut app = app_with(vec![modified("a.rs"), modified("b.rs")]);
    app.now = 1000;
    assert!(!app.on_mouse(MouseKind::LeftDown, 3));
    assert_eq!(app.selected_entry().unwrap().0.path, "b.rs");
    app.now = 1200;
    assert!(app.on_mouse(MouseKind::LeftDown, 3));
    app.now = 3000;
    assert!(!app.on_mouse(MouseKind::LeftDown, 3));
}

#[test]
fn a_status_fades() {
    let mut app = app_with(vec![]);
    app.now = 500;
    app.set_status("said");
    assert_eq!(app.active_status(3499), Some("said"));
    assert_eq!(app.active_status(3500), None);
}

// ---- routing ---------------------------------------------------------------

#[test]
fn where_a_key_goes() {
    let mut app = app_with(vec![modified("a.rs")]);
    assert!(matches!(route_key(&app, None, true), Route::Handle));
    assert!(matches!(route_key(&app, Some(Action::Edit), true), Route::Activate));
    assert!(matches!(route_key(&app, Some(Action::Commit), true), Route::Commit));
    assert!(matches!(route_key(&app, Some(Action::Commit), false), Route::Handle));
    assert!(matches!(route_key(&app, Some(Action::Refresh), false), Route::Reconnect));
    assert!(matches!(route_key(&app, Some(Action::Refresh), true), Route::Handle));
    assert!(matches!(
        route_key(&app, Some(Action::DiffBottom), true),
        Route::Forward(ToPreview::Scroll { delta: i32::MAX })
    ));
    app.busy = Some("editing".to_string());
    assert!(matches!(route_key(&app, Some(Action::ScrollDown), true), Route::Handle));
    app.busy = None;
    app.modal = Some(Modal::Help);
    assert!(matches!(route_key(&app, Some(Action::Edit), true), Route::Handle));
}

#[test]
fn scroll_keys_are_forwarded() {
    assert!(matches!(scroll_message(Action::ScrollDown), Some(ToPreview::Scroll { delta: 1 })));
    assert!(matches!(scroll_message(Action::ScrollUp), Some(ToPreview::Scroll { delta: -1 })));
    assert!(matches!(scroll_message(Action::DiffTop), Some(ToPreview::Scroll { delta: i32::MIN })));
    assert!(matches!(
        scroll_message(Action::HalfPageDown),
        Some(ToPreview::Page { down: true, full: false })
    ));
    assert!(scroll_message(Action::Down).is_none());
    assert_eq!(answer_key(" y\n"), KeyCode::Char('y'));
    assert_eq!(answer_key("n"), KeyCode::Char('n'));
    assert_eq!(answer_key("cancel"), KeyCode::Esc);
}

#[test]
fn enter_needs_the_preview() {
    let mut app = app_with(vec![modified("a.rs")]);
    assert!(matches!(
        app.activate_selection(true),
        Activation::StartEdit { file } if file == "a.rs"
    ));
    assert!(matches!(app.activate_selection(false), Activation::Done));
    assert_eq!(app.active_status(0), Some("preview not connected — press r to reconnect"));
    app.edit_started("a.rs", true, true);
    assert_eq!(app.busy.as_deref(), Some("editing a.rs…"));
    assert!(matches!(app.activate_selection(true), Activation::RemoteOpen { .. }));
    app.remote_opened("a.rs", RemoteOutcome::Gone);
    assert_eq!(app.active_status(0), Some("file no longer exists — nothing to edit"));
}

#[test]
fn a_commit_needs_staged_files() {
    let mut app = app_with(vec![modified("a.rs")]);
    assert!(!app.start_commit(Ok(0)));
    assert_eq!(app.active_status(0), Some("nothing staged — s to stage files"));
    assert!(!app.start_commit(Err("boom".to_string())));
    assert_eq!(app.active_status(0), Some("commit preflight failed: boom"));
    assert!(app.start_commit(Ok(2)));
    app.commit_started(true);
    assert_eq!(app.busy.as_deref(), Some("committing…"));
    app.git_done(true, Some("abc subject".to_string()));
    assert_eq!(app.active_status(0), Some("committed abc subject"));
    app.git_done(false, None);
    assert_eq!(app.active_status(0), Some("commit aborted"));
}

#[test]
fn the_section_decides_which_diff_is_shown() {
    let mut app = app_with(vec![entry(
        "both.rs",
        ChangeKind::Modified,
        StageState::Partial,
        2,
        1,
    )]);
    let staged = app.current_show().unwrap();
    assert!(staged.cached && staged.file == "both.rs" && staged.commit.is_none());
    let before = app.show_key();
    app.on_key(key('j'), Some(Action::Down));
    assert!(!app.current_show().unwrap().cached);
    assert!(show_changed(&before, &app.show_key()));
    assert!(!show_changed(&app.show_key(), &app.show_key()));
}

// ---- the event loop --------------------------------------------------------

fn press(d: &mut Driver, app: &mut App, c: char, action: Option<Action>, now: u64) -> Command {
    d.on_event(app, Event::Key { key: key(c), action }, true, now)
}

#[test]
fn a_new_selection_is_shown_once_it_stood_still() {
    let mut app = app_with(vec![modified("a.rs"), modified("b.rs")]);
    let mut d = Driver::new(0);
    let first = d.flush(&app, SHOW_DEBOUNCE_MS);
    assert!(matches!(&first[..], [ToPreview::Show(r)] if r.file == "a.rs"));
    assert!(d.flush(&app, 1000).is_empty());

    let before = app.show_key();
    press(&mut d, &mut app, 'j', Some(Action::Down), 2000);
    assert!(d.key_done(&mut app, Some(Action::Down), &before, 2000).is_none());
    assert!(d.flush(&app, 2000 + SHOW_DEBOUNCE_MS - 1).is_empty());
    let shown = d.flush(&app, 2000 + SHOW_DEBOUNCE_MS);
    assert!(matches!(&shown[..], [ToPreview::Show(r)] if r.file == "b.rs"));
    // Nothing left to show is said, too.
    d.on_event(&mut app, Event::Refresh(vec![]), true, 3000);
    let cleared = d.flush(&app, 4000);
    assert!(matches!(&cleared[..], [ToPreview::Clear]));
}

#[test]
fn the_editor_is_asked_at_most_once() {
    let mut app = app_with(vec![modified("a.rs"), modified("b.rs")]);
    app.busy = Some("editing a.rs…".to_string());
    let mut d = Driver::new(0);
    let before = app.show_key();
    press(&mut d, &mut app, 'j', Some(Action::Down), 10);
    assert_eq!(d.key_done(&mut app, Some(Action::Down), &before, 10), Some(None));
    press(&mut d, &mut app, 'q', Some(Action::Quit), 20);
    assert_eq!(d.key_done(&mut app, Some(Action::Quit), &before, 20), None);
    // The answer frees the way for the next question.
    d.on_event(&mut app, Event::Probe { then: None, unsaved: Some(true) }, true, 30);
    assert_eq!(app.active_status(0), Some("editor has unsaved changes — stays open"));
    press(&mut d, &mut app, 'q', Some(Action::Quit), 40);
    assert_eq!(
        d.key_done(&mut app, Some(Action::Quit), &before, 40),
        Some(Some(EditorThen::QuitView))
    );
    let then = Some(EditorThen::QuitView);
    d.on_event(&mut app, Event::Probe { then, unsaved: Some(false) }, true, 50);
    let done = Event::Message(ToList::EditDone { file: "a.rs".to_string() });
    assert!(matches!(
        d.on_event(&mut app, done, true, 60),
        Command::Resume(Effect::Reload(Then::Changed))
    ));
    assert!(!app.resume_after_edit());
    assert!(app.should_quit);
}

#[test]
fn unsaved_changes_are_asked_about() {
    let mut app = app_with(vec![modified("a.rs")]);
    let mut d = Driver::new(0);
    let then = Some(EditorThen::Commit);
    d.on_event(&mut app, Event::Probe { then, unsaved: Some(true) }, true, 0);
    assert!(matches!(app.modal, Some(Modal::EditorClose { then: EditorThen::Commit })));
    let question = d.confirm_due(&app, true).unwrap();
    assert_eq!(question, "The editor has unsaved changes. Save them? (no discards)");
    assert_eq!(d.confirm_due(&app, false), None);
    d.confirm_opened(&mut app);
    assert!(app.modal_external);
    assert_eq!(d.confirm_due(&app, true), None);
    assert!(matches!(
        d.confirm_answered(&mut app, "y\n", None),
        Effect::CloseEditor { save: true, then: EditorThen::Commit }
    ));
    assert!(!app.modal_external && app.modal.is_none());
    app.editor_told(true, EditorThen::Commit);
    assert!(app.resume_after_edit());
    app.editor_told(false, EditorThen::Commit);
    assert_eq!(app.active_status(0), Some("could not close the editor"));
}

#[test]
fn a_confirmed_discard_shows_the_diff_again() {
    let mut app = app_with(vec![modified("a.rs")]);
    let mut d = Driver::new(0);
    d.flush(&app, 1000);
    press(&mut d, &mut app, 'x', Some(Action::Discard), 1000);
    assert!(d.confirm_due(&app, true).unwrap().contains("a.rs"));
    d.confirm_opened(&mut app);
    let effect = d.confirm_answered(&mut app, "y", None);
    assert!(matches!(effect, Effect::Discard(_)));
    match app.discarded(None) {
        Effect::Reload(then) => app.reloaded(then, Ok(vec![])),
        other => panic!("{other:?}"),
    }
    d.confirm_done(&mut app, 2000);
    assert!(!app.needs_reshow);
    assert!(matches!(&d.flush(&app, 3000)[..], [ToPreview::Clear]));
}

#[test]
fn messages_of_the_preview() {
    let mut app = app_with(vec![modified("a.rs")]);
    let mut d = Driver::new(0);
    app.set_status("connecting…");
    d.on_event(&mut app, Event::Message(ToList::Ready), true, 10);
    assert_eq!(app.active_status(10), None);
    assert!(matches!(
        d.on_event(&mut app, Event::Message(ToList::GitDone { ok: false }), true, 20),
        Command::Committed { ok: false, effect: Effect::Reload(Then::Changed) }
    ));
    assert!(matches!(
        d.on_event(&mut app, Event::Message(ToList::EditSelection), true, 30),
        Command::Activate(Activation::StartEdit { .. })
    ));
    assert!(matches!(d.on_event(&mut app, Event::Closed, true, 40), Command::Disconnect));
    d.reconnected(&mut app, false, 50);
    assert_eq!(app.active_status(50), None);
    d.reconnected(&mut app, true, 60);
    assert_eq!(app.active_status(60), Some("preview reconnected"));
    assert!(matches!(
        d.on_event(&mut app, Event::Key { key: key('r'), action: Some(Action::Refresh) }, false, 70),
        Command::Reconnect
    ));
}

fn note(id: u64, file: &str, text: &str) -> NoteInfo {
    NoteInfo { id, file: file.to_string(), start: 0, end: 0, text: text.to_string(), cached: false }
}

#[test]
fn the_notes_view_follows_the_notes() {
    let mut app = app_with(vec![modified("a.rs"), modified("b.rs")]);
    let mut d = Driver::new(0);
    let notes = vec![note(1, "a.rs", "first"), note(2, "b.rs", "second")];
    d.on_event(&mut app, Event::Message(ToList::Notes { notes }), true, 0);
    assert_eq!(app.mode, Mode::Files);
    d.on_event(&mut app, Event::Message(ToList::ShowNotesView), true, 0);
    assert_eq!(app.mode, Mode::Notes);
    assert_eq!(app.selected_note().unwrap().id, 1);
    let shown = d.flush(&app, 1000);
    assert!(matches!(
        &shown[..],
        [ToPreview::Show(r), ToPreview::FocusNote { id: 1 }] if r.file == "a.rs"
    ));

    // Enter rewrites the note in a popup.
    assert!(matches!(app.activate_selection(true), Activation::Done));
    let popup = d.rewrite(&mut app).unwrap();
    assert_eq!((popup.title.as_str(), popup.prefill.as_deref()), ("edit note", Some("first")));
    assert!(matches!(
        d.rewritten("better".to_string()),
        Some(ToPreview::EditNote { id: 1, text }) if text == "better"
    ));
    assert!(d.rewritten("again".to_string()).is_none());

    // Without notes the view is left.
    match d.on_event(&mut app, Event::Message(ToList::Notes { notes: vec![] }), true, 0) {
        Command::Perform(Effect::Reload(then)) => {
            app.reloaded(then, Ok(vec![modified("a.rs")]));
        }
        other => panic!("{other:?}"),
    }
    assert_eq!(app.mode, Mode::Files);
}

#[test]
fn an_open_modal_takes_the_notes_key() {
    let notes = || vec![note(1, "a.rs", "first")];
    let mut d = Driver::new(0);

    // Asked for the notes view: help closes, a question is answered with no.
    let mut app = app_with(vec![modified("a.rs")]);
    d.on_event(&mut app, Event::Message(ToList::Notes { notes: notes() }), true, 0);
    app.modal = Some(Modal::Help);
    let command = d.on_event(&mut app, Event::Message(ToList::ShowNotesView), true, 0);
    assert!(matches!(command, Command::PerformAndFocus(Effect::Nothing)));
    assert!(app.modal.is_none());
    assert_eq!(app.mode, Mode::Files);
    app.open_discard_confirm();
    assert!(matches!(app.modal, Some(Modal::Confirm { .. })));
    let command = d.on_event(&mut app, Event::Message(ToList::ShowNotesView), true, 0);
    assert!(matches!(command, Command::PerformAndFocus(Effect::Nothing)));
    assert!(app.modal.is_none());
    assert_eq!(app.mode, Mode::Files);
    app.modal = Some(Modal::EditorClose { then: EditorThen::QuitView });
    let command = d.on_event(&mut app, Event::Message(ToList::ShowNotesView), true, 0);
    assert!(matches!(
        command,
        Command::PerformAndFocus(Effect::CloseEditor { save: false, then: EditorThen::QuitView })
    ));
    assert_eq!(app.mode, Mode::Files);

    // The last note is gone: the modal closes, and the view stays.
    d.on_event(&mut app, Event::Message(ToList::ShowNotesView), true, 0);
    assert_eq!(app.mode, Mode::Notes);
    app.modal = Some(Modal::Help);
    let gone = Event::Message(ToList::Notes { notes: vec![] });
    assert!(matches!(d.on_event(&mut app, gone, true, 0), Command::Perform(Effect::Nothing)));
    assert!(app.modal.is_none());
    assert_eq!(app.mode, Mode::Notes);
    assert_eq!(app.active_status(0), Some("notes sent"));
}

#[test]
fn a_note_on_a_whole_file() {
    let mut app = app_with(vec![modified("a.rs")]);
    let mut d = Driver::new(0);
    press(&mut d, &mut app, 'a', Some(Action::Annotate), 0);
    let popup = d.annotate(&mut app).unwrap();
    assert_eq!(popup.title, "note for a.rs");
    assert!(d.annotate(&mut app).is_none());
    assert!(matches!(
        d.annotated("look".to_string()),
        Some(ToPreview::AddNote { file, text, cached: false }) if file == "a.rs" && text == "look"
    ));
    // An empty answer is a cancel, and so is a popup that never opened.
    press(&mut d, &mut app, 'a', Some(Action::Annotate), 0);
    d.annotate(&mut app);
    assert!(d.annotated(String::new()).is_none());
    press(&mut d, &mut app, 'a', Some(Action::Annotate), 0);
    d.annotate(&mut app);
    d.annotate_failed(&mut app);
    assert!(d.annotated("late".to_string()).is_none());
    d.rewrite_failed(&mut app);
    assert_eq!(app.active_status(0), Some("popup failed (see debug log)"));
}

#[test]
fn notes_are_sent_and_deleted_by_the_preview() {
    let mut app = app_with(vec![modified("a.rs")]);
    app.notes = vec![note(7, "a.rs", "x")];
    app.send_notes_request = true;
    app.delete_note_request = Some(7);
    let sent = note_messages(&mut app);
    assert!(matches!(&sent[..], [ToPreview::SendNotes, ToPreview::DeleteNote { id: 7 }]));
    assert!(note_messages(&mut app).is_empty());
}

#[test]
fn history_is_a_snapshot() {
    let mut app = app_with(vec![modified("a.rs")]);
    let info = CommitInfo {
        sha: "abc".to_string(),
        short: "abc".to_string(),
        author: "t".to_string(),
        date: "2024-01-01".to_string(),
        subject: "one".to_string(),
    };
    assert!(matches!(
        app.on_key(key('l'), Some(Action::Log)),
        Effect::LoadLog { branch_only: false }
    ));
    app.log_loaded(false, Ok(vec![info]));
    assert_eq!(app.mode, Mode::Log);
    assert_eq!(app.selected_commit().unwrap().subject, "one");
    app.apply_refresh(vec![]);
    assert_eq!(app.entries.len(), 1, "a refresh leaves the history alone");
    let info = match app.activate_selection(true) {
        Activation::Load(Effect::LoadCommit { info }) => info,
        other => panic!("{other:?}"),
    };
    app.commit_loaded(info, Ok(vec![modified("c.rs")]));
    assert_eq!(app.mode, Mode::CommitFiles);
    assert_eq!(app.current_show().unwrap().commit.as_deref(), Some("abc"));
    app.log_loaded(false, Err("bad".to_string()));
    assert_eq!(app.active_status(0), Some("log failed: bad"));
    assert_eq!(app.scope, Scope::Worktree);
    assert!(matches!(app.rows[0], ListRow::Entry { section: Section::Flat, .. } | ListRow::Header { .. }));
}

#[test]
fn the_view_opens_in_the_configured_scope() {
    let mut app = app_with(vec![modified("a.rs")]);
    assert!(matches!(app.open_scope(), Effect::Nothing));
    app.cfg.default_scope = Scope::Branch;
    assert!(matches!(app.open_scope(), Effect::ResolveBase(_)));
}

#[test]
fn what_is_collapsed_stays_so_over_a_refresh() {
    let entries = || {
        vec![
            entry("src/a.rs", ChangeKind::Modified, StageState::Partial, 1, 0),
            modified("src/b.rs"),
        ]
    };
    let mut app = app_with(entries());
    let dirs = |app: &App| -> Vec<(Section, bool)> {
        app.rows
            .iter()
            .filter_map(|r| match r {
                ListRow::Dir { section, collapsed, .. } => Some((*section, *collapsed)),
                _ => None,
            })
            .collect()
    };
    assert_eq!(dirs(&app), vec![(Section::Staged, false), (Section::Changes, false)]);
    app.cursor = 1;
    app.activate_selection(true);
    assert_eq!(dirs(&app), vec![(Section::Staged, true), (Section::Changes, false)]);
    app.apply_refresh(entries());
    assert_eq!(dirs(&app), vec![(Section::Staged, true), (Section::Changes, false)]);
}

#[test]
fn the_footer_offers_what_works() {
    let hints = Hints {
        keys: vec![
            (Action::Stage, "s".to_string()),
            (Action::Discard, "x".to_string()),
            (Action::Commit, "c".to_string()),
        ],
    };
    let footer = |app: &App| flat(&ui::footer(app, &hints, 0));
    let mut app = app_with(vec![modified("a.rs")]);
    assert!(footer(&app).contains("stage") && footer(&app).contains("discard"));
    app.apply_refresh(vec![entry("c.rs", ChangeKind::Conflicted, StageState::NA, 0, 0)]);
    assert!(!footer(&app).contains("x discard"), "{}", footer(&app));
}
