//! The preview pane: what it holds after messages and keys, and what it draws.
use gitview::annotate::Agent;
use gitview::config::Config;
use gitview::git::{ChangeKind, Scope};
use gitview::input::{Action, Hints, Key, KeyCode, MouseKind};
use gitview::ipc::{ToList, ToPreview};
use gitview::preview::app::{PreviewApp, ShowReq, State};
use gitview::preview::driver::{
    after_suspend, delivered, git_editor, has_core_editor, on_event, send_text_args, submit_args,
    suspend_failed, Command, Driver, Event,
};
use gitview::preview::highlight::Highlighter;
use gitview::preview::render::{build, DiffDoc};
use gitview::preview::session::{
    deliver_notes, editor_argv, fetch_contents, git_in_pane, needs_merge_base, Source,
};
use gitview::preview::ui;
use gitview::repo::{Output, Repo};
use gitview::style::{Color, Line, Style, Theme};

const W: u16 = 60;
const H: u16 = 12;

fn app() -> PreviewApp {
    PreviewApp::new(Config::default(), Repo { root: ".".to_string() })
}

fn req(file: &str) -> ShowReq {
    ShowReq {
        file: file.to_string(),
        orig_path: None,
        scope: Scope::Worktree,
        cached: false,
        kind: ChangeKind::Modified,
        commit: None,
    }
}

/// A built diff doc with `n` inserted lines (plain-text path → no syntax
/// highlighting cost, even at 20k lines).
fn fake_diff(n: usize) -> DiffDoc {
    let hl = Highlighter::new(Theme::Dark);
    let new: String = (0..n).map(|i| format!("line {i}\n")).collect();
    build("f.txt", "", &new, &hl, Theme::Dark, 3)
}

/// A built doc for identical content (the "no changes" case).
fn empty_diff() -> DiffDoc {
    let hl = Highlighter::new(Theme::Dark);
    build("f.txt", "same\n", "same\n", &hl, Theme::Dark, 3)
}

/// The rows of the pane, from the header down to the footer.
struct Screen {
    rows: Vec<Line>,
}

fn plain(text: String) -> Line {
    Line { spans: vec![gitview::style::Span { text, style: Style::new() }], style: Style::new() }
}

fn draw(app: &mut PreviewApp) -> Screen {
    app.set_viewport(W, H - 2);
    let mut rows = vec![ui::header(app, W as usize)];
    match ui::body(app) {
        ui::Body::Message(text) => rows.push(plain(text)),
        ui::Body::Notice(line) => rows.push(line),
        ui::Body::Document => rows.extend(
            app.doc.iter().skip(app.scroll as usize).take(H as usize - 2).map(|l| l.clone()),
        ),
    }
    while rows.len() < H as usize - 1 {
        rows.push(plain(String::new()));
    }
    rows.push(ui::footer(app, &Hints { keys: Vec::new() }, 0));
    Screen { rows }
}

fn row(buf: &Screen, y: u16) -> String {
    buf.rows[y as usize].spans.iter().map(|s| s.text.as_str()).collect()
}

#[test]
fn splash_before_any_diff() {
    let mut a = app();
    let buf = draw(&mut a);
    let body: String = (1..H - 1).map(|y| row(&buf, y)).collect();
    assert!(body.contains("waiting for file list"), "body: {body:?}");
}

#[test]
fn shows_diff_and_header_path() {
    let mut a = app();
    let r = req("src/main.rs");
    a.begin_show(r.clone());
    a.apply_diff(&r, Ok(fake_diff(5)));

    let buf = draw(&mut a);
    let header = row(&buf, 0);
    assert!(header.contains("src/main.rs"), "header: {header:?}");
    assert!(header.contains("worktree"), "header: {header:?}");

    let body: String = (1..H - 1).map(|y| row(&buf, y)).collect();
    assert!(body.contains("line 0"), "body: {body:?}");
}

#[test]
fn stale_diff_result_is_dropped() {
    let mut a = app();
    let first = req("a.rs");
    a.begin_show(first.clone());
    // Selection moves on before the first diff returns.
    let second = req("b.rs");
    a.begin_show(second.clone());
    // Late result for the old request must be ignored.
    a.apply_diff(&first, Ok(fake_diff(3)));
    assert!(matches!(a.state, State::Splash(_) | State::Empty));

    // The current request's result is accepted.
    a.apply_diff(&second, Ok(fake_diff(3)));
    assert!(matches!(a.state, State::Diff));
}

#[test]
fn empty_diff_shows_no_changes() {
    let mut a = app();
    let r = req("x.rs");
    a.begin_show(r.clone());
    a.apply_diff(&r, Ok(empty_diff()));
    assert!(matches!(a.state, State::Empty));

    let buf = draw(&mut a);
    let body: String = (1..H - 1).map(|y| row(&buf, y)).collect();
    assert!(body.contains("no changes"), "body: {body:?}");
}

#[test]
fn diff_error_shows_message() {
    let mut a = app();
    let r = req("x.rs");
    a.begin_show(r.clone());
    a.apply_diff(&r, Err("fatal: bad revision".to_string()));

    let buf = draw(&mut a);
    let body: String = (0..H).map(|y| row(&buf, y)).collect();
    assert!(body.contains("bad revision"), "body: {body:?}");
}

#[test]
fn scroll_is_clamped_and_bottom_jumps() {
    let mut a = app();
    let r = req("x.rs");
    a.begin_show(r.clone());
    a.apply_diff(&r, Ok(fake_diff(30)));
    // Render once so the app learns its viewport height.
    draw(&mut a);

    a.scroll_by(-5); // can't go above the top
    assert_eq!(a.scroll, 0);

    a.scroll_by(i32::MAX); // jump to bottom
    let bottom = a.scroll;
    assert!(bottom > 0, "expected a scrollable diff");

    a.scroll_by(1000); // clamped at bottom
    assert_eq!(a.scroll, bottom);

    a.scroll_by(i32::MIN); // home
    assert_eq!(a.scroll, 0);
}

#[test]
fn truncation_notice_when_capped() {
    let mut a = app();
    let r = req("big.rs");
    a.begin_show(r.clone());
    // 20_001 content lines → over the 20k cap.
    a.apply_diff(&r, Ok(fake_diff(20_001)));
    a.scroll_by(i32::MAX);

    let buf = draw(&mut a);
    let body: String = (0..H).map(|y| row(&buf, y)).collect();
    assert!(body.contains("diff truncated"), "body: {body:?}");
}

// ---- "where am I": the cursor line ----------------------------------------

/// The background color of the first cell of body row `y`.
fn bg_at(buf: &Screen, y: u16) -> Option<Color> {
    let line = &buf.rows[y as usize];
    match line.spans.first() {
        Some(span) if span.style.bg.is_some() => span.style.bg,
        _ => line.style.bg,
    }
}

/// The body row the cursor is tinted on, found by the odd-one-out background.
fn cursor_row(buf: &Screen) -> Option<u16> {
    let rows: Vec<(u16, Option<Color>)> = (1..H - 1).map(|y| (y, bg_at(buf, y))).collect();
    // The cursor tint is whichever background appears exactly once.
    rows.iter()
        .find(|(_, c)| rows.iter().filter(|(_, o)| o == c).count() == 1)
        .map(|(y, _)| *y)
}

#[test]
fn the_cursor_line_is_visibly_tinted() {
    let mut a = app();
    let r = req("x.rs");
    a.begin_show(r.clone());
    a.apply_diff(&r, Ok(fake_diff(30)));
    let buf = draw(&mut a);

    assert_eq!(cursor_row(&buf), Some(1), "cursor starts on the first line");
    // and it is a real tint, not the default background
    assert_ne!(bg_at(&buf, 1), None);
    assert_ne!(bg_at(&buf, 1), bg_at(&buf, 2), "cursor row must stand out");
}

#[test]
fn the_cursor_stays_on_screen_when_the_diff_is_scrolled() {
    let mut a = app();
    let r = req("x.rs");
    a.begin_show(r.clone());
    a.apply_diff(&r, Ok(fake_diff(60)));
    draw(&mut a); // learn the viewport height

    // Scrolling from the list pane (ctrl+d / wheel) used to leave the cursor
    // behind, so the diff pane showed no cursor at all.
    a.scroll_by(20);
    assert!(
        a.cursor_line >= a.scroll as usize,
        "cursor above the viewport"
    );
    assert!(
        a.cursor_line < a.scroll as usize + a.viewport_h as usize,
        "cursor below the viewport"
    );
    let buf = draw(&mut a);
    assert!(
        cursor_row(&buf).is_some(),
        "no cursor visible after scrolling"
    );

    // ...including a jump to the very bottom, and back to the top.
    a.scroll_by(i32::MAX);
    assert!(a.cursor_line >= a.scroll as usize);
    assert!(!draw(&mut a).rows.is_empty() && cursor_row(&draw(&mut a)).is_some());

    a.scroll_by(i32::MIN);
    assert!(a.cursor_line < a.viewport_h as usize);
    assert!(cursor_row(&draw(&mut a)).is_some());
}

#[test]
fn scrolling_does_not_drag_the_cursor_through_a_live_selection() {
    let mut a = app();
    let r = req("x.rs");
    a.begin_show(r.clone());
    a.apply_diff(&r, Ok(fake_diff(60)));
    draw(&mut a);

    a.on_key(Key::plain(KeyCode::Char('v')), Some(Action::Select));
    let anchored = a.cursor_line;
    a.scroll_by(30);
    assert_eq!(
        a.cursor_line, anchored,
        "scrolling must not silently extend the selection"
    );
}

#[test]
fn the_header_reports_the_cursor_line_not_the_scroll_offset() {
    let mut a = app();
    let r = req("x.rs");
    a.begin_show(r.clone());
    a.apply_diff(&r, Ok(fake_diff(40)));
    draw(&mut a);

    let header = row(&draw(&mut a), 0);
    assert!(header.contains("ln 1"), "header: {header:?}");

    // Move the cursor down a few lines; the header follows it.
    for _ in 0..5 {
        a.on_key(Key::plain(KeyCode::Char('j')), Some(Action::Down));
    }
    let header = row(&draw(&mut a), 0);
    assert!(header.contains("ln 6"), "header: {header:?}");
    assert_eq!(a.cursor_file_line(), Some(6));
}

// ---- notes -----------------------------------------------------------------

fn note_text(a: &mut PreviewApp, text: &str) {
    for c in text.chars() {
        a.on_key(Key::plain(KeyCode::Char(c)), None);
    }
}

fn showing(file: &str, lines: usize) -> PreviewApp {
    let mut a = app();
    let r = req(file);
    a.begin_show(r.clone());
    a.apply_diff(&r, Ok(fake_diff(lines)));
    draw(&mut a);
    a
}

#[test]
fn a_note_is_written_under_its_line() {
    let mut a = showing("x.rs", 10);
    let plain = a.doc.len();
    a.on_key(Key::plain(KeyCode::Char('j')), Some(Action::Down));
    a.on_key(Key::plain(KeyCode::Char('v')), Some(Action::Select));
    a.on_key(Key::plain(KeyCode::Char('a')), Some(Action::Annotate));
    assert!(a.composer.is_some());
    note_text(&mut a, "why q?"); // keys are text while the composer is open
    a.on_key(Key::plain(KeyCode::Enter), None);
    assert!(a.composer.is_none());
    assert_eq!(a.notes.len(), 1);
    assert_eq!((a.notes[0].start, a.notes[0].end), (2, 2));
    assert_eq!(a.notes[0].text, "why q?");
    assert!(a.doc.len() > plain, "the card is in the document");
    let number = &a.doc[1].spans[0];
    assert!(number.text.contains('2'), "the number comes first: {number:?}");
    assert_eq!(number.style.fg, Some(Color::Yellow), "and is accented");
    // A cursor move skips the card.
    for _ in 0..20 {
        a.on_key(Key::plain(KeyCode::Char('j')), Some(Action::Down));
        assert!(a.doc_to_built(a.cursor_line).is_some());
    }
    assert_eq!(a.cursor_file_line(), Some(10));
}

#[test]
fn without_a_selection_a_note_covers_the_whole_file() {
    let mut a = showing("x.rs", 10);
    a.on_key(Key::plain(KeyCode::Char('j')), Some(Action::Down));
    assert_eq!(a.select_anchor, None);
    a.on_key(Key::plain(KeyCode::Char('a')), Some(Action::Annotate));
    let note = a.pending_note.as_ref().unwrap();
    assert_eq!((note.file.as_str(), note.start, note.end), ("x.rs", 0, 0));
    assert!(note.snippet.is_empty() && !note.cached);
    note_text(&mut a, "all");
    a.on_key(Key::plain(KeyCode::Enter), None);
    assert_eq!((a.notes[0].start, a.notes[0].end), (0, 0));
    assert_eq!(a.notes[0].text, "all");
}

#[test]
fn an_empty_or_cancelled_note_leaves_nothing() {
    let mut a = showing("x.rs", 5);
    let before = a.doc.len();
    a.on_key(Key::plain(KeyCode::Char('a')), Some(Action::Annotate));
    a.on_key(Key::plain(KeyCode::Enter), None);
    assert!(a.notes.is_empty() && a.composer.is_none());
    a.on_key(Key::plain(KeyCode::Char('a')), Some(Action::Annotate));
    note_text(&mut a, "text");
    a.on_key(Key::plain(KeyCode::Esc), None);
    assert!(a.notes.is_empty() && a.pending_note.is_none());
    assert_eq!(a.doc.len(), before);
}

#[test]
fn notes_are_edited_and_deleted_by_id() {
    let mut a = showing("x.rs", 5);
    a.add_file_note("x.rs".to_string(), "one".to_string(), false);
    a.add_file_note("y.rs".to_string(), "two".to_string(), true);
    let ids: Vec<u64> = a.notes.iter().map(|n| n.id).collect();
    assert_ne!(ids[0], ids[1]);
    a.edit_note(ids[1], "2".to_string());
    assert_eq!(a.notes[1].text, "2");
    a.delete_note(ids[0]);
    assert_eq!(a.notes.len(), 1);
    assert_eq!(a.notes[0].id, ids[1]);
    a.delete_note(999);
    assert_eq!(a.notes.len(), 1);
}

#[test]
fn unfolding_by_click_and_back_to_the_same_tint() {
    let mut a = app();
    let r = req("f.txt");
    a.begin_show(r.clone());
    let old: String = (0..40).map(|i| format!("line {i}\n")).collect();
    let new = old.replace("line 20", "LINE 20");
    let hl = Highlighter::new(Theme::Dark);
    a.apply_diff(&r, Ok(build("f.txt", &old, &new, &hl, Theme::Dark, 3)));
    draw(&mut a);
    let folded = a.doc.len();
    a.on_mouse(MouseKind::LeftDown, 1);
    assert_eq!(a.doc.len(), folded + 16);
    // Moving the cursor away restores the line exactly.
    let line = |a: &PreviewApp, i: usize| format!("{:?}", a.doc[i]);
    let away = line(&a, 3);
    for _ in 0..3 {
        a.on_key(Key::plain(KeyCode::Char('j')), Some(Action::Down));
    }
    assert_ne!(line(&a, 3), away);
    a.on_key(Key::plain(KeyCode::Char('j')), Some(Action::Down));
    assert_eq!(line(&a, 3), away);
}

#[test]
fn paging_moves_by_the_body() {
    let mut a = showing("x.rs", 60);
    a.page(true, true);
    assert_eq!(a.scroll, H - 2);
    a.page(true, false);
    assert_eq!(a.scroll, (H - 2) + (H - 2) / 2);
    a.page(false, true);
    a.page(false, true);
    assert_eq!(a.scroll, 0);
}

#[test]
fn a_flash_fades() {
    let mut a = app();
    a.now = 100;
    a.flash("hello");
    assert_eq!(a.active_flash(3099), Some("hello"));
    assert_eq!(a.active_flash(3100), None);
}

// ---- the event loop --------------------------------------------------------

#[test]
fn messages_make_commands() {
    let mut a = app();
    assert!(matches!(on_event(&mut a, Event::Connected), Command::Greet));
    assert!(matches!(a.state, State::Splash("no file selected")));
    let show = Event::Message(ToPreview::Show(req("x.rs")));
    assert!(matches!(on_event(&mut a, show), Command::Fetch(r) if r.file == "x.rs"));
    let late = Event::Diff { req: req("other.rs"), result: Ok(fake_diff(3)) };
    on_event(&mut a, late);
    assert!(!matches!(a.state, State::Diff));
    on_event(&mut a, Event::Diff { req: req("x.rs"), result: Ok(fake_diff(3)) });
    assert!(matches!(a.state, State::Diff));
    let edit = Event::Message(ToPreview::Edit { file: "x.rs".to_string() });
    assert!(matches!(on_event(&mut a, edit), Command::Edit { file } if file == "x.rs"));
    assert_eq!(after_suspend(&a).unwrap().file, "x.rs");
    let git = Event::Message(ToPreview::GitInPane { argv: vec!["commit".to_string()] });
    assert!(matches!(on_event(&mut a, git), Command::Git { argv } if argv == ["commit"]));
    suspend_failed(&mut a, "no such program\nat all");
    assert!(matches!(&a.state, State::Error(e) if e == "no such program"));
    on_event(&mut a, Event::Message(ToPreview::Clear));
    assert!(a.current.is_none());
    on_event(&mut a, Event::Closed);
    assert!(a.should_quit && !a.close_view);
}

#[test]
fn the_list_hears_of_notes_once() {
    let mut a = showing("x.rs", 3);
    let mut d = Driver::new();
    assert!(d.outgoing(&mut a).is_empty());
    a.add_file_note("x.rs".to_string(), "one".to_string(), false);
    a.on_key(Key::plain(KeyCode::Char('n')), Some(Action::NotesView));
    let sent = d.outgoing(&mut a);
    assert!(matches!(
        &sent[..],
        [ToList::ShowNotesView, ToList::Notes { notes }]
            if notes.len() == 1 && notes[0].text == "one" && notes[0].end == 0
    ));
    assert!(d.outgoing(&mut a).is_empty());
    a.on_key(Key::plain(KeyCode::Enter), Some(Action::Edit));
    assert!(matches!(&d.outgoing(&mut a)[..], [ToList::EditSelection]));
}

#[test]
fn notes_go_to_the_chosen_agent() {
    let mut a = showing("x.rs", 3);
    let mut d = Driver::new();
    on_event(&mut a, Event::Message(ToPreview::SendNotes));
    assert_eq!(a.active_flash(0), Some("no notes yet"));
    a.add_file_note("x.rs".to_string(), "one".to_string(), false);
    on_event(&mut a, Event::Message(ToPreview::SendNotes));
    assert!(d.wants_picker(&mut a));
    assert!(!d.wants_picker(&mut a));
    assert!(d.picker(&mut a, &Vec::new()).is_none());
    assert_eq!(a.active_flash(0), Some("no agent panes in this workspace"));
    let agents = vec![Agent {
        pane: "p1".to_string(),
        agent: "alpha".to_string(),
        status: "idle".to_string(),
        tab: String::new(),
        cwd: String::new(),
    }];
    let picker = d.picker(&mut a, &agents).unwrap();
    assert_eq!(picker.agents, r#"[["p1","alpha","idle","",""]]"#);
    assert_eq!(picker.title, "send 1 note(s) to…");
    assert_eq!((picker.width, picker.height), (74, 7));
    d.picker_opened(&mut a, true);
    assert!(d.answered(&a, "cancel").is_none());
    let (pane, text, submit) = d.answered(&a, "p1\tsubmit").unwrap();
    assert_eq!((pane.as_str(), submit), ("p1", true));
    assert_eq!(text, "x.rs — one\n");
    delivered(&mut a, Err("pane gone".to_string()));
    assert_eq!(a.notes.len(), 1, "what was not sent stays");
    assert_eq!(a.active_flash(0), Some("send failed: pane gone"));
    delivered(&mut a, Ok("alpha".to_string()));
    assert!(a.notes.is_empty());
    assert_eq!(a.active_flash(0), Some("notes sent to alpha"));
    assert_eq!(send_text_args("p1", "t"), ["pane", "send-text", "p1", "t"]);
    assert_eq!(submit_args("p1"), ["pane", "send-keys", "p1", "enter"]);
}

#[test]
fn a_note_carries_the_lines_it_is_about() {
    let mut a = showing("x.rs", 10);
    a.on_key(Key::plain(KeyCode::Char('v')), Some(Action::Select));
    a.on_key(Key::plain(KeyCode::Char('j')), Some(Action::Down));
    assert_eq!(a.selection(), (0, 1));
    a.on_key(Key::plain(KeyCode::Char('a')), Some(Action::Annotate));
    note_text(&mut a, "both");
    a.on_key(Key::plain(KeyCode::Enter), None);
    assert_eq!((a.notes[0].start, a.notes[0].end), (1, 2));
    assert_eq!(
        deliver_notes(&a.notes),
        "x.rs:1-2 — both\n```diff\n+line 0\n+line 1\n```\n"
    );
}

#[test]
fn what_the_editor_is_started_with() {
    let a = showing("x.rs", 3);
    assert_eq!(
        editor_argv(&a, "x.rs", &Some("/v.nvim".to_string())),
        ["nvim", "--listen", "/v.nvim", "+1", "./x.rs"]
    );
    assert_eq!(editor_argv(&a, "y.rs", &None), ["nvim", "./y.rs"]);
    assert_eq!(git_in_pane("/r", &vec!["commit".to_string()]), ["git", "-C", "/r", "commit"]);
    assert_eq!(git_editor(&a.cfg, false, false).as_deref(), Some("nvim"));
    assert_eq!(git_editor(&a.cfg, true, false), None);
    assert_eq!(git_editor(&a.cfg, false, true), None);
    let out = |code, text: &str| {
        Some(Output { code: Some(code), stdout: text.into(), stderr: Vec::new() })
    };
    assert!(has_core_editor(&out(0, "vim\n")));
    assert!(!has_core_editor(&out(1, "")) && !has_core_editor(&out(0, "")) && !has_core_editor(&None));
}

#[test]
fn which_contents_are_compared() {
    let rev = |s: &Source| match s {
        Source::Revision { rev, path } => format!("{rev}:{path}"),
        Source::Worktree { path } => path.clone(),
    };
    let both = |r: &ShowReq, mb: &str| {
        let (old, new) = fetch_contents(r, mb);
        (rev(&old), rev(&new))
    };
    let mut r = req("new.rs");
    assert_eq!(both(&r, ""), (":0:new.rs".to_string(), "new.rs".to_string()));
    r.cached = true;
    r.orig_path = Some("old.rs".to_string());
    assert_eq!(both(&r, ""), ("HEAD:old.rs".to_string(), ":0:new.rs".to_string()));
    r.scope = Scope::Branch;
    assert!(needs_merge_base(&r));
    assert_eq!(both(&r, "mb"), ("mb:old.rs".to_string(), "new.rs".to_string()));
    r.commit = Some("abc".to_string());
    assert!(!needs_merge_base(&r));
    assert_eq!(both(&r, ""), ("abc^:old.rs".to_string(), "abc:new.rs".to_string()));
}

#[test]
fn a_card_fits_the_pane() {
    let mut a = showing("x.rs", 6);
    let plain = a.doc.len();
    a.add_file_note("x.rs".to_string(), "a rather long remark ".repeat(9), false);
    let width = |l: &Line| {
        l.spans.iter().map(|s| unicode_width::UnicodeWidthStr::width(s.text.as_str())).sum::<usize>()
    };
    let cards: Vec<&Line> =
        (0..a.doc.len()).filter(|i| a.doc_to_built(*i).is_none()).map(|i| &a.doc[i]).collect();
    assert_eq!(a.doc.len(), plain + cards.len());
    assert!(cards.len() > 3, "the text wraps");
    for line in cards {
        assert!(width(line) <= W as usize, "{line:?}");
    }
}

#[test]
fn history_takes_no_notes() {
    let mut a = app();
    let mut r = req("x.rs");
    r.commit = Some("abc".to_string());
    a.begin_show(r.clone());
    a.apply_diff(&r, Ok(fake_diff(5)));
    draw(&mut a);
    a.on_key(Key::plain(KeyCode::Char('a')), Some(Action::Annotate));
    assert!(a.composer.is_none() && a.notes.is_empty());
    assert_eq!(a.active_flash(0), Some("notes work on staged/unstaged changes only"));
}

#[test]
fn a_note_is_begun_for_the_shown_file_only() {
    let mut a = showing("x.rs", 5);
    assert!(!a.begin_file_note("other.rs".to_string(), false));
    assert!(a.begin_file_note("x.rs".to_string(), false));
    note_text(&mut a, "all of it");
    a.on_key(Key::plain(KeyCode::Enter), None);
    assert_eq!((a.notes[0].start, a.notes[0].end), (0, 0));
    let id = a.notes[0].id;
    assert!(!a.begin_edit_note(id + 1));
    assert!(a.begin_edit_note(id));
    note_text(&mut a, "!");
    a.on_key(Key::plain(KeyCode::Enter), None);
    assert_eq!(a.notes.len(), 1);
    assert_eq!(a.notes[0].text, "all of it!");
}

#[test]
fn focusing_a_note_scrolls_to_its_card() {
    let mut a = showing("x.rs", 60);
    for _ in 0..40 {
        a.on_key(Key::plain(KeyCode::Char('j')), Some(Action::Down));
    }
    a.on_key(Key::plain(KeyCode::Char('v')), Some(Action::Select));
    a.on_key(Key::plain(KeyCode::Char('a')), Some(Action::Annotate));
    note_text(&mut a, "here");
    a.on_key(Key::plain(KeyCode::Enter), None);
    let id = a.notes[0].id;
    a.scroll_by(i32::MIN);
    assert_eq!(a.scroll, 0);
    a.focus_note(id);
    assert!(a.scroll > 0);
    let buf = draw(&mut a);
    assert!((1..H - 1).any(|y| row(&buf, y).contains("here")));
}
