//! The note popup and the agent picker.
use gitview::annotate::{
    agent_row, color_for_status, decode_prefill, encode_prefill, header_line, note_key, note_rows,
    picker_click, picker_key, render_row, scroll_window, Agent, HINT, NOTE_POPUP_SIZE,
};
use gitview::input::{Key, KeyCode, KeyKind};
use gitview::style::{Color, Line};
use gitview::textarea::TextArea;
use unicode_width::UnicodeWidthStr;

/// The plain text of a rendered line, for assertions.
fn flat(line: &Line) -> String {
    line.spans.iter().map(|s| s.text.as_str()).collect()
}

#[test]
fn the_hint_advertises_both_newline_keys() {
    assert!(HINT.contains("shift+enter"), "{HINT}");
    assert!(HINT.contains("ctrl+j"), "{HINT}");
    assert!(HINT.contains("enter save"), "{HINT}");
}

#[test]
fn the_header_reports_the_length_and_scroll_state() {
    let empty = TextArea::new(String::new());
    assert_eq!(
        flat(&header_line("note", &empty, false, false, 40)).trim(),
        "note"
    );
    let a = TextArea::new("abc".into());
    assert!(flat(&header_line("note", &a, false, false, 40)).contains("3 chars"));
    assert!(flat(&header_line("note", &a, true, false, 40)).contains("↑"));
    assert!(flat(&header_line("note", &a, false, true, 40)).contains("↓"));
    assert!(flat(&header_line("note", &a, true, true, 40)).contains("↑↓"));
}

#[test]
fn the_header_fits_its_width_even_with_a_long_anchor() {
    let a = TextArea::new("x".repeat(500));
    for width in [12u16, 20, 40, 72] {
        let line = header_line(
            "note for src/preview/render/very/deep/path/module.rs",
            &a,
            true,
            true,
            width,
        );
        assert!(
            flat(&line).width() <= width as usize,
            "width {width}: {:?}",
            flat(&line)
        );
    }
}

#[test]
fn prefill_survives_newlines_and_backslashes() {
    for original in [
        "one line",
        "two\nlines",
        "trailing\n",
        "\n\nblank lines\n\n",
        r"a windows\path and a \n literal",
        "",
    ] {
        let encoded = encode_prefill(original);
        assert!(
            !encoded.contains('\n'),
            "{encoded:?} still has a raw newline"
        );
        assert_eq!(
            decode_prefill(&encoded),
            original,
            "round trip {original:?}"
        );
    }
}

#[test]
fn decoding_a_stray_trailing_backslash_does_not_panic() {
    assert_eq!(decode_prefill(r"ends with \"), r"ends with \");
    assert_eq!(decode_prefill(r"\q unknown escape"), r"\q unknown escape");
}

#[test]
fn the_caret_row_renders_the_character_under_the_caret() {
    let mut input = TextArea::new("abc".into());
    input.move_left(); // caret on 'c'
    let rows = input.layout(10);
    let line = render_row(&input, &rows[0], true);
    // " ab" + reversed "c" + ""
    assert_eq!(line.spans.len(), 3);
    assert_eq!(line.spans[0].text, " ab");
    assert_eq!(line.spans[1].text, "c");
    assert!(line.spans[1].style.reversed);
}

#[test]
fn the_caret_at_the_end_renders_as_a_reversed_space() {
    let input = TextArea::new("ab".into());
    let rows = input.layout(10);
    let line = render_row(&input, &rows[0], true);
    assert_eq!(line.spans[1].text, " ");
}

#[test]
fn a_row_without_the_caret_renders_plainly() {
    let input = TextArea::new("ab\ncd".into());
    let rows = input.layout(10);
    let line = render_row(&input, &rows[0], false);
    assert_eq!(line.spans.len(), 1);
    assert_eq!(line.spans[0].text, " ab");
}

#[test]
fn the_caret_is_always_in_the_window() {
    let mut input = TextArea::new("one\ntwo\nthree\nfour\nfive".into());
    let (lines, w) = note_rows(&input, 0, 20, 2);
    assert_eq!((w.top, w.end, w.above, w.below), (3, 5, true, false));
    assert_eq!(flat(&lines[0]), " four");
    assert_eq!(flat(&lines[1]), " five ");
    for _ in 0..4 {
        input.move_up(20);
    }
    let (lines, w) = note_rows(&input, w.top, 20, 2);
    assert_eq!((w.top, w.end, w.above, w.below), (0, 2, false, true));
    assert_eq!(lines[0].spans[1].text, " ");
    let w = scroll_window(1, 2, 3, 9);
    assert_eq!((w.top, w.end), (1, 4));
    assert_eq!(NOTE_POPUP_SIZE, (72, 14));
}

#[test]
fn only_a_plain_enter_saves() {
    let press = |code: KeyCode| Key::plain(code);
    let mut input = TextArea::new("note".into());
    let shifted = Key { shift: true, ..press(KeyCode::Enter) };
    assert_eq!(note_key(&mut input, shifted, 20), None);
    let ctrl_j = Key { ctrl: true, ..press(KeyCode::Char('j')) };
    assert_eq!(note_key(&mut input, ctrl_j, 20), None);
    assert_eq!(input.text(), "note\n\n");
    assert_eq!(note_key(&mut input, press(KeyCode::Char('!')), 20), None);
    let released = Key { kind: KeyKind::Release, ..press(KeyCode::Enter) };
    assert_eq!(note_key(&mut input, released, 20), None);
    assert_eq!(note_key(&mut input, press(KeyCode::Enter), 20).as_deref(), Some("note\n\n!"));
    assert_eq!(note_key(&mut input, press(KeyCode::Esc), 20).as_deref(), Some(""));
}

fn agent(pane: &str, status: &str) -> Agent {
    Agent {
        pane: pane.to_string(),
        agent: "alpha".to_string(),
        status: status.to_string(),
        tab: "main".to_string(),
        cwd: String::new(),
    }
}

#[test]
fn an_agent_is_chosen_by_key_or_click() {
    let agents = vec![agent("p1", "idle"), agent("p2", "working")];
    let down = Key::plain(KeyCode::Down);
    assert_eq!(picker_key(&agents, 0, down), (1, None));
    assert_eq!(picker_key(&agents, 1, down), (1, None));
    assert_eq!(picker_key(&agents, 1, Key::plain(KeyCode::Char('k'))), (0, None));
    let enter = Key::plain(KeyCode::Enter);
    assert_eq!(picker_key(&agents, 1, enter).1.as_deref(), Some("p2\tplace"));
    let send = Key { ctrl: true, ..enter };
    assert_eq!(picker_key(&agents, 0, send).1.as_deref(), Some("p1\tsubmit"));
    assert_eq!(picker_key(&agents, 0, Key::plain(KeyCode::Esc)).1.as_deref(), Some("cancel"));
    assert_eq!(picker_click(&agents, 0, 2), (1, None));
    assert_eq!(picker_click(&agents, 1, 2).1.as_deref(), Some("p2\tplace"));
    assert_eq!(picker_click(&agents, 0, 9), (0, None));
}

#[test]
fn an_agent_row_shows_what_is_known() {
    assert_eq!(flat(&agent_row(&agent("p1", "idle"))), "  alpha · idle  tab: main  p1");
    assert_eq!(color_for_status("idle"), Color::Green);
    assert_eq!(color_for_status("working"), Color::Yellow);
    assert_eq!(color_for_status("blocked"), Color::DarkGray);
}
