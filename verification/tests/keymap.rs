//! The keys that actions are bound to.
use gitview::input::{Action, Key, KeyCode};
use gitview::keymap::{parse_key, Binding, Keymap, KeymapError};

fn table(lines: &[(&str, &str)]) -> Vec<(String, String)> {
    lines.iter().map(|(a, k)| (a.to_string(), k.to_string())).collect()
}

fn key(spec: &str) -> Key {
    let b = parse_key(spec).unwrap();
    Key { ctrl: b.ctrl, alt: b.alt, shift: b.shift, ..Key::plain(b.code) }
}

#[test]
fn the_default_keymap_is_valid() {
    let keys = Keymap::build(&Vec::new()).unwrap();
    assert_eq!(keys.action(key("s")), Some(Action::Stage));
    assert_eq!(keys.action(key("enter")), Some(Action::Edit));
    assert_eq!(keys.action(key("ctrl+d")), Some(Action::HalfPageDown));
    assert_eq!(keys.action(key("d")), Some(Action::Delete));
    assert_eq!(keys.action(key("z")), None);
    // Every bound key does what its line says.
    for (action, b, text) in &keys.keys {
        assert_eq!(keys.action(key(text)), Some(*action), "{text}");
        assert_eq!(parse_key(text), Some(*b));
    }
    assert_eq!(keys.hints().hint(Action::Down), "j");
    assert_eq!(keys.hints().hint(Action::ToggleCached), "");
}

#[test]
fn keys_are_written_with_modifiers_in_front() {
    let b = |code, ctrl, alt, shift| Some(Binding { code, ctrl, alt, shift });
    assert_eq!(parse_key("x"), b(KeyCode::Char('x'), false, false, false));
    assert_eq!(parse_key("space"), b(KeyCode::Char(' '), false, false, false));
    assert_eq!(parse_key("ctrl+x"), b(KeyCode::Char('x'), true, false, false));
    assert_eq!(parse_key("ctrl++"), b(KeyCode::Char('+'), true, false, false));
    assert_eq!(parse_key("ctrl+alt+shift+up"), b(KeyCode::Up, true, true, true));
    assert_eq!(parse_key("pgdn"), b(KeyCode::PageDown, false, false, false));
    assert_eq!(parse_key("alt+esc"), b(KeyCode::Esc, false, true, false));
    assert_eq!(parse_key(""), None);
    assert_eq!(parse_key("f13"), None);
    assert_eq!(parse_key("hyper+x"), None);
}

#[test]
fn a_capital_letter_needs_no_shift() {
    let keys = Keymap::build(&Vec::new()).unwrap();
    let capital = Key { shift: true, ..Key::plain(KeyCode::Char('G')) };
    assert_eq!(keys.action(capital), Some(Action::Bottom));
    assert_eq!(keys.action(Key::plain(KeyCode::Char('G'))), Some(Action::Bottom));
}

#[test]
fn a_line_replaces_all_default_keys_of_its_action() {
    let keys = Keymap::build(&table(&[("stage", "space"), ("down", "ctrl+n")])).unwrap();
    assert_eq!(keys.action(key("space")), Some(Action::Stage));
    assert_eq!(keys.action(key("s")), None);
    assert_eq!(keys.action(key("ctrl+n")), Some(Action::Down));
    assert_eq!(keys.action(key("j")), None);
    assert_eq!(keys.action(key("down")), None);
    assert_eq!(keys.action(key("x")), Some(Action::Discard));
    assert_eq!(keys.hints().hint(Action::Stage), "space");
}

#[test]
fn a_bad_table_is_refused() {
    let said = |lines: &[(&str, &str)]| Keymap::build(&table(lines)).unwrap_err().message();
    assert!(matches!(
        Keymap::build(&table(&[("stage", "x")])),
        Err(KeymapError::Taken(k)) if k == "x"
    ));
    assert_eq!(said(&[("stage", "x")]), "keybindings ignored: x is bound twice");
    assert_eq!(said(&[("stagee", "x")]), "keybindings ignored: unknown action stagee");
    assert_eq!(said(&[("stage", "xx")]), "keybindings ignored: bad key xx");
    // Trading two keys is fine.
    assert!(Keymap::build(&table(&[("stage", "x"), ("discard", "s")])).is_ok());
}
