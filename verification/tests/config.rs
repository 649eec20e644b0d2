//! The configuration's defaults and limits.
use gitview::config::{Config, ListSide};
use gitview::git::Scope;
use gitview::style::Theme;

#[test]
fn every_key_has_a_default() {
    let cfg = Config::default();
    assert_eq!(cfg.list_side, ListSide::Right);
    assert_eq!(cfg.editor, vec!["nvim".to_string()]);
    assert_eq!(cfg.poll_ms, 2000);
    assert!(cfg.show_untracked);
    assert!(cfg.base.is_empty());
    assert_eq!(cfg.theme, Theme::Dark);
    assert_eq!(cfg.default_scope, Scope::Worktree);
    assert_eq!(cfg.context_lines, 3);
}

#[test]
fn numbers_are_kept_in_range() {
    let settled = |poll_ms, context_lines| {
        let c = Config { poll_ms, context_lines, ..Config::default() }.settle();
        (c.poll_ms, c.context_lines)
    };
    assert_eq!(settled(0, 0), (0, 0)); // polling off, no context
    assert_eq!(settled(1, 21), (250, 20));
    assert_eq!(settled(249, 20), (250, 20));
    assert_eq!(settled(250, 3), (250, 3));
}
