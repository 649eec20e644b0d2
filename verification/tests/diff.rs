//! Building the diff document.
use gitview::preview::emphasis::word_emphasis;
use gitview::preview::highlight::Highlighter;
use gitview::preview::render::{build, DiffDoc};
use gitview::style::{Line, Theme};

#[test]
fn rust_tokenizes_into_multiple_colored_runs() {
    let h = Highlighter::new(Theme::Dark);
    let lines = h.highlight("let x = 1;\n", Some("rs"));
    assert_eq!(lines.len(), 1);
    assert!(lines[0].len() > 1, "rust should split into several runs");
    let joined: String = lines[0].iter().map(|r| r.text.as_str()).collect();
    assert_eq!(joined, "let x = 1;");
}

#[test]
fn unknown_language_is_plain() {
    let h = Highlighter::new(Theme::Dark);
    let lines = h.highlight("alpha\nbeta\n", None);
    assert_eq!(lines.len(), 2);
    assert_eq!(lines[0].len(), 1);
    assert_eq!(lines[0][0].color, h.default_fg());
}

fn doc(old: &str, new: &str) -> DiffDoc {
    let hl = Highlighter::new(Theme::Dark);
    build("a.rs", old, new, &hl, Theme::Dark, 3)
}

#[test]
fn empty_when_content_equal() {
    let d = doc("same\n", "same\n");
    assert!(d.is_empty());
    assert!(!d.binary());
}

#[test]
fn a_document_is_empty_for_equal_texts_only() {
    for (old, new) in [("", ""), ("a", "a"), ("a\r\nb\rc", "a\r\nb\rc")] {
        assert!(doc(old, new).is_empty(), "{old:?}");
    }
    for (old, new) in [("a\n", "a"), ("a\r\n", "a\n"), ("", "\n"), ("a\nb\n", "b\na\n")] {
        assert!(!doc(old, new).is_empty(), "{old:?} {new:?}");
    }
    let long: String = (0..300).map(|i| format!("line {}\n", i % 7)).collect();
    assert!(doc(&long, &long).is_empty());
    assert!(!doc(&long, &long.replace("line 3\n", "")).is_empty());
}

#[test]
fn binary_detected_by_nul() {
    let d = doc("ok\n", "bin\0ary\n");
    assert!(d.binary());
}

#[test]
fn first_change_is_first_inserted_line() {
    let d = doc("a\nb\nc\n", "a\nb\nX\nc\n");
    assert_eq!(d.first_change(), Some(3));
}

#[test]
fn change_lines_carry_backgrounds_and_gutter_numbers() {
    let d = doc("alpha\nbeta\ngamma\n", "alpha\nBETA\ngamma\n");
    let flat: Vec<String> = d
        .text()
        .iter()
        .map(|l| l.spans.iter().map(|s| s.text.as_str()).collect())
        .collect();
    let del = flat.iter().find(|l| l.contains("beta")).unwrap();
    let ins = flat.iter().find(|l| l.contains("BETA")).unwrap();
    assert!(del.contains("- "), "deletion marker: {del:?}");
    assert!(ins.contains("+ "), "insertion marker: {ins:?}");
    assert!(del.trim_start().starts_with('2'), "old line no: {del:?}");
    // Deletion line has the red tint as line style.
    let del_line = d
        .text()
        .iter()
        .find(|l| l.spans.iter().any(|s| s.text.contains("beta")));
    assert!(del_line.unwrap().style.bg.is_some());
}

#[test]
fn long_context_folds() {
    let old: String = (0..40).map(|i| format!("line {i}\n")).collect();
    let new = old.replace("line 20", "LINE 20");
    let d = doc(&old, &new);
    let flat: String = d
        .text()
        .iter()
        .flat_map(|l| l.spans.iter().map(|s| s.text.as_str()))
        .collect();
    assert!(flat.contains("unchanged lines"), "should fold: {flat}");
}

#[test]
fn clicking_a_fold_expands_it() {
    let old: String = (0..40).map(|i| format!("line {i}\n")).collect();
    let new = old.replace("line 20", "LINE 20");
    let mut d = doc(&old, &new);
    let folded_len = d.text().len();
    // First rendered line is the leading fold.
    assert!(d.unfold_at(0), "line 0 should be a fold");
    assert!(d.text().len() > folded_len, "unfolding adds lines");
    // A content line is not a fold.
    assert!(!d.unfold_at(1));
}

#[test]
fn word_emphasis_marks_changed_words() {
    let (ratio, old_e, new_e) = word_emphasis("let x = foo(a);", "let x = bar(a);");
    assert!(ratio.is_similar());
    assert_eq!(old_e.len(), 1);
    assert_eq!(new_e.len(), 1);
    let seg = |text: &str, (a, b): (usize, usize)| -> String {
        text.chars()
            .skip(a)
            .take(b - a)
            .collect()
    };
    // similar tokenizes on whitespace, so the changed "word" is foo(a);
    assert!(seg("let x = foo(a);", old_e[0]).contains("foo"));
    assert!(seg("let x = bar(a);", new_e[0]).contains("bar"));
    // the shared prefix is never emphasized
    assert!(old_e[0].0 > 0);
}

#[test]
fn dissimilar_lines_get_no_emphasis() {
    let (ratio, _, _) = word_emphasis(
        "let start = scroll.min(len);",
        "return (row - inner.y) as usize;",
    );
    assert!(!ratio.is_similar());
}

fn flat(line: &Line) -> String {
    line.spans.iter().map(|s| s.text.as_str()).collect()
}

#[test]
fn folds_hide_context_only_and_give_it_all_back() {
    let old: String = (0..40).map(|i| format!("line {i}\n")).collect();
    let new = old.replace("line 20", "LINE 20");
    let mut d = doc(&old, &new);
    let shown: Vec<String> = d.text().iter().map(flat).collect();
    assert!(shown.iter().any(|l| l.contains("- line 20")));
    assert!(shown.iter().any(|l| l.contains("+ LINE 20")));
    // Two folds, three lines of context on either side, two changed lines.
    assert_eq!(shown.len(), 2 + 6 + 2);
    assert!(shown[0].contains("17 unchanged lines"), "{}", shown[0]);
    assert!(d.unfold_at(0));
    let last = d.text().len() - 1;
    assert!(d.unfold_at(last));
    assert_eq!(d.text().len(), 41);
    let lines: Vec<String> = d.text().iter().map(flat).collect();
    for i in 0..40 {
        assert!(lines.iter().any(|l| l.ends_with(&format!("line {i}"))), "line {i}");
    }
}

#[test]
fn every_line_has_its_numbers() {
    let d = doc("a\nb\nc\n", "a\nX\nc\n");
    assert_eq!(d.numbers_of_line(0), Some((Some(1), Some(1))));
    assert_eq!(d.numbers_of_line(1), Some((Some(2), None)));
    assert_eq!(d.numbers_of_line(2), Some((None, Some(2))));
    assert_eq!(d.numbers_of_line(3), Some((Some(3), Some(3))));
    assert_eq!(d.numbers_of_line(9), None);
    assert_eq!(d.line_for_new(2), Some(2));
    assert_eq!(d.line_for_new(7), None);
    assert_eq!(d.marker_text_of_line(1).as_deref(), Some("-b"));
    assert_eq!(d.marker_text_of_line(2).as_deref(), Some("+X"));
}

#[test]
fn emphasis_never_changes_the_text() {
    let d = doc("let x = foo(a);\n", "let x = bar(a);\n");
    let lines: Vec<String> = d.text().iter().map(flat).collect();
    assert!(lines[0].ends_with("let x = foo(a);"), "{}", lines[0]);
    assert!(lines[1].ends_with("let x = bar(a);"), "{}", lines[1]);
    // The changed word stands out from the rest of its line.
    let backgrounds: Vec<_> = d.text()[0].spans.iter().map(|s| s.style.bg).collect();
    assert!(backgrounds.iter().any(|b| b.is_some() && *b != d.text()[0].style.bg));
}

#[test]
fn the_similarity_threshold() {
    // Two of three words on either side agree, the space among them: not enough.
    let (ratio, _, _) = word_emphasis("same aaaaaa", "same bbbbbb");
    assert_eq!((ratio.matches, ratio.total), (2, 6));
    assert!(!ratio.is_similar());
    // Four of five are.
    let (ratio, _, _) = word_emphasis("the same aaaaaa", "the same bbbbbb");
    assert_eq!((ratio.matches, ratio.total), (4, 10));
    assert!(ratio.is_similar());
    let (ratio, old_e, new_e) = word_emphasis("equal", "equal");
    assert!(ratio.is_similar());
    assert!(old_e.is_empty() && new_e.is_empty());
}

#[test]
fn colors_cover_exactly_the_text() {
    let h = Highlighter::new(Theme::Light);
    let lines = h.highlight("fn main() {\n    let s = \"é\";\n}\n", Some("rs"));
    let joined: Vec<String> =
        lines.iter().map(|l| l.iter().map(|r| r.text.as_str()).collect()).collect();
    assert_eq!(joined, vec!["fn main() {", "    let s = \"é\";", "}"]);
    let colors: Vec<_> = lines[0].iter().map(|r| r.color).collect();
    assert!(colors.iter().any(|c| *c != colors[0]), "{colors:?}");
}
