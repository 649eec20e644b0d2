//! The text area: wrapping, the caret and editing.
use gitview::textarea::{elide_tail, wrap_plain, TextArea};
use unicode_width::UnicodeWidthStr;


fn area(text: &str) -> TextArea {
    TextArea::new(text.to_string())
}

/// The rows as strings, for readable assertions.
fn rows_of(a: &TextArea, width: usize) -> Vec<String> {
    a.layout(width)
        .into_iter()
        .map(|r| a.text()[r].to_string())
        .collect()
}

// ---- layout -----------------------------------------------------------

#[test]
fn elide_tail_marks_a_cut_and_fits_the_width() {
    assert_eq!(elide_tail("short", 10), "short");
    assert_eq!(elide_tail("truncate me", 6), "trunc…");
    assert_eq!(elide_tail("x", 0), "");
    for max in 1..12 {
        assert!(elide_tail("a longer string here", max).width() <= max);
    }
}

#[test]
fn wrap_plain_splits_and_trims() {
    assert_eq!(
        wrap_plain("the quick brown fox", 10),
        vec!["the quick", "brown fox"]
    );
    assert_eq!(wrap_plain("", 10), vec![""]);
}

#[test]
fn empty_text_is_one_empty_row() {
    assert_eq!(rows_of(&area(""), 10), vec![""]);
}

#[test]
fn hard_newlines_split_rows_and_keep_empty_lines() {
    assert_eq!(rows_of(&area("a\n\nb"), 10), vec!["a", "", "b"]);
}

#[test]
fn wraps_on_word_boundaries() {
    assert_eq!(
        rows_of(&area("the quick brown fox"), 10),
        vec!["the quick ", "brown fox"]
    );
}

#[test]
fn hard_breaks_a_word_longer_than_the_width() {
    assert_eq!(
        rows_of(&area("src/preview/render.rs"), 8),
        vec!["src/prev", "iew/rend", "er.rs"]
    );
}

#[test]
fn no_row_content_exceeds_the_width() {
    let text = "note about src/list/session.rs and a-very-long-hyphenated-name\n\
                plus a second paragraph that also needs wrapping";
    for width in [3, 5, 9, 16, 24, 40] {
        let a = area(text);
        for row in rows_of(&a, width) {
            // Trailing spaces may sit at the edge; the content does not.
            assert!(
                row.trim_end().width() <= width,
                "width {width}: {row:?} is {} cols",
                row.trim_end().width()
            );
        }
    }
}

#[test]
fn rows_cover_the_text_apart_from_newlines() {
    let a = area("hello there\nsecond line here");
    let rows = a.layout(7);
    let mut rebuilt = String::new();
    for (i, r) in rows.iter().enumerate() {
        if i > 0 && r.start > rows[i - 1].end {
            rebuilt.push('\n'); // the gap is exactly the newline byte
        }
        rebuilt.push_str(&a.text()[r.clone()]);
    }
    assert_eq!(rebuilt, a.text());
}

// ---- caret ------------------------------------------------------------

#[test]
fn a_new_area_puts_the_caret_at_the_end() {
    let a = area("hello");
    assert_eq!(a.caret(), 5);
    assert_eq!(a.caret_pos(10), (0, 5));
}

#[test]
fn the_caret_is_visible_however_long_the_text_gets() {
    // The regression: the input used to be clipped, so past the last
    // visible row the caret was drawn off the bottom edge.
    let (width, height) = (20, 4);
    let mut a = area("");
    for _ in 0..400 {
        a.insert('x');
        let rows = a.layout(width);
        let (row, col) = a.caret_pos(width);
        let scroll = rows.len().saturating_sub(height);
        assert!(row >= scroll, "caret row {row} scrolled off the top");
        assert!(row < scroll + height, "caret row {row} below the window");
        assert!(col <= width, "caret column {col} past the edge");
    }
}

#[test]
fn the_caret_moves_to_the_next_row_at_a_soft_wrap() {
    let mut a = area("abcde fgh");
    a.move_home(5); // row 1 ("fgh") starts at byte 6
    assert_eq!(a.caret(), 6);
    a.move_left(); // onto the space, which lives at the end of row 0
    assert_eq!(a.caret_pos(5), (0, 5));
}

#[test]
fn the_caret_stays_on_the_line_at_a_hard_newline() {
    let mut a = area("ab\ncd");
    a.move_up(10);
    a.move_end(10);
    assert_eq!(a.caret(), 2, "end of the first line, before the newline");
    assert_eq!(a.caret_pos(10), (0, 2));
}

#[test]
fn up_and_down_keep_the_column() {
    let mut a = area("hello\nworld");
    a.move_home(10);
    a.move_right();
    a.move_right(); // column 2 of "world"
    assert_eq!(a.caret_pos(10), (1, 2));
    a.move_up(10);
    assert_eq!(a.caret_pos(10), (0, 2));
    a.move_down(10);
    assert_eq!(a.caret_pos(10), (1, 2));
}

#[test]
fn up_and_down_clamp_to_a_shorter_line() {
    let mut a = area("ab\nlonger line");
    assert_eq!(a.caret_pos(20).0, 1);
    a.move_up(20);
    assert_eq!(
        a.caret_pos(20),
        (0, 2),
        "clamped to the end of a short line"
    );
}

#[test]
fn a_row_wraps_only_where_the_next_word_does_not_fit() {
    let texts = ["one two three four", "abcdefgh ij", "a bb ccc dddd eeeee", "日本語 text ok"];
    for text in texts {
        for width in 2..12 {
            let rows = area(text).layout(width);
            for pair in rows.windows(2) {
                let (row, next) = (pair[0].clone(), pair[1].clone());
                assert_eq!(row.end, next.start, "no line feed here");
                let word: String =
                    text[row.end..].chars().take_while(|c| !c.is_whitespace()).collect();
                let wide = UnicodeWidthStr::width(&text[row.clone()])
                    + UnicodeWidthStr::width(word.as_str());
                assert!(wide > width, "{text:?} at {width}: {row:?} had room for {word:?}");
            }
        }
    }
}

#[test]
fn up_and_down_move_one_row_at_a_soft_wrap() {
    let mut a = area("abcdefgh");
    assert_eq!(a.layout(4), vec![0..4, 4..8]);
    assert_eq!(a.caret_pos(4), (1, 4));
    a.move_up(4);
    assert_eq!(a.caret_pos(4), (0, 3), "the last position on the row");
    a.move_down(4);
    assert_eq!(a.caret_pos(4), (1, 3));
    let mut b = area("ab cd\nlonger");
    b.move_up(3); // from "ger" to "lon", which wraps
    assert_eq!(b.caret_pos(3).0, 2);
    b.move_up(3);
    assert_eq!(b.caret_pos(3).0, 1);
}

#[test]
fn moving_past_the_edges_is_a_no_op() {
    let mut a = area("only");
    a.move_up(10);
    assert_eq!(a.caret(), 4);
    a.move_down(10);
    assert_eq!(a.caret(), 4);
    a.move_home(10);
    a.move_left();
    assert_eq!(a.caret(), 0);
    a.move_end(10);
    a.move_right();
    assert_eq!(a.caret(), 4);
}

// ---- editing ----------------------------------------------------------

#[test]
fn insert_and_backspace_at_the_caret() {
    let mut a = area("ac");
    a.move_left();
    a.insert('b');
    assert_eq!(a.text(), "abc");
    assert_eq!(a.caret(), 2);
    a.backspace();
    assert_eq!(a.text(), "ac");
}

#[test]
fn delete_removes_the_character_after_the_caret() {
    let mut a = area("abc");
    a.move_home(10);
    a.delete();
    assert_eq!(a.text(), "bc");
    assert_eq!(a.caret(), 0);
}

#[test]
fn newlines_are_inserted_at_the_caret() {
    let mut a = area("ab");
    a.move_left();
    a.insert_newline();
    assert_eq!(a.text(), "a\nb");
    assert_eq!(a.caret_pos(10), (1, 0));
}

#[test]
fn backspace_joins_two_lines() {
    let mut a = area("a\nb");
    a.move_home(10);
    a.backspace();
    assert_eq!(a.text(), "ab");
}

#[test]
fn delete_word_takes_the_word_and_its_leading_space() {
    let mut a = area("fix the parser bug");
    a.delete_word();
    assert_eq!(a.text(), "fix the parser ");
    a.delete_word();
    assert_eq!(a.text(), "fix the ");
}

#[test]
fn editing_an_empty_or_blank_buffer_is_safe() {
    let mut a = area("");
    a.backspace();
    a.delete();
    a.delete_word();
    a.move_left();
    a.move_right();
    assert_eq!(a.text(), "");
    assert_eq!(a.caret(), 0);
    let mut a = area("   ");
    a.delete_word();
    assert_eq!(a.text(), "");
}

#[test]
fn multibyte_text_never_splits_a_character() {
    let mut a = area("héllo → wörld");
    for _ in 0..20 {
        a.move_left(); // would panic on a non-boundary
    }
    a.insert('é');
    a.delete();
    a.backspace();
    assert!(a.text().starts_with('h') || a.text().starts_with('é'));
    // and the layout keeps working at any width
    for width in [1, 2, 5, 13] {
        assert!(!a.layout(width).is_empty());
    }
}

#[test]
fn wide_characters_count_as_two_columns() {
    let a = area("日本語");
    assert_eq!(a.caret_pos(10), (0, 6));
    assert_eq!(rows_of(&a, 4), vec!["日本", "語"]);
}

#[test]
fn clear_empties_everything() {
    let mut a = area("some note");
    a.clear();
    assert!(a.is_empty());
    assert_eq!(a.caret(), 0);
    assert_eq!(a.char_count(), 0);
}

#[test]
fn char_count_counts_characters_not_bytes() {
    assert_eq!(area("héllo").char_count(), 5);
}
