//! Finding the line to open the editor at.
use gitview::preview::editor::{first_new_line, strip_ansi};

#[test]
fn first_new_line_plain_hunk() {
    let raw = b"diff --git a/f b/f\nindex 123..456 100644\n--- a/f\n+++ b/f\n@@ -10,3 +12,4 @@ fn ctx()\n context\n+added\n";
    assert_eq!(first_new_line(raw), Some(12));
}

#[test]
fn first_new_line_colored_hunk() {
    // git --color=always wraps hunk headers in cyan (36m).
    let raw = b"\x1b[1mdiff --git a/f b/f\x1b[m\n\x1b[36m@@ -1,2 +3 @@\x1b[m\n\x1b[32m+x\x1b[m\n";
    assert_eq!(first_new_line(raw), Some(3));
}

#[test]
fn first_new_line_none_without_hunks() {
    assert_eq!(first_new_line(b""), None);
    assert_eq!(first_new_line(b"Binary files a/x and b/x differ\n"), None);
}

#[test]
fn first_new_line_single_line_count_form() {
    // `@@ -0,0 +1 @@` (new file, one line) — no comma on the + side.
    let raw = b"@@ -0,0 +1 @@\n+hello\n";
    assert_eq!(first_new_line(raw), Some(1));
}

#[test]
fn strip_ansi_removes_csi_sequences() {
    assert_eq!(strip_ansi(b"\x1b[32mgreen\x1b[m plain"), b"green plain");
}
