//! What the list pane draws: header, rows and footer, and its overlays.
use crate::git::{entries_view, ChangeKind, CommitInfo, CommitView, EntryView, FileEntry, Scope};
use crate::input::{hint_from, Action, Hints};
use crate::ipc::{infos_view, NoteInfo, NoteInfoView};
use crate::list::app::{App, AppView, Modal, ModalView, Mode, STATUS_MS};
use crate::list::rows::{list_view, ListRow, ListRowView};
use crate::path::{rfind, rfind_char};
use crate::preview::card::{label, minus, range_label};
use crate::repo::commits_view;
use crate::style::{
    dim, dim_style, fg_style, lemma_lines_push, lemma_spans_push, lemma_spans_text_concat, line_of,
    line_text, lines_view, plain, raw, repeat_char, repeated, span, spans_text, spans_view, styled, Color, Line, LineView, Span, SpanView, Style,
    Theme,
};
use crate::text::{
    append, append_dec, chars_of, copy, dec, first_line, first_line_of, opt_str, same, string_of,
};
use crate::textarea::{elide_tail, elided};
use crate::width::{cols, columns, str_columns, str_width, sum_cols};
use vstd::prelude::*;

verus! {

broadcast use {vstd::string::group_string_axioms, lemma_spans_push, lemma_lines_push};

fn no_spans() -> (r: Vec<Span>)
    ensures
        spans_view(r@) == Seq::<SpanView>::empty(),
{
    let v: Vec<Span> = Vec::new();
    assert(spans_view(v@) =~= Seq::<SpanView>::empty());
    v
}

fn row(spans: Vec<Span>) -> (r: Line)
    ensures
        r@ == line_of(spans_view(spans@)),
{
    Line { spans, style: Style::new() }
}

pub open spec fn bold_style() -> Style {
    Style { bold: true, ..plain() }
}

/// Columns left of `width` beside texts of these widths.
pub open spec fn room(width: nat, a: Seq<char>, b: Seq<char>) -> nat {
    minus(width, (str_columns(a) + str_columns(b)) as nat)
}

// ---- header ------------------------------------------------------------------

/// The surface behind the header and footer bars.
pub fn bar_bg(theme: Theme) -> (r: Color)
    ensures
        r == (if theme.light() {
            Color::Rgb(0xe6, 0xe9, 0xef)
        } else {
            Color::Rgb(0x31, 0x32, 0x44)
        }),
{
    if theme.is_light() {
        Color::Rgb(0xe6, 0xe9, 0xef)
    } else {
        Color::Rgb(0x31, 0x32, 0x44)
    }
}

/// The base branch as it is shown.
pub open spec fn base_name(s: AppView) -> Seq<char> {
    if s.base.len() == 0 {
        "base"@
    } else {
        s.base
    }
}

/// The current branch as it is shown.
pub open spec fn branch_name(s: AppView) -> Seq<char> {
    match s.branch {
        Some(b) => b,
        None => "DETACHED"@,
    }
}

/// What is shown, on the header's left.
pub open spec fn heading(s: AppView) -> Seq<char> {
    match s.busy {
        Some(what) => " "@ + what,
        None => match s.mode {
            Mode::Log => " log — "@ + branch_name(s) + (if s.log_branch_only {
                " vs "@ + base_name(s)
            } else {
                " all"@
            }),
            Mode::CommitFiles => match s.commit {
                Some(c) => " "@ + c.short + " "@ + c.subject,
                None => " commit"@,
            },
            Mode::Notes => " review notes"@,
            Mode::Files => " "@ + branch_name(s) + "  "@ + (match s.scope {
                Scope::Worktree => "working tree"@,
                Scope::Branch => "vs "@ + base_name(s),
            }),
        },
    }
}

/// How much is shown, on the header's right.
pub open spec fn tally(s: AppView) -> Seq<char> {
    match s.mode {
        Mode::Log => dec(s.commits.len()) + " commits "@,
        Mode::Notes => dec(s.notes.len()) + " notes "@,
        Mode::Files | Mode::CommitFiles => dec(s.entries.len()) + " files "@,
    }
}

pub open spec fn header_of(s: AppView, width: nat) -> LineView {
    let right = tally(s);
    let left = elided(heading(s), minus(width, str_columns(right) as nat + 1));
    line_of(
        seq![
            span(left, bold_style()),
            span(repeated(' ', room(width, left, right)), plain()),
            span(right, dim_style()),
        ],
    )
}

fn base_label(app: &App) -> (r: String)
    ensures
        r@ == base_name(app@),
{
    if app.base.as_str().is_empty() {
        copy("base")
    } else {
        copy(app.base.as_str())
    }
}

fn branch_label(app: &App) -> (r: String)
    ensures
        r@ == branch_name(app@),
{
    match &app.branch {
        Some(b) => copy(b.as_str()),
        None => copy("DETACHED"),
    }
}

fn heading_of(app: &App) -> (r: String)
    ensures
        r@ == heading(app@),
{
    match &app.busy {
        Some(what) => {
            let mut s = copy(" ");
            append(&mut s, what.as_str());
            s
        },
        None => {
            let branch = branch_label(app);
            match app.mode {
                Mode::Log => {
                    let mut s = copy(" log — ");
                    append(&mut s, branch.as_str());
                    if app.log_branch_only {
                        let mut vs = copy(" vs ");
                        let base = base_label(app);
                        append(&mut vs, base.as_str());
                        append(&mut s, vs.as_str());
                    } else {
                        append(&mut s, " all");
                    }
                    s
                },
                Mode::CommitFiles => match &app.commit {
                    Some(c) => {
                        let mut s = copy(" ");
                        append(&mut s, c.short.as_str());
                        append(&mut s, " ");
                        append(&mut s, c.subject.as_str());
                        s
                    },
                    None => copy(" commit"),
                },
                Mode::Notes => copy(" review notes"),
                Mode::Files => {
                    let mut s = copy(" ");
                    append(&mut s, branch.as_str());
                    append(&mut s, "  ");
                    match app.scope {
                        Scope::Worktree => append(&mut s, "working tree"),
                        Scope::Branch => {
                            let mut vs = copy("vs ");
                            let base = base_label(app);
                            append(&mut vs, base.as_str());
                            append(&mut s, vs.as_str());
                        },
                    }
                    s
                },
            }
        },
    }
}

fn tally_of(app: &App) -> (r: String)
    ensures
        r@ == tally(app@),
{
    let mut s = String::new();
    assert(s@ =~= Seq::<char>::empty());
    match app.mode {
        Mode::Log => {
            append_dec(&mut s, app.commits.len() as u64);
            append(&mut s, " commits ");
        },
        Mode::Notes => {
            append_dec(&mut s, app.notes.len() as u64);
            append(&mut s, " notes ");
        },
        Mode::Files | Mode::CommitFiles => {
            append_dec(&mut s, app.entries.len() as u64);
            append(&mut s, " files ");
        },
    }
    assert(s@ =~= tally(app@));
    s
}

/// The header row.
pub fn header(app: &App, width: usize) -> (r: Line)
    ensures
        r@ == header_of(app@, width as nat),
{
    let right = tally_of(app);
    let full = heading_of(app);
    let rw = str_width(right.as_str());
    let left = elide_tail(full.as_str(), width.saturating_sub(rw).saturating_sub(1));
    let pad = width.saturating_sub(str_width(left.as_str())).saturating_sub(rw);
    let mut spans = no_spans();
    spans.push(styled(left, Style::new().bold()));
    spans.push(raw(repeat_char(' ', pad)));
    spans.push(styled(right, dim()));
    let line = row(spans);
    assert(line@ =~= header_of(app@, width as nat));
    line
}

// ---- rows ----------------------------------------------------------------------

/// What stands in place of rows where there are none.
pub open spec fn nothing_shown(s: AppView) -> Seq<char> {
    match s.mode {
        Mode::Log => "no commits"@,
        Mode::CommitFiles => "empty commit"@,
        Mode::Notes => "no notes yet"@,
        Mode::Files => match s.scope {
            Scope::Worktree => "working tree clean"@,
            Scope::Branch => "no changes vs "@ + base_name(s),
        },
    }
}

/// The message in place of rows where there are none.
pub fn empty_message(app: &App) -> (r: Option<String>)
    ensures
        opt_str(r) == (if app@.rows.len() == 0 {
            Some(nothing_shown(app@))
        } else {
            None
        }),
{
    if app.rows.len() != 0 {
        assert(list_view(app.rows@).len() == app.rows@.len());
        return None;
    }
    assert(list_view(app.rows@).len() == app.rows@.len());
    Some(
        match app.mode {
            Mode::Log => copy("no commits"),
            Mode::CommitFiles => copy("empty commit"),
            Mode::Notes => copy("no notes yet"),
            Mode::Files => match app.scope {
                Scope::Worktree => copy("working tree clean"),
                Scope::Branch => {
                    let mut s = copy("no changes vs ");
                    let base = base_label(app);
                    append(&mut s, base.as_str());
                    s
                },
            },
        },
    )
}

/// A lower-case ASCII letter as its upper-case one.
pub open spec fn upper(c: char) -> char {
    if 'a' <= c <= 'z' {
        ((c as u8 - 32) as u8) as char
    } else {
        c
    }
}

fn upper_char(c: char) -> (r: char)
    ensures
        r == upper(c),
{
    if c >= 'a' && c <= 'z' {
        ((c as u8) - 32) as char
    } else {
        c
    }
}

/// ASCII letters in upper case.
pub fn uppercase(s: &str) -> (r: String)
    ensures
        r@ == s@.map_values(|c: char| upper(c)),
{
    let cs = chars_of(s);
    let ghost want = s@.map_values(|c: char| upper(c));
    let mut out = String::new();
    let mut i: usize = 0;
    assert(out@ =~= want.take(0));
    while i < cs.len()
        invariant
            i <= cs@.len(),
            cs@ == s@,
            want == s@.map_values(|c: char| upper(c)),
            out@ == want.take(i as int),
        decreases cs@.len() - i,
    {
        out.push(upper_char(cs[i]));
        i += 1;
        assert(out@ =~= want.take(i as int));
    }
    assert(want.take(i as int) =~= want);
    out
}

/// A heading with a count.
pub open spec fn group_line(text: Seq<char>, count: nat) -> LineView {
    line_of(
        seq![
            span(" ▾ "@ + text, Style { bold: true, ..fg_style(Color::Blue) }),
            span("  "@ + dec(count), dim_style()),
        ],
    )
}

fn group_row(text: &str, count: usize) -> (r: Line)
    ensures
        r@ == group_line(text@, count as nat),
{
    let mut title = copy(" ▾ ");
    append(&mut title, text);
    let mut n = copy("  ");
    append_dec(&mut n, count as u64);
    let mut spans = no_spans();
    spans.push(styled(title, Style::new().fg(Color::Blue).bold()));
    spans.push(styled(n, dim()));
    let line = row(spans);
    assert(line@ =~= group_line(text@, count as nat));
    line
}

/// Columns that a row of the tree is indented by.
pub open spec fn indent_of(depth: int, grouped: bool) -> nat {
    ((if grouped {
        2int
    } else {
        1
    }) + 2 * depth) as nat
}

fn indent_cols(depth: usize, grouped: bool) -> (r: usize)
    ensures
        indent_of(depth as int, grouped) <= usize::MAX ==> r == indent_of(depth as int, grouped),
        indent_of(depth as int, grouped) > usize::MAX ==> r == usize::MAX,
{
    let base: usize = if grouped {
        2
    } else {
        1
    };
    depth.saturating_add(depth).saturating_add(base)
}

/// A directory of the tree, its subtree open or closed.
pub open spec fn dir_line(depth: int, name: Seq<char>, collapsed: bool, grouped: bool) -> LineView {
    line_of(
        seq![
            span(repeated(' ', indent_of(depth, grouped)), plain()),
            span(
                (if collapsed {
                    "▸ "@
                } else {
                    "▾ "@
                }) + name,
                fg_style(Color::Blue),
            ),
        ],
    )
}

fn dir_row(depth: usize, name: &str, collapsed: bool, grouped: bool) -> (r: Line)
    requires
        indent_of(depth as int, grouped) <= usize::MAX,
    ensures
        r@ == dir_line(depth as int, name@, collapsed, grouped),
{
    let mut text = if collapsed {
        copy("▸ ")
    } else {
        copy("▾ ")
    };
    append(&mut text, name);
    let mut spans = no_spans();
    spans.push(raw(repeat_char(' ', indent_cols(depth, grouped))));
    spans.push(styled(text, Style::new().fg(Color::Blue)));
    let line = row(spans);
    assert(line@ =~= dir_line(depth as int, name@, collapsed, grouped));
    line
}

/// The letter and colour of a kind of change.
pub fn marker(kind: ChangeKind) -> (r: (char, Color))
    ensures
        r == kind_mark(kind),
{
    match kind {
        ChangeKind::Modified => ('M', Color::Yellow),
        ChangeKind::Added => ('A', Color::Green),
        ChangeKind::Deleted => ('D', Color::Red),
        ChangeKind::Renamed => ('R', Color::Cyan),
        ChangeKind::Untracked => ('U', Color::Green),
        ChangeKind::Conflicted => ('!', Color::Red),
    }
}

pub open spec fn kind_mark(kind: ChangeKind) -> (char, Color) {
    match kind {
        ChangeKind::Modified => ('M', Color::Yellow),
        ChangeKind::Added => ('A', Color::Green),
        ChangeKind::Deleted => ('D', Color::Red),
        ChangeKind::Renamed => ('R', Color::Cyan),
        ChangeKind::Untracked => ('U', Color::Green),
        ChangeKind::Conflicted => ('!', Color::Red),
    }
}

/// The `+a −d` counts, zero sides dropped; `bin` where they are unknown.
pub open spec fn stat_spans(e: EntryView) -> Seq<SpanView> {
    match (e.adds, e.dels) {
        (Some(a), Some(d)) => {
            let plus = span("+"@ + dec(a as nat), fg_style(Color::Green));
            let less = span("−"@ + dec(d as nat), fg_style(Color::Red));
            if d == 0 {
                seq![plus]
            } else if a == 0 {
                seq![less]
            } else {
                seq![plus, span(" "@, plain()), less]
            }
        },
        _ => seq![span("bin"@, dim_style())],
    }
}

/// The counts as one text.
pub open spec fn stat_text(e: EntryView) -> Seq<char> {
    match (e.adds, e.dels) {
        (Some(a), Some(d)) => if d == 0 {
            "+"@ + dec(a as nat)
        } else if a == 0 {
            "−"@ + dec(d as nat)
        } else {
            "+"@ + dec(a as nat) + " "@ + ("−"@ + dec(d as nat))
        },
        _ => "bin"@,
    }
}

fn signed(sign: &str, n: u32) -> (r: String)
    ensures
        r@ == sign@ + dec(n as nat),
{
    let mut s = copy(sign);
    append_dec(&mut s, n as u64);
    s
}

/// The counts: their text (for its width) and their spans.
pub fn stats(entry: &FileEntry) -> (r: (String, Vec<Span>))
    ensures
        r.0@ == stat_text(entry@),
        spans_view(r.1@) == stat_spans(entry@),
{
    let mut spans = no_spans();
    let (adds, dels) = match (entry.adds, entry.dels) {
        (Some(a), Some(d)) => (a, d),
        _ => {
            spans.push(styled(copy("bin"), dim()));
            assert(spans_view(spans@) =~= stat_spans(entry@));
            return (copy("bin"), spans);
        },
    };
    let green = Style::new().fg(Color::Green);
    let red = Style::new().fg(Color::Red);
    if dels == 0 {
        let plus = signed("+", adds);
        spans.push(styled(signed("+", adds), green));
        assert(spans_view(spans@) =~= stat_spans(entry@));
        return (plus, spans);
    }
    let less = signed("−", dels);
    if adds == 0 {
        spans.push(styled(signed("−", dels), red));
        assert(spans_view(spans@) =~= stat_spans(entry@));
        return (less, spans);
    }
    let mut text = signed("+", adds);
    append(&mut text, " ");
    append(&mut text, less.as_str());
    spans.push(styled(signed("+", adds), green));
    spans.push(raw(copy(" ")));
    spans.push(styled(less, red));
    assert(spans_view(spans@) =~= stat_spans(entry@));
    (text, spans)
}

/// The path as it is shown: a renamed file with both.
pub open spec fn shown_path(e: EntryView) -> Seq<char> {
    match e.orig_path {
        Some(orig) => orig + " → "@ + e.path,
        None => e.path,
    }
}

fn path_text(entry: &FileEntry) -> (r: String)
    ensures
        r@ == shown_path(entry@),
{
    match &entry.orig_path {
        Some(orig) => {
            let mut s = copy(orig.as_str());
            append(&mut s, " → ");
            append(&mut s, entry.path.as_str());
            s
        },
        None => copy(entry.path.as_str()),
    }
}

/// Where the longest end of `s[..i]` starts that fits into `left` columns.
pub open spec fn tail_start(s: Seq<char>, i: int, left: nat) -> int
    decreases i,
{
    if i <= 0 || i > s.len() || cols(s[i - 1]) > left {
        i
    } else {
        tail_start(s, i - 1, (left - cols(s[i - 1])) as nat)
    }
}

/// `s` cut to `max` columns from the left, a cut marked with an ellipsis.
pub open spec fn elided_head(s: Seq<char>, max: nat) -> Seq<char> {
    if str_columns(s) <= max {
        s
    } else if max == 0 {
        Seq::empty()
    } else {
        "…"@ + s.skip(tail_start(s, s.len() as int, (max - 1) as nat))
    }
}

/// Left-truncate to `max` display columns, with `…` in front when cut.
pub fn elide_head(s: &str, max: usize) -> (r: String)
    ensures
        r@ == elided_head(s@, max as nat),
{
    if str_width(s) <= max {
        return copy(s);
    }
    if max == 0 {
        let none = String::new();
        assert(none@ =~= Seq::<char>::empty());
        return none;
    }
    let cs = chars_of(s);
    let mut i: usize = cs.len();
    let mut left: usize = max - 1;
    while i > 0
        invariant_except_break
            i <= cs@.len(),
            tail_start(cs@, i as int, left as nat) == tail_start(
                cs@,
                cs@.len() as int,
                (max - 1) as nat,
            ),
        ensures
            i <= cs@.len(),
            i == tail_start(cs@, cs@.len() as int, (max - 1) as nat),
        decreases i,
    {
        let cw = columns(cs[i - 1]);
        if cw > left {
            break ;
        }
        left -= cw;
        i -= 1;
    }
    let mut out = copy("…");
    let tail = string_of(&cs, i, cs.len());
    assert(tail@ =~= s@.skip(i as int));
    append(&mut out, tail.as_str());
    out
}

/// Where the directory part of a path ends: behind its last slash.
pub open spec fn dir_len(s: Seq<char>) -> int {
    rfind(s, '/', s.len() as int) + 1
}

/// Split a path into its directory (with the slash) and its name.
pub fn split_dir(s: &str) -> (r: (String, String))
    ensures
        r.0@ == s@.take(dir_len(s@)),
        r.1@ == s@.skip(dir_len(s@)),
        r.0@.len() == dir_len(s@),
{
    let cs = chars_of(s);
    let at: usize = match rfind_char(&cs, '/', cs.len()) {
        Some(i) => i + 1,
        None => 0,
    };
    proof {
        crate::path::lemma_rfind(s@, '/', s@.len() as int);
    }
    let a = string_of(&cs, 0, at);
    let b = string_of(&cs, at, cs.len());
    assert(a@ =~= s@.take(dir_len(s@)));
    assert(b@ =~= s@.skip(dir_len(s@)));
    (a, b)
}

/// Widths of spans added up.
pub open spec fn used_by(spans: Seq<SpanView>, n: int) -> nat
    decreases n,
{
    if n <= 0 {
        0
    } else {
        used_by(spans, n - 1) + str_columns(spans[n - 1].text) as nat
    }
}

/// The left part of a file's row: indent, marker, and the path cut from the
/// left, its directory dimmed.
pub open spec fn entry_left(e: EntryView, width: nat, indent: nat) -> Seq<SpanView> {
    let fixed = indent + 2 + str_columns(stat_text(e)) as nat + 2;
    let avail = minus(width, fixed);
    let shown = elided_head(
        shown_path(e),
        if avail > 0 {
            avail
        } else {
            1
        },
    );
    let (letter, color) = kind_mark(e.kind);
    let head = seq![
        span(repeated(' ', indent), plain()),
        span(seq![letter, ' '], fg_style(color)),
    ];
    let dir = if dir_len(shown) > 0 {
        head.push(span(shown.take(dir_len(shown)), dim_style()))
    } else {
        head
    };
    dir.push(span(shown.skip(dir_len(shown)), plain()))
}

/// One file row: marker by kind, path, and the counts flush right.
pub open spec fn entry_line(e: EntryView, width: nat, indent: nat) -> LineView {
    let left = entry_left(e, width, indent);
    let pad = minus(width, used_by(left, left.len() as int) + str_columns(stat_text(e)) as nat);
    line_of(left.push(span(repeated(' ', pad), plain())) + stat_spans(e))
}

fn left_spans(entry: &FileEntry, width: usize, indent: usize, stat_cols: usize) -> (r: Vec<Span>)
    requires
        stat_cols == str_columns(stat_text(entry@)),
    ensures
        spans_view(r@) == entry_left(entry@, width as nat, indent as nat),
{
    let avail = width.saturating_sub(indent).saturating_sub(2).saturating_sub(
        stat_cols,
    ).saturating_sub(2);
    let path = path_text(entry);
    let shown = elide_head(
        path.as_str(),
        if avail > 0 {
            avail
        } else {
            1
        },
    );
    let (dir, base) = split_dir(shown.as_str());
    let (letter, color) = marker(entry.kind);
    let mut mark = String::new();
    mark.push(letter);
    mark.push(' ');
    assert(mark@ =~= seq![letter, ' ']);
    let mut spans = no_spans();
    spans.push(raw(repeat_char(' ', indent)));
    spans.push(styled(mark, Style::new().fg(color)));
    if !dir.as_str().is_empty() {
        spans.push(styled(dir, dim()));
    }
    spans.push(raw(base));
    assert(spans_view(spans@) =~= entry_left(entry@, width as nat, indent as nat));
    spans
}

/// Columns left of `width` beside spans.
fn columns_left(width: usize, spans: &Vec<Span>) -> (r: usize)
    ensures
        r == minus(width as nat, used_by(spans_view(spans@), spans@.len() as int)),
{
    let ghost all = spans_view(spans@);
    let mut left: usize = width;
    let mut i: usize = 0;
    while i < spans.len()
        invariant
            i <= spans@.len(),
            all == spans_view(spans@),
            left == minus(width as nat, used_by(all, i as int)),
        decreases spans@.len() - i,
    {
        assert(all[i as int] == spans@[i as int]@);
        left = left.saturating_sub(str_width(spans[i].text.as_str()));
        i += 1;
    }
    left
}

fn entry_row(entry: &FileEntry, width: usize, indent: usize) -> (r: Line)
    ensures
        r@ == entry_line(entry@, width as nat, indent as nat),
{
    let (text, counts) = stats(entry);
    let stat_cols = str_width(text.as_str());
    let mut spans = left_spans(entry, width, indent, stat_cols);
    let ghost left = spans_view(spans@);
    assert(left.len() == spans@.len());
    let pad = columns_left(width, &spans).saturating_sub(stat_cols);
    spans.push(raw(repeat_char(' ', pad)));
    let ghost head = spans_view(spans@);
    let mut counts = counts;
    assert(spans_view(spans@ + counts@) =~= spans_view(spans@) + spans_view(counts@));
    spans.append(&mut counts);
    let line = row(spans);
    assert(line@ =~= entry_line(entry@, width as nat, indent as nat));
    line
}

/// One commit row: short hash, subject, and the date flush right.
pub open spec fn commit_line(c: CommitView, width: nat) -> LineView {
    let short = " "@ + c.short + " "@;
    let date = c.date + " "@;
    let avail = minus(width, str_columns(short) as nat + str_columns(date) as nat + 1);
    let subject = elided(c.subject, avail);
    let pad = minus(
        width,
        str_columns(short) as nat + str_columns(subject) as nat + str_columns(date) as nat,
    );
    line_of(
        seq![
            span(short, fg_style(Color::Yellow)),
            span(subject, plain()),
            span(repeated(' ', pad), plain()),
            span(date, dim_style()),
        ],
    )
}

fn commit_row(c: &CommitInfo, width: usize) -> (r: Line)
    ensures
        r@ == commit_line(c@, width as nat),
{
    let mut short = copy(" ");
    append(&mut short, c.short.as_str());
    append(&mut short, " ");
    let mut date = copy(c.date.as_str());
    append(&mut date, " ");
    let sw = str_width(short.as_str());
    let dw = str_width(date.as_str());
    let avail = width.saturating_sub(sw).saturating_sub(dw).saturating_sub(1);
    let subject = elide_tail(c.subject.as_str(), avail);
    let uw = str_width(subject.as_str());
    let pad = width.saturating_sub(sw).saturating_sub(uw).saturating_sub(dw);
    let mut spans = no_spans();
    spans.push(styled(short, Style::new().fg(Color::Yellow)));
    spans.push(raw(subject));
    spans.push(raw(repeat_char(' ', pad)));
    spans.push(styled(date, dim()));
    let line = row(spans);
    assert(line@ =~= commit_line(c@, width as nat));
    line
}

/// A note: where it is anchored, and the first line of its text.
pub open spec fn note_lines(n: NoteInfoView, width: nat) -> Seq<LineView> {
    seq![
        line_of(seq![span("  "@ + label("note"@, n.start, n.end), dim_style())]),
        line_of(seq![span(elided("    "@ + first_line_of(n.text), width), plain())]),
    ]
}

fn note_row(n: &NoteInfo, width: usize) -> (r: Vec<Line>)
    ensures
        lines_view(r@) == note_lines(n@, width as nat),
{
    let mut at = copy("  ");
    let place = range_label("note", n.start, n.end);
    append(&mut at, place.as_str());
    let mut text = copy("    ");
    let first = first_line(n.text.as_str());
    append(&mut text, first.as_str());
    let shown = elide_tail(text.as_str(), width);
    let mut a = no_spans();
    a.push(styled(at, dim()));
    let mut b = no_spans();
    b.push(raw(shown));
    let one = row(a);
    let two = row(b);
    proof {
        assert(one@ =~= note_lines(n@, width as nat)[0]);
        assert(two@ =~= note_lines(n@, width as nat)[1]);
    }
    let mut out: Vec<Line> = Vec::new();
    assert(lines_view(out@) =~= Seq::<LineView>::empty());
    out.push(one);
    out.push(two);
    assert(lines_view(out@) =~= note_lines(n@, width as nat));
    out
}

/// Whether the rows are grouped into worktree sections.
pub open spec fn is_grouped(s: AppView) -> bool {
    s.mode == Mode::Files && s.scope == Scope::Worktree
}

/// The lines that a row is drawn as; an empty one where it shows nothing that
/// exists.
pub open spec fn row_lines(s: AppView, r: ListRowView, width: nat) -> Seq<LineView> {
    let blank = seq![line_of(Seq::empty())];
    match r {
        ListRowView::Header { title, count } => seq![
            group_line(title.map_values(|c: char| upper(c)), count as nat),
        ],
        ListRowView::NoteFile { name, count } => seq![group_line(name, count as nat)],
        ListRowView::Dir { depth, name, collapsed, .. } => seq![
            dir_line(depth, name, collapsed, is_grouped(s)),
        ],
        ListRowView::Entry { idx, depth, .. } => if 0 <= idx < s.entries.len() {
            seq![entry_line(s.entries[idx], width, indent_of(depth, is_grouped(s)))]
        } else {
            blank
        },
        ListRowView::Commit(i) => if 0 <= i < s.commits.len() {
            seq![commit_line(s.commits[i], width)]
        } else {
            blank
        },
        ListRowView::Note(i) => if 0 <= i < s.notes.len() {
            note_lines(s.notes[i], width)
        } else {
            blank
        },
    }
}

/// How deep a row stands.
pub open spec fn depth_of(r: ListRowView) -> int {
    match r {
        ListRowView::Dir { depth, .. } => depth,
        ListRowView::Entry { depth, .. } => depth,
        _ => 0,
    }
}

fn one_line(line: Line) -> (r: Vec<Line>)
    ensures
        lines_view(r@) == seq![line@],
{
    let mut v: Vec<Line> = Vec::new();
    v.push(line);
    assert(lines_view(v@) =~= seq![line@]);
    v
}

fn blank_line() -> (r: Vec<Line>)
    ensures
        lines_view(r@) == seq![line_of(Seq::<SpanView>::empty())],
{
    one_line(row(no_spans()))
}

/// The lines that row `i` is drawn as. A tree is never so deep that its indent
/// would not fit.
pub fn item_lines(app: &App, i: usize, width: usize) -> (r: Vec<Line>)
    requires
        i < app.rows@.len(),
        indent_of(depth_of(app@.rows[i as int]), true) <= usize::MAX,
    ensures
        lines_view(r@) == row_lines(app@, app@.rows[i as int], width as nat),
{
    assert(list_view(app.rows@)[i as int] == app.rows@[i as int]@);
    let grouped = app.mode == Mode::Files && app.scope == Scope::Worktree;
    match &app.rows[i] {
        ListRow::Header { title, count } => {
            let text = uppercase(title);
            one_line(group_row(text.as_str(), *count))
        },
        ListRow::NoteFile { name, count } => one_line(group_row(name.as_str(), *count)),
        ListRow::Dir { depth, name, collapsed, .. } => one_line(
            dir_row(*depth, name.as_str(), *collapsed, grouped),
        ),
        ListRow::Entry { idx, depth, .. } => {
            if *idx < app.entries.len() {
                assert(entries_view(app.entries@)[*idx as int] == app.entries@[*idx as int]@);
                one_line(entry_row(&app.entries[*idx], width, indent_cols(*depth, grouped)))
            } else {
                blank_line()
            }
        },
        ListRow::Commit(k) => {
            if *k < app.commits.len() {
                assert(commits_view(app.commits@)[*k as int] == app.commits@[*k as int]@);
                one_line(commit_row(&app.commits[*k], width))
            } else {
                blank_line()
            }
        },
        ListRow::Note(k) => {
            if *k < app.notes.len() {
                assert(infos_view(app.notes@)[*k as int] == app.notes@[*k as int]@);
                note_row(&app.notes[*k], width)
            } else {
                blank_line()
            }
        },
    }
}

// ---- footer --------------------------------------------------------------------

/// What a hint is shown as.
pub open spec fn symbol(hint: Seq<char>) -> Seq<char> {
    if hint == "enter"@ {
        "↵"@
    } else {
        hint
    }
}

/// The actions that the footer offers: only those that currently work.
pub open spec fn offered(s: AppView) -> Seq<(Action, Seq<char>)> {
    match s.mode {
        Mode::Log => seq![
            (Action::Edit, "show commit"@),
            (
                Action::ToggleScope,
                if s.log_branch_only {
                    "all commits"@
                } else {
                    "branch only"@
                },
            ),
            (Action::Quit, "back"@),
            (Action::Help, "help"@),
        ],
        Mode::CommitFiles => seq![
            (Action::Edit, "edit"@),
            (Action::HalfPageDown, "scroll"@),
            (Action::Quit, "back"@),
            (Action::Help, "help"@),
        ],
        Mode::Notes => seq![
            (Action::Edit, "edit"@),
            (Action::Delete, "delete"@),
            (Action::SendNotes, "send"@),
            (Action::Quit, "back"@),
            (Action::Help, "help"@),
        ],
        Mode::Files => {
            let edit = seq![(Action::Edit, "edit"@)];
            let stage = if s.ops().stage {
                edit.push(
                    (
                        Action::Stage,
                        if s.ops().stage_unstages {
                            "unstage"@
                        } else {
                            "stage"@
                        },
                    ),
                )
            } else {
                edit
            };
            let unstage = if s.ops().unstage && !s.ops().stage_unstages {
                stage.push((Action::Unstage, "unstage"@))
            } else {
                stage
            };
            let discard = if s.ops().discard {
                unstage.push((Action::Discard, "discard"@))
            } else {
                unstage
            };
            discard.push((Action::Commit, "commit"@)).push((Action::Log, "log"@)).push(
                (Action::Help, "help"@),
            ).push((Action::Quit, "quit"@))
        },
    }
}

/// The hints of the first `n` actions: key and label each, actions without a
/// key left out.
pub open spec fn hint_spans(
    pairs: Seq<(Action, Seq<char>)>,
    keys: Seq<(Action, Seq<char>)>,
    n: int,
) -> Seq<SpanView>
    decreases n,
{
    if n <= 0 {
        Seq::empty()
    } else {
        let rest = hint_spans(pairs, keys, n - 1);
        let key = symbol(hint_from(keys, pairs[n - 1].0, 0));
        if key.len() == 0 {
            rest
        } else {
            let apart = if n > 1 {
                rest.push(span(" ·"@, dim_style()))
            } else {
                rest
            };
            apart.push(span(" "@ + key + " "@, fg_style(Color::Cyan))).push(
                span(pairs[n - 1].1, dim_style()),
            )
        }
    }
}

/// The footer: a message while it is fresh, else the keys that work.
pub open spec fn footer_of(s: AppView, keys: Seq<(Action, Seq<char>)>, now: u64) -> LineView {
    let hints = line_of(hint_spans(offered(s), keys, offered(s).len() as int));
    match s.status_msg {
        Some((msg, at)) => if now - at < STATUS_MS {
            line_of(seq![span(" "@ + msg, fg_style(Color::Yellow))])
        } else {
            hints
        },
        None => hints,
    }
}

pub open spec fn pairs_view(s: Seq<(Action, &'static str)>) -> Seq<(Action, Seq<char>)> {
    s.map_values(|p: (Action, &'static str)| (p.0, p.1@))
}

fn offer(v: &mut Vec<(Action, &'static str)>, a: Action, text: &'static str)
    ensures
        pairs_view(final(v)@) == pairs_view(old(v)@).push((a, text@)),
{
    assert(pairs_view(v@.push((a, text))) =~= pairs_view(v@).push((a, text@)));
    v.push((a, text));
}

fn offers(app: &App) -> (r: Vec<(Action, &'static str)>)
    ensures
        pairs_view(r@) == offered(app@),
{
    let mut v: Vec<(Action, &'static str)> = Vec::new();
    assert(pairs_view(v@) =~= Seq::<(Action, Seq<char>)>::empty());
    match app.mode {
        Mode::Log => {
            offer(&mut v, Action::Edit, "show commit");
            offer(
                &mut v,
                Action::ToggleScope,
                if app.log_branch_only {
                    "all commits"
                } else {
                    "branch only"
                },
            );
            offer(&mut v, Action::Quit, "back");
            offer(&mut v, Action::Help, "help");
        },
        Mode::CommitFiles => {
            offer(&mut v, Action::Edit, "edit");
            offer(&mut v, Action::HalfPageDown, "scroll");
            offer(&mut v, Action::Quit, "back");
            offer(&mut v, Action::Help, "help");
        },
        Mode::Notes => {
            offer(&mut v, Action::Edit, "edit");
            offer(&mut v, Action::Delete, "delete");
            offer(&mut v, Action::SendNotes, "send");
            offer(&mut v, Action::Quit, "back");
            offer(&mut v, Action::Help, "help");
        },
        Mode::Files => {
            let ops = app.selection_ops();
            offer(&mut v, Action::Edit, "edit");
            if ops.stage {
                offer(
                    &mut v,
                    Action::Stage,
                    if ops.stage_unstages {
                        "unstage"
                    } else {
                        "stage"
                    },
                );
            }
            if ops.unstage && !ops.stage_unstages {
                offer(&mut v, Action::Unstage, "unstage");
            }
            if ops.discard {
                offer(&mut v, Action::Discard, "discard");
            }
            offer(&mut v, Action::Commit, "commit");
            offer(&mut v, Action::Log, "log");
            offer(&mut v, Action::Help, "help");
            offer(&mut v, Action::Quit, "quit");
        },
    }
    assert(pairs_view(v@) =~= offered(app@));
    v
}

/// A hint as it is shown (`enter` as `↵`).
fn sym(hint: String) -> (r: String)
    ensures
        r@ == symbol(hint@),
{
    if same(hint.as_str(), "enter") {
        copy("↵")
    } else {
        hint
    }
}

fn footer_hints(app: &App, hints: &Hints) -> (r: Line)
    ensures
        r@ == line_of(hint_spans(offered(app@), hints@, offered(app@).len() as int)),
{
    let pairs = offers(app);
    let ghost pv = pairs_view(pairs@);
    let mut spans = no_spans();
    let mut i: usize = 0;
    while i < pairs.len()
        invariant
            i <= pairs@.len(),
            pv == pairs_view(pairs@),
            spans_view(spans@) == hint_spans(pv, hints@, i as int),
        decreases pairs@.len() - i,
    {
        assert(pv[i as int] == (pairs@[i as int].0, pairs@[i as int].1@));
        let key = sym(hints.hint(pairs[i].0));
        if !key.as_str().is_empty() {
            if i > 0 {
                spans.push(styled(copy(" ·"), dim()));
            }
            let mut shown = copy(" ");
            append(&mut shown, key.as_str());
            append(&mut shown, " ");
            spans.push(styled(shown, Style::new().fg(Color::Cyan)));
            spans.push(styled(copy(pairs[i].1), dim()));
        }
        i += 1;
    }
    row(spans)
}

/// The footer row.
pub fn footer(app: &App, hints: &Hints, now: u64) -> (r: Line)
    ensures
        r@ == footer_of(app@, hints@, now),
{
    match app.active_status(now) {
        Some(msg) => {
            let mut text = copy(" ");
            append(&mut text, msg);
            let mut spans = no_spans();
            spans.push(styled(text, Style::new().fg(Color::Yellow)));
            let line = row(spans);
            assert(line@ =~= footer_of(app@, hints@, now));
            line
        },
        None => footer_hints(app, hints),
    }
}

// ---- overlays ------------------------------------------------------------------

/// The text of an open question.
pub fn confirm_text(app: &App) -> (r: Option<String>)
    ensures
        opt_str(r) == (match app@.modal {
            Some(ModalView::Confirm { text, .. }) => Some(text),
            Some(ModalView::EditorClose { .. }) => Some(
                "editor has unsaved changes — y save · n discard · esc cancel"@,
            ),
            _ => None,
        }),
{
    match &app.modal {
        Some(Modal::Confirm { text, .. }) => Some(copy(text.as_str())),
        Some(Modal::EditorClose { .. }) => Some(
            copy("editor has unsaved changes — y save · n discard · esc cancel"),
        ),
        _ => None,
    }
}

/// The actions that the help overlay explains, in a sensible reading order.
pub open spec fn help_actions() -> Seq<(Action, Seq<char>)> {
    seq![
        (Action::Down, "move down"@),
        (Action::Up, "move up"@),
        (Action::Top, "jump to top"@),
        (Action::Bottom, "jump to bottom"@),
        (Action::Edit, "open in editor"@),
        (Action::ToggleScope, "worktree / branch"@),
        (Action::Stage, "stage / unstage file"@),
        (Action::Discard, "discard changes"@),
        (Action::Commit, "commit"@),
        (Action::Log, "commit history"@),
        (Action::ScrollDown, "scroll diff down"@),
        (Action::ScrollUp, "scroll diff up"@),
        (Action::HalfPageDown, "half page down"@),
        (Action::HalfPageUp, "half page up"@),
        (Action::DiffTop, "diff top"@),
        (Action::DiffBottom, "diff bottom"@),
        (Action::Refresh, "refresh"@),
        (Action::Help, "help"@),
        (Action::Quit, "back / quit"@),
    ]
}

/// A key and what it does.
pub open spec fn help_line(key: Seq<char>, text: Seq<char>) -> LineView {
    line_of(
        seq![
            span(
                " "@ + repeated(' ', minus(8, key.len())) + key + "  "@,
                fg_style(Color::Cyan),
            ),
            span(text, plain()),
        ],
    )
}

/// The help lines of the first `n` actions; those without a key are left out.
pub open spec fn help_of(keys: Seq<(Action, Seq<char>)>, n: int) -> Seq<LineView>
    decreases n,
{
    if n <= 0 {
        Seq::empty()
    } else {
        let (action, text) = help_actions()[n - 1];
        let key = hint_from(keys, action, 0);
        if key.len() == 0 {
            help_of(keys, n - 1)
        } else {
            help_of(keys, n - 1).push(help_line(key, text))
        }
    }
}

fn helped() -> (r: Vec<(Action, &'static str)>)
    ensures
        pairs_view(r@) == help_actions(),
{
    let mut v: Vec<(Action, &'static str)> = Vec::new();
    assert(pairs_view(v@) =~= Seq::<(Action, Seq<char>)>::empty());
    offer(&mut v, Action::Down, "move down");
    offer(&mut v, Action::Up, "move up");
    offer(&mut v, Action::Top, "jump to top");
    offer(&mut v, Action::Bottom, "jump to bottom");
    offer(&mut v, Action::Edit, "open in editor");
    offer(&mut v, Action::ToggleScope, "worktree / branch");
    offer(&mut v, Action::Stage, "stage / unstage file");
    offer(&mut v, Action::Discard, "discard changes");
    offer(&mut v, Action::Commit, "commit");
    offer(&mut v, Action::Log, "commit history");
    offer(&mut v, Action::ScrollDown, "scroll diff down");
    offer(&mut v, Action::ScrollUp, "scroll diff up");
    offer(&mut v, Action::HalfPageDown, "half page down");
    offer(&mut v, Action::HalfPageUp, "half page up");
    offer(&mut v, Action::DiffTop, "diff top");
    offer(&mut v, Action::DiffBottom, "diff bottom");
    offer(&mut v, Action::Refresh, "refresh");
    offer(&mut v, Action::Help, "help");
    offer(&mut v, Action::Quit, "back / quit");
    assert(pairs_view(v@) =~= help_actions());
    v
}

/// The lines of the help overlay.
pub fn help_lines(hints: &Hints) -> (r: Vec<Line>)
    ensures
        lines_view(r@) == help_of(hints@, help_actions().len() as int),
{
    let pairs = helped();
    let ghost pv = pairs_view(pairs@);
    let mut out: Vec<Line> = Vec::new();
    let mut i: usize = 0;
    assert(lines_view(out@) =~= Seq::<LineView>::empty());
    while i < pairs.len()
        invariant
            i <= pairs@.len(),
            pv == pairs_view(pairs@),
            pv == help_actions(),
            lines_view(out@) == help_of(hints@, i as int),
        decreases pairs@.len() - i,
    {
        assert(pv[i as int] == (pairs@[i as int].0, pairs@[i as int].1@));
        let key = hints.hint(pairs[i].0);
        if !key.as_str().is_empty() {
            let len = key.as_str().unicode_len();
            let pad: usize = if len < 8 {
                8 - len
            } else {
                0
            };
            let mut text = copy(" ");
            let gap = repeat_char(' ', pad);
            append(&mut text, gap.as_str());
            append(&mut text, key.as_str());
            append(&mut text, "  ");
            let mut spans = no_spans();
            spans.push(styled(text, Style::new().fg(Color::Cyan)));
            spans.push(raw(copy(pairs[i].1)));
            let line = row(spans);
            assert(line@ =~= help_line(key@, pv[i as int].1));
            out.push(line);
        }
        i += 1;
    }
    out
}

/// A rectangle of the terminal.
#[derive(Debug, Clone, Copy, PartialEq, Eq, Structural)]
pub struct Rect {
    pub x: u16,
    pub y: u16,
    pub width: u16,
    pub height: u16,
}

/// A rectangle of at most `w` by `h` in the middle of `area`.
pub fn centered_rect(area: Rect, w: u16, h: u16) -> (r: Rect)
    requires
        area.x + area.width <= u16::MAX,
        area.y + area.height <= u16::MAX,
    ensures
        r.width == (if w < area.width {
            w
        } else {
            area.width
        }),
        r.height == (if h < area.height {
            h
        } else {
            area.height
        }),
        r.x == area.x + (area.width - r.width) / 2,
        r.y == area.y + (area.height - r.height) / 2,
        area.x <= r.x && r.x + r.width <= area.x + area.width,
        area.y <= r.y && r.y + r.height <= area.y + area.height,
{
    let w: u16 = if w < area.width {
        w
    } else {
        area.width
    };
    let h: u16 = if h < area.height {
        h
    } else {
        area.height
    };
    Rect {
        x: area.x + (area.width - w) / 2,
        y: area.y + (area.height - h) / 2,
        width: w,
        height: h,
    }
}

// ---- what a row says -------------------------------------------------------------

proof fn lemma_one(sp: SpanView)
    ensures
        spans_text(seq![sp]) == sp.text,
{
    assert(seq![sp].drop_last() =~= Seq::<SpanView>::empty());
    assert(spans_text(seq![sp].drop_last()) =~= Seq::<char>::empty());
    assert(spans_text(seq![sp]) =~= sp.text);
}

proof fn lemma_then(spans: Seq<SpanView>, sp: SpanView)
    ensures
        spans_text(spans.push(sp)) == spans_text(spans) + sp.text,
{
    assert(spans.push(sp).drop_last() =~= spans);
}

/// The coloured counts say what the counts' text says: added lines behind a plus
/// sign, removed ones behind a minus sign, and only those that there are; where
/// they are unknown, that the file is binary.
pub proof fn law_the_counts_say_what_changed(e: EntryView)
    ensures
        spans_text(stat_spans(e)) == stat_text(e),
        match (e.adds, e.dels) {
            (Some(a), Some(d)) => if a > 0 && d > 0 {
                stat_text(e) == "+"@ + dec(a as nat) + " −"@ + dec(d as nat)
            } else if d > 0 {
                stat_text(e) == "−"@ + dec(d as nat)
            } else {
                stat_text(e) == "+"@ + dec(a as nat)
            },
            _ => stat_text(e) == "bin"@,
        },
{
    reveal_strlit(" −");
    reveal_strlit(" ");
    reveal_strlit("−");
    let spans = stat_spans(e);
    if spans.len() == 1 {
        lemma_one(spans[0]);
        assert(spans =~= seq![spans[0]]);
    } else {
        assert(spans =~= seq![spans[0]].push(spans[1]).push(spans[2]));
        lemma_one(spans[0]);
        lemma_then(seq![spans[0]], spans[1]);
        lemma_then(seq![spans[0]].push(spans[1]), spans[2]);
    }
    if let (Some(a), Some(d)) = (e.adds, e.dels) {
        assert("+"@ + dec(a as nat) + " "@ + ("−"@ + dec(d as nat)) =~= "+"@ + dec(a as nat) + " −"@
            + dec(d as nat));
    }
}

/// The path as far as it is shown in a row of this width.
pub open spec fn shown_part(e: EntryView, width: nat, indent: nat) -> Seq<char> {
    let avail = minus(width, indent + 2 + str_columns(stat_text(e)) as nat + 2);
    elided_head(
        shown_path(e),
        if avail > 0 {
            avail
        } else {
            1
        },
    )
}

/// A file's row says, behind its indent, the letter of its change, its path as
/// far as there is room, and its counts at the right.
pub proof fn law_a_row_says_what_changed(e: EntryView, width: nat, indent: nat)
    ensures
        exists|gap: nat|
            line_text(entry_line(e, width, indent)) == #[trigger] repeated(' ', indent) + seq![
                (match e.kind {
                    ChangeKind::Modified => 'M',
                    ChangeKind::Added => 'A',
                    ChangeKind::Deleted => 'D',
                    ChangeKind::Renamed => 'R',
                    ChangeKind::Untracked => 'U',
                    ChangeKind::Conflicted => '!',
                }),
                ' ',
            ] + shown_part(e, width, indent) + #[trigger] repeated(' ', gap) + stat_text(e),
        shown_path(e) == match e.orig_path {
            Some(orig) => orig + " → "@ + e.path,
            None => e.path,
        },
{
    let left = entry_left(e, width, indent);
    let shown = shown_part(e, width, indent);
    let at = dir_len(shown);
    crate::path::lemma_rfind(shown, '/', shown.len() as int);
    let a = left[0];
    let b = left[1];
    lemma_one(a);
    lemma_then(seq![a], b);
    let head = seq![a].push(b);
    if at > 0 {
        assert(left =~= head.push(left[2]).push(left[3]));
        lemma_then(head, left[2]);
        lemma_then(head.push(left[2]), left[3]);
        assert(shown.take(at) + shown.skip(at) =~= shown);
    } else {
        assert(left =~= head.push(left[2]));
        lemma_then(head, left[2]);
        assert(shown.skip(0) =~= shown);
    }
    assert(spans_text(left) =~= a.text + b.text + shown);
    let gap = minus(width, used_by(left, left.len() as int) + str_columns(stat_text(e)) as nat);
    let pad = span(repeated(' ', gap), plain());
    lemma_then(left, pad);
    lemma_spans_text_concat(left.push(pad), stat_spans(e));
    law_the_counts_say_what_changed(e);
    assert(line_text(entry_line(e, width, indent)) =~= repeated(' ', indent) + b.text + shown
        + repeated(' ', gap) + stat_text(e));
}

proof fn lemma_tail(s: Seq<char>, i: int, left: nat)
    requires
        0 <= i <= s.len(),
    ensures
        0 <= tail_start(s, i, left) <= i,
        sum_cols(s.subrange(tail_start(s, i, left), i)) <= left,
        tail_start(s, i, left) > 0 ==> sum_cols(s.subrange(tail_start(s, i, left) - 1, i)) > left,
    decreases i,
{
    if i > 0 && cols(s[i - 1]) <= left {
        let rest = (left - cols(s[i - 1])) as nat;
        lemma_tail(s, i - 1, rest);
        let k = tail_start(s, i - 1, rest);
        assert(s.subrange(k, i).drop_last() =~= s.subrange(k, i - 1));
        assert(s.subrange(k, i).len() > 0 ==> s.subrange(k, i).last() == s[i - 1]);
        if k > 0 {
            assert(s.subrange(k - 1, i).drop_last() =~= s.subrange(k - 1, i - 1));
            assert(s.subrange(k - 1, i).last() == s[i - 1]);
        }
    } else {
        assert(s.subrange(i, i).len() == 0);
        if i > 0 {
            let one = s.subrange(i - 1, i);
            assert(one.drop_last().len() == 0);
            assert(one.last() == s[i - 1]);
        }
    }
}

/// A path that is too long keeps its end behind an ellipsis, as much of it as
/// fits; one that fits is kept whole.
pub proof fn law_a_long_path_keeps_its_end(s: Seq<char>, max: nat)
    requires
        max >= 1,
    ensures
        str_columns(s) <= max ==> elided_head(s, max) == s,
        str_columns(s) > max ==> ({
            let kept = elided_head(s, max).drop_first();
            let from = s.len() - kept.len();
            &&& elided_head(s, max)[0] == '…'
            &&& 0 <= from
            &&& kept == s.skip(from)
            &&& sum_cols(kept) + 1 <= max
            &&& from > 0 ==> sum_cols(s.skip(from - 1)) + 1 > max
        }),
{
    if str_columns(s) > max {
        reveal_strlit("…");
        let n = s.len() as int;
        let k = tail_start(s, n, (max - 1) as nat);
        lemma_tail(s, n, (max - 1) as nat);
        let e = elided_head(s, max);
        assert("…"@.len() == 1 && "…"@[0] == '…');
        assert(e.drop_first() =~= s.skip(k));
        assert(s.subrange(k, n) =~= s.skip(k));
        if k > 0 {
            assert(s.subrange(k - 1, n) =~= s.skip(k - 1));
        }
    }
}

/// The directory of a path ends in its last slash, and the name holds none.
pub proof fn law_the_directory_ends_in_a_slash(s: Seq<char>)
    ensures
        0 <= dir_len(s) <= s.len(),
        dir_len(s) > 0 ==> s[dir_len(s) - 1] == '/',
        !s.skip(dir_len(s)).contains('/'),
{
    crate::path::lemma_rfind(s, '/', s.len() as int);
    let at = dir_len(s);
    let name = s.skip(at);
    assert forall|k: int| 0 <= k < name.len() implies name[k] != '/' by {
        assert(name[k] == s[at + k]);
    }
}

/// A commit's row says its short id, its subject as far as there is room, and
/// its date.
pub proof fn law_a_commit_row_says_which(c: CommitView, width: nat)
    ensures
        exists|gap: nat, room: nat|
            line_text(commit_line(c, width)) == " "@ + c.short + " "@ + #[trigger] elided(
                c.subject,
                room,
            ) + #[trigger] repeated(' ', gap) + c.date + " "@,
{
    let spans = commit_line(c, width).spans;
    let a = spans[0];
    lemma_one(a);
    lemma_then(seq![a], spans[1]);
    lemma_then(seq![a].push(spans[1]), spans[2]);
    lemma_then(seq![a].push(spans[1]).push(spans[2]), spans[3]);
    assert(spans =~= seq![a].push(spans[1]).push(spans[2]).push(spans[3]));
    let short = " "@ + c.short + " "@;
    let date = c.date + " "@;
    let room = minus(width, str_columns(short) as nat + str_columns(date) as nat + 1);
    let subject = elided(c.subject, room);
    let gap = minus(
        width,
        str_columns(short) as nat + str_columns(subject) as nat + str_columns(date) as nat,
    );
    assert(line_text(commit_line(c, width)) =~= " "@ + c.short + " "@ + elided(c.subject, room)
        + repeated(' ', gap) + c.date + " "@);
}

/// A message is shown in the footer while it is fresh, and the keys from then on.
pub proof fn law_a_fresh_message_is_shown(
    s: AppView,
    keys: Seq<(Action, Seq<char>)>,
    now: u64,
    msg: Seq<char>,
    at: u64,
)
    requires
        s.status_msg == Some((msg, at)),
    ensures
        now - at < STATUS_MS ==> line_text(footer_of(s, keys, now)) == " "@ + msg,
        now - at >= STATUS_MS ==> footer_of(s, keys, now) == footer_of(
            AppView { status_msg: None, ..s },
            keys,
            now,
        ),
{
    if now - at < STATUS_MS {
        lemma_one(footer_of(s, keys, now).spans[0]);
        assert(footer_of(s, keys, now).spans =~= seq![footer_of(s, keys, now).spans[0]]);
    }
}

/// The help tells the key of every action that has one.
pub proof fn law_help_tells_every_key(keys: Seq<(Action, Seq<char>)>, n: int, i: int)
    requires
        0 <= i < n <= help_actions().len(),
        hint_from(keys, help_actions()[i].0, 0).len() > 0,
    ensures
        exists|k: int|
            0 <= k < help_of(keys, n).len() && line_text(#[trigger] help_of(keys, n)[k]) == " "@
                + repeated(' ', minus(8, hint_from(keys, help_actions()[i].0, 0).len()))
                + hint_from(keys, help_actions()[i].0, 0) + "  "@ + help_actions()[i].1,
    decreases n,
{
    let key = hint_from(keys, help_actions()[i].0, 0);
    let before = help_of(keys, n - 1);
    let now = help_of(keys, n);
    let said = " "@ + repeated(' ', minus(8, key.len())) + key + "  "@ + help_actions()[i].1;
    if i < n - 1 {
        law_help_tells_every_key(keys, n - 1, i);
        let k = choose|k: int| 0 <= k < before.len() && line_text(#[trigger] before[k]) == said;
        assert(now[k] == before[k]);
    } else {
        let line = help_line(key, help_actions()[i].1);
        lemma_one(line.spans[0]);
        lemma_then(seq![line.spans[0]], line.spans[1]);
        assert(line.spans =~= seq![line.spans[0]].push(line.spans[1]));
        assert(line_text(line) =~= said);
        assert(now[now.len() - 1] == line);
    }
}

/// The header ends in how many there are of what is shown, and the heading
/// before it gives way to it.
pub proof fn law_the_header_ends_in_the_tally(s: AppView, width: nat)
    ensures
        exists|gap: nat, room: nat|
            line_text(header_of(s, width)) == #[trigger] elided(heading(s), room) + #[trigger] repeated(
                ' ',
                gap,
            ) + tally(s),
{
    let spans = header_of(s, width).spans;
    lemma_one(spans[0]);
    lemma_then(seq![spans[0]], spans[1]);
    lemma_then(seq![spans[0]].push(spans[1]), spans[2]);
    assert(spans =~= seq![spans[0]].push(spans[1]).push(spans[2]));
    let right = tally(s);
    let cut = minus(width, str_columns(right) as nat + 1);
    let left = elided(heading(s), cut);
    let gap = room(width, left, right);
    assert(line_text(header_of(s, width)) =~= elided(heading(s), cut) + repeated(' ', gap) + right);
}

} // verus!
