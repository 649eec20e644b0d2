//! The popups of the review-notes flow: a note input that wraps and scrolls,
//! and the choice of the agent that the notes are sent to.
use crate::input::{Key, KeyCode, KeyKind};
use crate::preview::card::{minus, text_row};
use crate::preview::compose::{composed, type_key, Outcome};
use crate::preview::session::picked;
use crate::style::{
    dim_style, lemma_lines_push, lemma_spans_push, line_of, lines_view, plain, raw, repeat_char,
    repeated, span, spans_text, styled, Color, Line, LineView, Span, SpanView, Style,
};
use crate::text::{
    append, append_dec, byte_len, char_len, chars_of, copy, dec, find_from, lemma_byte_len_mono,
    same, string_of, utf8_len,
};
use crate::textarea::{
    byte_rows, elide_tail, elided, law_rows_partition_the_text, law_the_caret_is_on_its_row,
    layout_rows, partition, Editing, TextArea,
};
use crate::width::{str_columns, str_width};
use std::ops::Range;
use vstd::prelude::*;

verus! {

broadcast use {vstd::string::group_string_axioms, lemma_lines_push, lemma_spans_push};

/// Popup size for the note input, shared by every caller so that the wrapping
/// width is predictable. Tall enough for a few sentences; longer notes scroll
/// rather than disappearing.
pub const NOTE_POPUP_SIZE: (u16, u16) = (72, 14);

/// The footer keys. `ctrl+j` is spelled out next to `shift+enter` because only
/// some terminals can report the latter; elsewhere it arrives as a plain enter.
pub const HINT: &'static str = "enter save · shift+enter / ctrl+j newline · esc cancel";

// ---- prefilled text --------------------------------------------------------------

/// A character as it travels: newlines cannot ride in an environment value.
pub open spec fn escape(c: char) -> Seq<char> {
    if c == '\\' {
        seq!['\\', '\\']
    } else if c == '\n' {
        seq!['\\', 'n']
    } else {
        seq![c]
    }
}

/// The text as it travels.
pub open spec fn encoded(s: Seq<char>) -> Seq<char>
    decreases s.len(),
{
    if s.len() == 0 {
        Seq::empty()
    } else {
        encoded(s.drop_last()) + escape(s.last())
    }
}

/// The text from position `i` on, as it was before it travelled. A backslash
/// that escapes nothing stands for itself.
pub open spec fn decoded(s: Seq<char>, i: int) -> Seq<char>
    decreases s.len() - i,
{
    if i < 0 || i >= s.len() {
        Seq::empty()
    } else if s[i] != '\\' {
        seq![s[i]] + decoded(s, i + 1)
    } else if i + 1 >= s.len() {
        seq!['\\']
    } else if s[i + 1] == 'n' {
        seq!['\n'] + decoded(s, i + 2)
    } else if s[i + 1] == '\\' {
        seq!['\\'] + decoded(s, i + 2)
    } else {
        seq!['\\', s[i + 1]] + decoded(s, i + 2)
    }
}

/// Newlines travel as `\n`.
pub fn encode_prefill(text: &str) -> (r: String)
    ensures
        r@ == encoded(text@),
{
    let cs = chars_of(text);
    let mut out = String::new();
    let mut i: usize = 0;
    assert(cs@.take(0) =~= Seq::<char>::empty());
    assert(out@ =~= Seq::<char>::empty());
    while i < cs.len()
        invariant
            i <= cs@.len(),
            cs@ == text@,
            out@ == encoded(cs@.take(i as int)),
        decreases cs@.len() - i,
    {
        let ghost before = out@;
        proof {
            assert(cs@.take(i + 1).drop_last() =~= cs@.take(i as int));
            assert(cs@.take(i + 1).last() == cs@[i as int]);
        }
        if cs[i] == '\\' {
            out.push('\\');
            out.push('\\');
        } else if cs[i] == '\n' {
            out.push('\\');
            out.push('n');
        } else {
            out.push(cs[i]);
        }
        assert(out@ =~= before + escape(cs@[i as int]));
        i += 1;
    }
    assert(cs@.take(i as int) =~= cs@);
    out
}

/// Inverse of [`encode_prefill`].
pub fn decode_prefill(text: &str) -> (r: String)
    ensures
        r@ == decoded(text@, 0),
{
    let cs = chars_of(text);
    let mut out = String::new();
    let mut i: usize = 0;
    assert(out@ + decoded(cs@, 0) =~= decoded(cs@, 0));
    while i < cs.len()
        invariant
            i <= cs@.len(),
            cs@ == text@,
            out@ + decoded(cs@, i as int) == decoded(cs@, 0),
        decreases cs@.len() - i,
    {
        let ghost before = out@;
        let ghost at = i as int;
        if cs[i] != '\\' {
            out.push(cs[i]);
            i += 1;
            assert(out@ + decoded(cs@, at + 1) =~= before + (seq![cs@[at]] + decoded(cs@, at + 1)));
        } else if cs.len() - i < 2 {
            out.push('\\');
            i += 1;
            assert(out@ + decoded(cs@, at + 1) =~= before + seq!['\\']);
        } else {
            let next = cs[i + 1];
            if next == 'n' {
                out.push('\n');
                assert(out@ + decoded(cs@, at + 2) =~= before + (seq!['\n'] + decoded(
                    cs@,
                    at + 2,
                )));
            } else if next == '\\' {
                out.push('\\');
                assert(out@ + decoded(cs@, at + 2) =~= before + (seq!['\\'] + decoded(
                    cs@,
                    at + 2,
                )));
            } else {
                out.push('\\');
                out.push(next);
                assert(out@ + decoded(cs@, at + 2) =~= before + (seq!['\\', next] + decoded(
                    cs@,
                    at + 2,
                )));
            }
            i += 2;
        }
    }
    assert(out@ + Seq::<char>::empty() =~= out@);
    out
}

/// `encoded(a)` in front of anything decodes to `a` and what the rest decodes
/// to.
proof fn lemma_decode_behind(a: Seq<char>, rest: Seq<char>)
    ensures
        decoded(encoded(a) + rest, 0) == a + decoded(encoded(a) + rest, encoded(a).len() as int),
    decreases a.len(),
{
    if a.len() == 0 {
        assert(encoded(a) + rest =~= rest);
        assert(a + decoded(rest, 0) =~= decoded(rest, 0));
    } else {
        let head = a.drop_last();
        let c = a.last();
        let tail = escape(c) + rest;
        lemma_decode_behind(head, tail);
        let whole = encoded(a) + rest;
        assert(encoded(head) + tail =~= whole);
        let k = encoded(head).len() as int;
        assert(whole[k] == escape(c)[0]);
        if c == '\\' || c == '\n' {
            assert(whole[k + 1] == escape(c)[1]);
        }
        assert(decoded(whole, k) == seq![c] + decoded(whole, encoded(a).len() as int));
        assert(head + (seq![c] + decoded(whole, encoded(a).len() as int)) =~= a + decoded(
            whole,
            encoded(a).len() as int,
        ));
    }
}

/// What travels comes back as it was, and travels without a newline.
pub proof fn law_prefilled_text_survives(s: Seq<char>)
    ensures
        decoded(encoded(s), 0) == s,
        !encoded(s).contains('\n'),
{
    lemma_decode_behind(s, Seq::empty());
    assert(encoded(s) + Seq::<char>::empty() =~= encoded(s));
    assert(s + Seq::<char>::empty() =~= s);
    lemma_no_newline(s);
}

proof fn lemma_no_newline(s: Seq<char>)
    ensures
        !encoded(s).contains('\n'),
    decreases s.len(),
{
    if s.len() > 0 {
        lemma_no_newline(s.drop_last());
        let head = encoded(s.drop_last());
        assert forall|k: int| 0 <= k < encoded(s).len() implies encoded(s)[k] != '\n' by {
            if k < head.len() {
                assert(encoded(s)[k] == head[k]);
                assert(head.contains(head[k]));
            } else {
                assert(encoded(s)[k] == escape(s.last())[k - head.len()]);
            }
        }
    }
}

// ---- the note input ----------------------------------------------------------------

/// What of the rows is visible: the window moves the smallest amount that
/// keeps the caret's row in it.
pub open spec fn window_top(scroll: int, caret_row: int, height: int, rows: int) -> int {
    let up = if scroll < caret_row {
        scroll
    } else {
        caret_row
    };
    let down = if caret_row >= up + height {
        caret_row + 1 - height
    } else {
        up
    };
    if down < rows - 1 {
        down
    } else if rows > 0 {
        rows - 1
    } else {
        0
    }
}

/// The caret's row is always inside the window.
pub proof fn law_the_caret_stays_in_the_window(
    scroll: int,
    caret_row: int,
    height: int,
    rows: int,
)
    requires
        0 <= scroll,
        0 <= caret_row < rows,
        height >= 1,
    ensures
        ({
            let top = window_top(scroll, caret_row, height, rows);
            0 <= top <= caret_row < top + height
        }),
{
}

/// The visible rows: first, end, and whether rows are hidden above and below.
#[derive(Debug, Clone, Copy, PartialEq, Eq, Structural)]
pub struct Window {
    pub top: usize,
    pub end: usize,
    pub above: bool,
    pub below: bool,
}

/// Scroll the window of `height` rows so that the caret's row is in it.
pub fn scroll_window(scroll: usize, caret_row: usize, height: usize, rows: usize) -> (r: Window)
    requires
        caret_row < rows,
        height >= 1,
    ensures
        r.top == window_top(scroll as int, caret_row as int, height as int, rows as int),
        r.end == (if r.top + height < rows {
            r.top + height
        } else {
            rows as int
        }),
        r.above == (r.top > 0),
        r.below == (r.end < rows),
        r.top <= caret_row < r.end,
{
    let mut top: usize = if scroll < caret_row {
        scroll
    } else {
        caret_row
    };
    if caret_row - top >= height {
        top = caret_row - (height - 1);
    }
    if top > rows - 1 {
        top = rows - 1;
    }
    let end: usize = if height < rows - top {
        top + height
    } else {
        rows
    };
    Window { top, end, above: top > 0, below: end < rows }
}

/// A key in the note input: the text once it is finished (empty = cancelled).
pub fn note_key(input: &mut TextArea, ev: Key, width: usize) -> (r: Option<String>)
    ensures
        ev.kind != KeyKind::Press ==> r is None && final(input)@ == old(input)@,
        ev.kind == KeyKind::Press ==> final(input)@ == composed(old(input)@, ev, width as nat).1,
        ev.kind == KeyKind::Press ==> (match composed(old(input)@, ev, width as nat).0 {
            Outcome::Save => r matches Some(s) && s@ == old(input)@.text,
            Outcome::Cancel => r matches Some(s) && s@ == Seq::<char>::empty(),
            Outcome::Edited | Outcome::Ignored => r is None,
        }),
{
    if ev.kind != KeyKind::Press {
        return None;
    }
    match type_key(input, ev, width) {
        Outcome::Save => Some(copy(input.text())),
        Outcome::Cancel => {
            let none = String::new();
            assert(none@ =~= Seq::<char>::empty());
            Some(none)
        },
        Outcome::Edited | Outcome::Ignored => None,
    }
}

/// The first character position from `i` on that stands at byte `b` or later.
pub open spec fn char_pos(s: Seq<char>, b: int, i: int) -> int
    decreases s.len() - i,
{
    if i >= s.len() || byte_len(s.take(i)) >= b {
        i
    } else {
        char_pos(s, b, i + 1)
    }
}

/// Whether byte `b` starts a character of `s` or ends it.
pub open spec fn boundary(s: Seq<char>, b: int) -> bool {
    byte_len(s.take(char_pos(s, b, 0))) == b
}

proof fn lemma_char_pos(s: Seq<char>, b: int, i: int, k: int)
    requires
        0 <= i <= k <= s.len(),
        byte_len(s.take(k)) == b,
    ensures
        char_pos(s, b, i) == k,
    decreases s.len() - i,
{
    if i < k {
        lemma_byte_len_mono(s, i, k);
        lemma_char_pos(s, b, i + 1, k);
    }
}

proof fn lemma_char_pos_bounds(s: Seq<char>, b: int, i: int)
    requires
        0 <= i <= s.len(),
    ensures
        i <= char_pos(s, b, i) <= s.len(),
    decreases s.len() - i,
{
    if i < s.len() && byte_len(s.take(i)) < b {
        lemma_char_pos_bounds(s, b, i + 1);
    }
}

fn find_pos(cs: &Vec<char>, b: usize) -> (r: usize)
    ensures
        r == char_pos(cs@, b as int, 0),
        r <= cs@.len(),
{
    let mut i: usize = 0;
    let mut seen: usize = 0;
    assert(cs@.take(0) =~= Seq::<char>::empty());
    while i < cs.len() && seen < b
        invariant
            i <= cs@.len(),
            seen == byte_len(cs@.take(i as int)),
            char_pos(cs@, b as int, 0) == char_pos(cs@, b as int, i as int),
        decreases cs@.len() - i,
    {
        let n = char_len(cs[i]);
        assert(cs@.take(i + 1).drop_last() =~= cs@.take(i as int));
        if n > usize::MAX - seen {
            // The rest lies past any byte position.
            proof {
                lemma_far(cs@, b as int, i as int);
            }
            return i + 1;
        }
        seen += n;
        i += 1;
    }
    i
}

proof fn lemma_far(s: Seq<char>, b: int, i: int)
    requires
        0 <= i < s.len(),
        byte_len(s.take(i)) < b,
        byte_len(s.take(i)) + utf8_len(s[i]) > usize::MAX,
        b <= usize::MAX,
    ensures
        char_pos(s, b, i) == i + 1,
{
    assert(s.take(i + 1).drop_last() =~= s.take(i));
    assert(byte_len(s.take(i + 1)) >= b);
    assert(char_pos(s, b, i + 1) == i + 1);
}

/// Spans with a space in front of the first.
pub open spec fn led(spans: Seq<SpanView>) -> Seq<SpanView> {
    spans.update(0, span(" "@ + spans[0].text, spans[0].style))
}

/// One row of the input, with the caret drawn when it sits on this row.
pub open spec fn input_row(e: Editing, row: Range<usize>, has_caret: bool) -> LineView {
    line_of(
        led(
            text_row(
                e.text,
                char_pos(e.text, row.start as int, 0),
                char_pos(e.text, row.end as int, 0),
                e.at,
                has_caret,
            ),
        ),
    )
}

/// One visual row, with the caret drawn as a reversed cell when it sits on
/// this row (so that it shows mid-text, not just at the end).
pub fn render_row(input: &TextArea, row: &Range<usize>, has_caret: bool) -> (r: Line)
    requires
        row.start <= row.end,
        boundary(input@.text, row.start as int),
        boundary(input@.text, row.end as int),
        has_caret ==> row.start <= byte_len(input@.text.take(input@.at)) <= row.end,
    ensures
        r@ == input_row(input@, *row, has_caret),
{
    let cs = chars_of(input.text());
    let a = find_pos(&cs, row.start);
    let b = find_pos(&cs, row.end);
    let at = input.position();
    proof {
        let s = input@.text;
        if b < a {
            lemma_byte_len_mono(s, b as int, a as int);
        }
        if has_caret {
            if at < a {
                lemma_byte_len_mono(s, at as int, a as int);
            }
            if b < at {
                lemma_byte_len_mono(s, b as int, at as int);
            }
        }
    }
    let mut spans: Vec<Span> = Vec::new();
    let mut first = copy(" ");
    if !has_caret {
        let text = string_of(&cs, a, b);
        append(&mut first, text.as_str());
        spans.push(raw(first));
    } else {
        let look = Style::new().reversed();
        let before = string_of(&cs, a, at);
        append(&mut first, before.as_str());
        spans.push(raw(first));
        if at < b {
            let mut under = String::new();
            under.push(cs[at]);
            assert(under@ =~= seq![input@.text[at as int]]);
            spans.push(styled(under, look));
            spans.push(raw(string_of(&cs, at + 1, b)));
        } else {
            spans.push(styled(copy(" "), look));
            let none = String::new();
            assert(none@ =~= Seq::<char>::empty());
            spans.push(raw(none));
        }
    }
    let line = Line { spans, style: Style::new() };
    assert(line@ =~= input_row(input@, *row, has_caret));
    line
}

/// The rows of a layout are rows that can be drawn.
pub proof fn law_layout_rows_can_be_drawn(s: Seq<char>, a: int)
    requires
        0 <= a <= s.len(),
    ensures
        boundary(s, byte_len(s.take(a)) as int),
        char_pos(s, byte_len(s.take(a)) as int, 0) == a,
{
    lemma_char_pos(s, byte_len(s.take(a)) as int, 0, a);
}

/// A row of the input, from character `row.0` to `row.1`.
pub open spec fn drawn_row(e: Editing, row: (int, int), has_caret: bool) -> LineView {
    line_of(led(text_row(e.text, row.0, row.1, e.at, has_caret)))
}

/// The visible rows of the input, at `width` columns.
pub open spec fn drawn_rows(e: Editing, width: nat, top: int, end: int) -> Seq<LineView> {
    let rows = layout_rows(e.text, width);
    Seq::new((end - top) as nat, |i: int| drawn_row(e, rows[top + i], top + i == e.row(width)))
}

/// Draw the input into `height` rows of `width` columns, scrolled from `scroll`
/// so that the caret is visible.
pub fn note_rows(input: &TextArea, scroll: usize, width: usize, height: usize) -> (r: (
    Vec<Line>,
    Window,
))
    requires
        height >= 1,
    ensures
        ({
            let rows = layout_rows(input@.text, width as nat).len() as int;
            &&& r.1.top == window_top(
                scroll as int,
                input@.row(width as nat),
                height as int,
                rows,
            )
            &&& r.1.end == (if r.1.top + height < rows {
                r.1.top + height
            } else {
                rows
            })
            &&& r.1.above == (r.1.top > 0)
            &&& r.1.below == (r.1.end < rows)
        }),
        lines_view(r.0@) == drawn_rows(
            input@,
            width as nat,
            r.1.top as int,
            r.1.end as int,
        ),
{
    let ghost e = input@;
    let ghost all = layout_rows(e.text, width as nat);
    let caret_row = input.rows(width).1;
    let rows = input.layout(width);
    proof {
        law_the_caret_is_on_its_row(e.text, e.at, width as nat);
        law_rows_partition_the_text(e.text, width as nat);
    }
    let window = scroll_window(scroll, caret_row, height, rows.len());
    let mut out: Vec<Line> = Vec::new();
    let mut i = window.top;
    assert(lines_view(out@) =~= drawn_rows(e, width as nat, window.top as int, i as int));
    while i < window.end
        invariant
            window.top <= i <= window.end <= rows@.len(),
            e == input@,
            e.wf(),
            all == layout_rows(e.text, width as nat),
            byte_rows(e.text, all, rows@),
            partition(e.text, all, 0),
            caret_row == e.row(width as nat),
            0 <= caret_row < all.len(),
            all[caret_row as int].0 <= e.at <= all[caret_row as int].1,
            lines_view(out@) == drawn_rows(e, width as nat, window.top as int, i as int),
        decreases window.end - i,
    {
        let ghost row = all[i as int];
        proof {
            assert(0 <= row.0 <= row.1 <= e.text.len());
            law_layout_rows_can_be_drawn(e.text, row.0);
            law_layout_rows_can_be_drawn(e.text, row.1);
            lemma_byte_len_mono(e.text, row.0, row.1);
            if i == caret_row {
                lemma_byte_len_mono(e.text, row.0, e.at);
                lemma_byte_len_mono(e.text, e.at, row.1);
            }
        }
        let line = render_row(input, &rows[i], i == caret_row);
        assert(line@ == drawn_row(e, row, i == caret_row));
        out.push(line);
        i += 1;
        assert(lines_view(out@) =~= drawn_rows(e, width as nat, window.top as int, i as int));
    }
    (out, window)
}

/// The counter and the markers for rows scrolled out of view.
pub open spec fn input_meta(e: Editing, above: bool, below: bool) -> Seq<char> {
    let count = if e.text.len() == 0 {
        Seq::empty()
    } else {
        dec(e.text.len()) + " chars "@
    };
    if above && below {
        count + "↑↓ "@
    } else if above {
        count + "↑ "@
    } else if below {
        count + "↓ "@
    } else {
        count
    }
}

/// The title row: the note's anchor on the left, the counter and markers on
/// the right.
pub open spec fn input_header(
    title: Seq<char>,
    e: Editing,
    above: bool,
    below: bool,
    width: nat,
) -> LineView {
    let full = input_meta(e, above, below);
    let meta = if str_columns(full) > width {
        elided(full, width)
    } else {
        full
    };
    let left = elided(" "@ + title, minus(width, str_columns(meta) as nat + 1));
    let pad = minus(width, (str_columns(left) + str_columns(meta)) as nat);
    line_of(
        seq![
            span(left, Style { bold: true, ..plain() }),
            span(repeated(' ', pad), plain()),
            span(meta, dim_style()),
        ],
    )
}

fn meta_of(input: &TextArea, above: bool, below: bool) -> (r: String)
    ensures
        r@ == input_meta(input@, above, below),
{
    let mut meta = String::new();
    assert(meta@ =~= Seq::<char>::empty());
    if !input.is_empty() {
        append_dec(&mut meta, input.char_count() as u64);
        append(&mut meta, " chars ");
        assert(meta@ =~= dec(input@.text.len()) + " chars "@);
    }
    if above && below {
        append(&mut meta, "↑↓ ");
    } else if above {
        append(&mut meta, "↑ ");
    } else if below {
        append(&mut meta, "↓ ");
    }
    meta
}

/// The title row: the note's anchor on the left, and on the right a character
/// count and markers for rows scrolled out of view. A very narrow popup keeps
/// the counter and loses the anchor, not both.
pub fn header_line(
    title: &str,
    input: &TextArea,
    above: bool,
    below: bool,
    width: u16,
) -> (r: Line)
    ensures
        r@ == input_header(title@, input@, above, below, width as nat),
{
    let width: usize = width as usize;
    let full = meta_of(input, above, below);
    let meta = if str_width(full.as_str()) > width {
        elide_tail(full.as_str(), width)
    } else {
        full
    };
    let mw = str_width(meta.as_str());
    let mut lead = copy(" ");
    append(&mut lead, title);
    let left = elide_tail(lead.as_str(), width.saturating_sub(mw).saturating_sub(1));
    let pad = width.saturating_sub(str_width(left.as_str())).saturating_sub(mw);
    let mut spans: Vec<Span> = Vec::new();
    spans.push(styled(left, Style::new().bold()));
    spans.push(raw(repeat_char(' ', pad)));
    spans.push(styled(meta, Style::new().dim()));
    let line = Line { spans, style: Style::new() };
    assert(line@ =~= input_header(title@, input@, above, below, width as nat));
    line
}

// ---- choosing an agent -----------------------------------------------------------

/// An agent pane of the workspace.
#[derive(Debug)]
pub struct Agent {
    pub pane: String,
    pub agent: String,
    pub status: String,
    pub tab: String,
    pub cwd: String,
}

#[verifier::ext_equal]
pub struct AgentView {
    pub pane: Seq<char>,
    pub agent: Seq<char>,
    pub status: Seq<char>,
    pub tab: Seq<char>,
    pub cwd: Seq<char>,
}

impl View for Agent {
    type V = AgentView;

    open spec fn view(&self) -> AgentView {
        AgentView {
            pane: self.pane@,
            agent: self.agent@,
            status: self.status@,
            tab: self.tab@,
            cwd: self.cwd@,
        }
    }
}

pub open spec fn agents_view(s: Seq<Agent>) -> Seq<AgentView> {
    s.map_values(|a: Agent| a@)
}

pub open spec fn status_color(status: Seq<char>) -> Color {
    if status == "idle"@ {
        Color::Green
    } else if status == "working"@ {
        Color::Yellow
    } else {
        Color::DarkGray
    }
}

pub fn color_for_status(status: &str) -> (r: Color)
    ensures
        r == status_color(status@),
{
    if same(status, "idle") {
        Color::Green
    } else if same(status, "working") {
        Color::Yellow
    } else {
        Color::DarkGray
    }
}

/// An agent's row in the picker.
pub open spec fn agent_line(a: AgentView) -> LineView {
    let head = seq![
        span("  "@ + a.agent, Style { bold: true, ..plain() }),
        span(" · "@ + a.status, Style { fg: Some(status_color(a.status)), ..plain() }),
    ];
    let tab = if a.tab.len() == 0 {
        head
    } else {
        head.push(span("  tab: "@ + a.tab, plain()))
    };
    let cwd = if a.cwd.len() == 0 {
        tab
    } else {
        tab.push(span("  "@ + a.cwd, dim_style()))
    };
    line_of(cwd.push(span("  "@ + a.pane, dim_style())))
}

fn led_by(lead: &str, text: &str) -> (r: String)
    ensures
        r@ == lead@ + text@,
{
    let mut s = copy(lead);
    append(&mut s, text);
    s
}

pub fn agent_row(a: &Agent) -> (r: Line)
    ensures
        r@ == agent_line(a@),
{
    let mut spans: Vec<Span> = Vec::new();
    spans.push(styled(led_by("  ", a.agent.as_str()), Style::new().bold()));
    spans.push(
        styled(
            led_by(" · ", a.status.as_str()),
            Style::new().fg(color_for_status(a.status.as_str())),
        ),
    );
    if !a.tab.as_str().is_empty() {
        spans.push(raw(led_by("  tab: ", a.tab.as_str())));
    }
    if !a.cwd.as_str().is_empty() {
        spans.push(styled(led_by("  ", a.cwd.as_str()), Style::new().dim()));
    }
    spans.push(styled(led_by("  ", a.pane.as_str()), Style::new().dim()));
    let line = Line { spans, style: Style::new() };
    assert(line@ =~= agent_line(a@));
    line
}

/// The picker's answer: a pane, and whether to place or to submit.
pub open spec fn answer_for(a: AgentView, submit: bool) -> Seq<char> {
    a.pane + (if submit {
        "\tsubmit"@
    } else {
        "\tplace"@
    })
}

/// A key in the picker: where the cursor goes, and the answer once there is
/// one. Enter places the notes in the agent's prompt, with shift or ctrl it
/// submits them too.
pub open spec fn picker_keyed(agents: Seq<AgentView>, cursor: int, key: Key) -> (
    int,
    Option<Seq<char>>,
) {
    match key.code {
        KeyCode::Enter => (cursor, Some(answer_for(agents[cursor], key.shift || key.ctrl))),
        KeyCode::Down | KeyCode::Char('j') => (
            if cursor + 1 < agents.len() {
                cursor + 1
            } else {
                cursor
            },
            None,
        ),
        KeyCode::Up | KeyCode::Char('k') => (
            if cursor > 0 {
                cursor - 1
            } else {
                0
            },
            None,
        ),
        KeyCode::Esc | KeyCode::Char('q') => (cursor, Some("cancel"@)),
        _ => (cursor, None),
    }
}

fn answer_of(a: &Agent, submit: bool) -> (r: String)
    ensures
        r@ == answer_for(a@, submit),
{
    let mut s = copy(a.pane.as_str());
    append(
        &mut s,
        if submit {
            "\tsubmit"
        } else {
            "\tplace"
        },
    );
    s
}

/// A key in the picker, with the cursor on one of the agents.
pub fn picker_key(agents: &Vec<Agent>, cursor: usize, key: Key) -> (r: (usize, Option<String>))
    requires
        cursor < agents@.len(),
    ensures
        r.0 < agents@.len(),
        (match r.1 {
            Some(s) => picker_keyed(agents_view(agents@), cursor as int, key) == (
                r.0 as int,
                Some(s@),
            ),
            None => picker_keyed(agents_view(agents@), cursor as int, key) == (
                r.0 as int,
                None::<Seq<char>>,
            ),
        }),
{
    assert(agents_view(agents@)[cursor as int] == agents@[cursor as int]@);
    match key.code {
        KeyCode::Enter => (cursor, Some(answer_of(&agents[cursor], key.shift || key.ctrl))),
        KeyCode::Down | KeyCode::Char('j') => (
            if agents.len() - cursor > 1 {
                cursor + 1
            } else {
                cursor
            },
            None,
        ),
        KeyCode::Up | KeyCode::Char('k') => (cursor.saturating_sub(1), None),
        KeyCode::Esc | KeyCode::Char('q') => (cursor, Some(copy("cancel"))),
        _ => (cursor, None),
    }
}

/// A left click at terminal row `y` (the rows start under the title): a click
/// on the row of the cursor chooses it.
pub fn picker_click(agents: &Vec<Agent>, cursor: usize, y: u16) -> (r: (usize, Option<String>))
    requires
        cursor < agents@.len(),
    ensures
        ({
            let at = minus(y as nat, 1);
            &&& r.0 == (if at < agents@.len() {
                at as int
            } else {
                cursor as int
            })
            &&& (match r.1 {
                Some(s) => at == cursor && s@ == answer_for(
                    agents_view(agents@)[cursor as int],
                    false,
                ),
                None => at != cursor,
            })
        }),
{
    assert(agents_view(agents@)[cursor as int] == agents@[cursor as int]@);
    let at: usize = y.saturating_sub(1) as usize;
    if at >= agents.len() {
        return (cursor, None);
    }
    if at == cursor {
        return (cursor, Some(answer_of(&agents[cursor], false)));
    }
    (at, None)
}

// ---- what the picker answers ---------------------------------------------------

proof fn lemma_first_found(s: Seq<char>, c: char, from: int, at: int)
    requires
        0 <= from <= at < s.len(),
        s[at] == c,
        forall|k: int| from <= k < at ==> s[k] != c,
    ensures
        find_from(s, c, from) == at,
    decreases at - from,
{
    if from < at {
        lemma_first_found(s, c, from + 1, at);
    }
}

/// What the picker answers is read as the chosen agent's pane, and whether to
/// submit. Panes go by names without tabs.
pub proof fn law_the_answer_names_the_chosen_pane(a: AgentView, submit: bool)
    requires
        !a.pane.contains('\t'),
    ensures
        picked(answer_for(a, submit)) == Some((a.pane, submit)),
{
    reveal_strlit("\tsubmit");
    reveal_strlit("\tplace");
    reveal_strlit("submit");
    reveal_strlit("cancel");
    let mode = if submit {
        "\tsubmit"@
    } else {
        "\tplace"@
    };
    let s = answer_for(a, submit);
    let at = a.pane.len() as int;
    assert(s[at] == mode[0]);
    assert(mode[0] == '\t');
    assert forall|k: int| 0 <= k < at implies s[k] != '\t' by {
        assert(s[k] == a.pane[k]);
        assert(a.pane.contains(a.pane[k]));
    }
    lemma_first_found(s, '\t', 0, at);
    assert(s.take(at) =~= a.pane);
    assert(s.skip(at + 1) =~= mode.skip(1));
    if s == "cancel"@ {
        assert("cancel"@.contains('\t'));
    }
    if submit {
        assert(mode.skip(1) =~= "submit"@);
    } else {
        assert(mode.skip(1).len() == 5);
        assert("submit"@.len() == 6);
    }
}

/// Enter chooses the agent that the cursor is on, and submits with shift or
/// ctrl. The way out chooses none, and no other key answers.
pub proof fn law_enter_chooses_under_the_cursor(agents: Seq<AgentView>, cursor: int, key: Key)
    requires
        0 <= cursor < agents.len(),
        !agents[cursor].pane.contains('\t'),
    ensures
        ({
            let (to, answer) = picker_keyed(agents, cursor, key);
            &&& 0 <= to < agents.len()
            &&& key.code == KeyCode::Enter <==> (answer is Some && picked(answer->0) is Some)
            &&& key.code == KeyCode::Enter ==> picked(answer->0) == Some(
                (agents[cursor].pane, key.shift || key.ctrl),
            )
            &&& answer is Some && key.code != KeyCode::Enter ==> key.code == KeyCode::Esc
                || key.code == KeyCode::Char('q')
            &&& to != cursor ==> answer is None && (to == cursor + 1 || to == cursor - 1)
        }),
{
    law_the_answer_names_the_chosen_pane(agents[cursor], key.shift || key.ctrl);
}

proof fn lemma_text_push(spans: Seq<SpanView>, sp: SpanView)
    ensures
        spans_text(spans.push(sp)) == spans_text(spans) + sp.text,
{
    assert(spans.push(sp).drop_last() =~= spans);
}

/// The line of an agent says its name, how it is doing, its tab and directory as
/// far as they are known, and its pane.
pub proof fn law_an_agent_line_says_who(a: AgentView)
    ensures
        spans_text(agent_line(a).spans) == "  "@ + a.agent + " · "@ + a.status + (if a.tab.len()
            == 0 {
            Seq::empty()
        } else {
            "  tab: "@ + a.tab
        }) + (if a.cwd.len() == 0 {
            Seq::empty()
        } else {
            "  "@ + a.cwd
        }) + "  "@ + a.pane,
{
    let name = span("  "@ + a.agent, Style { bold: true, ..plain() });
    let status = span(" · "@ + a.status, Style { fg: Some(status_color(a.status)), ..plain() });
    let none = Seq::<SpanView>::empty();
    let head = seq![name, status];
    assert(spans_text(none) =~= Seq::empty());
    lemma_text_push(none, name);
    lemma_text_push(none.push(name), status);
    assert(none.push(name).push(status) =~= head);
    let tab = span("  tab: "@ + a.tab, plain());
    lemma_text_push(head, tab);
    let before = if a.tab.len() == 0 {
        head
    } else {
        head.push(tab)
    };
    let cwd = span("  "@ + a.cwd, dim_style());
    lemma_text_push(before, cwd);
    let most = if a.cwd.len() == 0 {
        before
    } else {
        before.push(cwd)
    };
    lemma_text_push(most, span("  "@ + a.pane, dim_style()));
    assert(agent_line(a).spans == most.push(span("  "@ + a.pane, dim_style())));
    assert(spans_text(agent_line(a).spans) =~= "  "@ + a.agent + " · "@ + a.status + (if a.tab.len()
        == 0 {
        Seq::empty()
    } else {
        "  tab: "@ + a.tab
    }) + (if a.cwd.len() == 0 {
        Seq::empty()
    } else {
        "  "@ + a.cwd
    }) + "  "@ + a.pane);
}

} // verus!
