//! Note cards: the boxed blocks spliced into the diff under the lines they
//! comment on, and the composer box that stands in their place while a note
//! is being written.
use crate::preview::numbering::law_a_new_line_is_found_by_its_number;
use crate::preview::render::{DiffDoc, DocView, RowView};
use crate::style::{
    fg_style, lemma_lines_push, lemma_spans_push, line_of, lines_view, plain, raw, repeat_char,
    repeated, span, spans_text, spans_view, styled, Color, Line, LineView, Span, SpanView, Style, Theme,
};
use crate::text::{
    append, append_dec, chars_of, copy, dec, is_space, join, law_joining_undoes_splitting,
    lemma_strs_push, split, split_at_char, string_of, strs, trim_end,
};
use crate::textarea::{
    elide_tail, elided, law_rows_partition_the_text, law_the_caret_is_on_its_row, layout_rows,
    pairs, partition, wrap_plain, wrapped, Editing, TextArea,
};
use crate::width::{str_columns, str_width};
use vstd::prelude::*;

verus! {

broadcast use {
    vstd::string::group_string_axioms,
    lemma_strs_push,
    lemma_spans_push,
    lemma_lines_push,
};

/// Floor for the card width, so a card still has a shape before the first
/// draw has reported the real pane width.
pub const MIN_WIDTH: u16 = 24;

/// Indent of every card from the left edge, so a card reads as a comment *on*
/// the code rather than another diff row.
pub const CARD_INDENT: usize = 4;

/// Air left to the right of a card, so it does not run into the pane's edge.
pub const CARD_RIGHT_MARGIN: usize = 6;

/// Cards stop growing past this: a comment is prose, and prose set across a
/// very wide pane is hard to read.
pub const MAX_CARD_WIDTH: usize = 60;

/// One block spliced into the diff: a saved note's card, or the composer.
#[derive(Debug)]
pub struct Card {
    /// Line of the document, before splicing, that the block is inserted at.
    pub anchor: usize,
    pub lines: Vec<Line>,
    /// The note this card shows; `None` for the composer.
    pub note: Option<u64>,
}

#[verifier::ext_equal]
pub struct CardView {
    pub anchor: int,
    pub lines: Seq<LineView>,
    pub note: Option<u64>,
}

impl View for Card {
    type V = CardView;

    open spec fn view(&self) -> CardView {
        CardView { anchor: self.anchor as int, lines: lines_view(self.lines@), note: self.note }
    }
}

// ---- anchors and labels ----------------------------------------------------

/// Where a note whose range ends at line `end` goes in a document, and whether
/// its line is gone. A range that ends at 0 is the whole file: it sits at the
/// top, which a line that cannot be found also does, but says so.
pub open spec fn anchor(doc: DocView, end: u32) -> (int, bool) {
    if end == 0 {
        (0, false)
    } else {
        match doc.line_of_new(end, 0) {
            Some(line) => (line + 1, false),
            None => (0, true),
        }
    }
}

pub fn anchor_of(built: &DiffDoc, end: u32) -> (r: (usize, bool))
    ensures
        r.0 == anchor(built@, end).0,
        r.1 == anchor(built@, end).1,
        r.0 <= built@.rows.len(),
{
    if end == 0 {
        return (0, false);
    }
    match built.line_for_new(end) {
        Some(line) => {
            let n = built.text().len();
            assert(line < n);
            (line + 1, false)
        },
        None => (0, true),
    }
}

/// `<prefix> · line 12`, `<prefix> · lines 12-20` or `<prefix> · whole file`.
pub open spec fn label(prefix: Seq<char>, start: u32, end: u32) -> Seq<char> {
    if end == 0 {
        prefix + " · whole file"@
    } else if start == end {
        prefix + " · line "@ + dec(start as nat)
    } else {
        prefix + " · lines "@ + dec(start as nat) + "-"@ + dec(end as nat)
    }
}

pub fn range_label(prefix: &str, start: u32, end: u32) -> (r: String)
    ensures
        r@ == label(prefix@, start, end),
{
    let mut s = copy(prefix);
    if end == 0 {
        append(&mut s, " · whole file");
    } else if start == end {
        append(&mut s, " · line ");
        append_dec(&mut s, start as u64);
    } else {
        append(&mut s, " · lines ");
        append_dec(&mut s, start as u64);
        append(&mut s, "-");
        append_dec(&mut s, end as u64);
    }
    s
}

/// The span of a drawn line that an accent recolours: the line-number cell,
/// which comes first on every numbered line; none of a fold.
pub open spec fn accented_span(doc: DocView, idx: int) -> Option<int> {
    match doc.numbers(idx) {
        None => None,
        Some(_) => Some(0),
    }
}

/// `lines` with line `idx` accented.
pub open spec fn accented(lines: Seq<LineView>, idx: int, doc: DocView) -> Seq<LineView> {
    match accented_span(doc, idx) {
        None => lines,
        Some(k) => if 0 <= idx < lines.len() && k < lines[idx].spans.len() {
            let l = lines[idx];
            let sp = l.spans[k];
            lines.update(
                idx,
                LineView {
                    spans: l.spans.update(
                        k,
                        span(
                            sp.text,
                            Style { fg: Some(Color::Yellow), bold: true, ..sp.style },
                        ),
                    ),
                    ..l
                },
            )
        } else {
            lines
        },
    }
}

/// Recolour the line-number cell of a commented row, so it reads as annotated
/// even when its card is off-screen.
pub fn accent_gutter(lines: &mut Vec<Line>, idx: usize, built: &DiffDoc)
    ensures
        lines_view(final(lines)@) == accented(lines_view(old(lines)@), idx as int, built@),
        final(lines)@.len() == old(lines)@.len(),
{
    let ghost before = lines_view(lines@);
    let k: usize = match built.numbers_of_line(idx) {
        None => {
            return ;
        },
        Some(_) => 0,
    };
    if idx < lines.len() {
        assert(before[idx as int] == lines@[idx as int]@);
        let mut line = lines[idx].clone();
        if k < line.spans.len() {
            let sp = &line.spans[k];
            let fresh = styled(copy(sp.text.as_str()), sp.style.fg(Color::Yellow).bold());
            assert(spans_view(line.spans@)[k as int] == line.spans@[k as int]@);
            let ghost spans = spans_view(line.spans@);
            line.spans.set(k, fresh);
            assert(spans_view(line.spans@) =~= spans.update(k as int, fresh@));
            lines.set(idx, line);
            assert(lines_view(lines@) =~= accented(before, idx as int, built@));
        }
    }
}

// ---- boxes -----------------------------------------------------------------

pub open spec fn minus(a: nat, b: nat) -> nat {
    if a > b {
        (a - b) as nat
    } else {
        0
    }
}

pub open spec fn at_least(a: nat, b: nat) -> nat {
    if a < b {
        b
    } else {
        a
    }
}

pub open spec fn at_most(a: nat, b: nat) -> nat {
    if a > b {
        b
    } else {
        a
    }
}

/// Columns of a card's box in a pane of `width`: never wider than the pane
/// allows, never narrower than a usable box.
pub open spec fn box_width(width: nat) -> nat {
    at_most(
        at_least(
            at_most(minus(width, (CARD_INDENT + CARD_RIGHT_MARGIN) as nat), MAX_CARD_WIDTH as nat),
            MIN_WIDTH as nat,
        ),
        at_least(minus(width, CARD_INDENT as nat), MIN_WIDTH as nat),
    )
}

/// Columns of text inside a card's box: off the two borders and the space on
/// either side of the text.
pub open spec fn text_width(width: nat) -> nat {
    at_least(minus(box_width(width), 4), 1)
}

fn card_box_width(width: usize) -> (r: usize)
    ensures
        r == box_width(width as nat),
        r >= 24,
{
    let inner: usize = width.saturating_sub(CARD_INDENT);
    let outer: usize = if inner < 24 {
        24
    } else {
        inner
    };
    let mut w: usize = width.saturating_sub(CARD_INDENT + CARD_RIGHT_MARGIN);
    if w > MAX_CARD_WIDTH {
        w = MAX_CARD_WIDTH;
    }
    if w < 24 {
        w = 24;
    }
    if w > outer {
        w = outer;
    }
    w
}

pub fn card_text_width(width: usize) -> (r: usize)
    ensures
        r == text_width(width as nat),
        r >= 1,
{
    card_box_width(width) - 4
}

/// A card is never wider than the pane, as long as the pane has room for the
/// smallest box.
pub proof fn law_a_card_fits_the_pane(width: nat)
    requires
        width >= CARD_INDENT + MIN_WIDTH,
    ensures
        CARD_INDENT + box_width(width) <= width,
        box_width(width) <= MAX_CARD_WIDTH,
        text_width(width) + 4 == box_width(width),
{
}

pub open spec fn border_style(theme: Theme, accent: bool) -> Style {
    fg_style(
        if accent {
            Color::Yellow
        } else if theme.light() {
            Color::Rgb(0x9a, 0xa0, 0xa6)
        } else {
            Color::Rgb(0x6c, 0x70, 0x86)
        },
    )
}

pub open spec fn title_style() -> Style {
    Style { fg: Some(Color::Yellow), bold: true, ..plain() }
}

pub open spec fn body_style(theme: Theme) -> Style {
    fg_style(
        if theme.light() {
            Color::Rgb(0x4c, 0x4f, 0x69)
        } else {
            Color::Rgb(0xcd, 0xd6, 0xf4)
        },
    )
}

pub open spec fn indent_span() -> SpanView {
    span(repeated(' ', CARD_INDENT as nat), plain())
}

/// The box's top edge, with its title.
pub open spec fn box_top(title: Seq<char>, width: nat, theme: Theme, accent: bool) -> LineView {
    let shown = elided(" "@ + title + " "@, minus(box_width(width), 3));
    let fill = minus(box_width(width), 3 + str_columns(shown) as nat);
    line_of(
        seq![
            indent_span(),
            span("╭─"@, border_style(theme, accent)),
            span(shown, title_style()),
            span(repeated('─', fill) + "╮"@, border_style(theme, accent)),
        ],
    )
}

pub open spec fn widths(spans: Seq<SpanView>, n: int) -> nat
    decreases n,
{
    if n <= 0 {
        0
    } else {
        widths(spans, n - 1) + str_columns(spans[n - 1].text) as nat
    }
}

/// Unstyled text takes the body's style.
pub open spec fn body_spans(spans: Seq<SpanView>, theme: Theme) -> Seq<SpanView> {
    spans.map_values(
        |s: SpanView|
            if s.style == plain() {
                span(s.text, body_style(theme))
            } else {
                s
            },
    )
}

/// One row of the box: its spans between the borders, filled up with spaces.
pub open spec fn box_row(
    spans: Seq<SpanView>,
    width: nat,
    theme: Theme,
    accent: bool,
) -> LineView {
    let gap = minus(text_width(width), widths(spans, spans.len() as int));
    line_of(
        seq![indent_span(), span("│ "@, border_style(theme, accent))] + body_spans(spans, theme)
            + seq![span(repeated(' ', gap) + " │"@, border_style(theme, accent))],
    )
}

pub open spec fn box_bottom(width: nat, theme: Theme, accent: bool) -> LineView {
    line_of(
        seq![
            indent_span(),
            span(
                "╰"@ + repeated('─', minus(box_width(width), 2)) + "╯"@,
                border_style(theme, accent),
            ),
        ],
    )
}

/// A titled box around rows of spans. An empty box still gets one row, so it
/// never collapses.
pub open spec fn boxed(
    title: Seq<char>,
    rows: Seq<Seq<SpanView>>,
    width: nat,
    theme: Theme,
    accent: bool,
) -> Seq<LineView> {
    let body = if rows.len() == 0 {
        seq![seq![span(Seq::empty(), plain())]]
    } else {
        rows
    };
    seq![box_top(title, width, theme, accent)] + body.map_values(
        |r: Seq<SpanView>| box_row(r, width, theme, accent),
    ) + seq![box_bottom(width, theme, accent)]
}

pub open spec fn span_rows(v: Seq<Vec<Span>>) -> Seq<Seq<SpanView>> {
    v.map_values(|r: Vec<Span>| spans_view(r@))
}

proof fn lemma_span_rows_push(v: Seq<Vec<Span>>, r: Vec<Span>)
    ensures
        span_rows(v.push(r)) == span_rows(v).push(spans_view(r@)),
{
    assert(span_rows(v.push(r)) =~= span_rows(v).push(spans_view(r@)));
}

fn no_spans() -> (r: Vec<Span>)
    ensures
        spans_view(r@) == Seq::<SpanView>::empty(),
{
    let v: Vec<Span> = Vec::new();
    assert(spans_view(v@) =~= Seq::<SpanView>::empty());
    v
}

fn border(theme: Theme, accent: bool) -> (r: Style)
    ensures
        r == border_style(theme, accent),
{
    Style::new().fg(
        if accent {
            Color::Yellow
        } else if theme.is_light() {
            Color::Rgb(0x9a, 0xa0, 0xa6)
        } else {
            Color::Rgb(0x6c, 0x70, 0x86)
        },
    )
}

fn body_look(theme: Theme) -> (r: Style)
    ensures
        r == body_style(theme),
{
    Style::new().fg(
        if theme.is_light() {
            Color::Rgb(0x4c, 0x4f, 0x69)
        } else {
            Color::Rgb(0xcd, 0xd6, 0xf4)
        },
    )
}

fn indent() -> (r: Span)
    ensures
        r@ == indent_span(),
{
    raw(repeat_char(' ', CARD_INDENT))
}

fn top_line(title: &str, width: usize, theme: Theme, accent: bool) -> (r: Line)
    ensures
        r@ == box_top(title@, width as nat, theme, accent),
{
    let box_w = card_box_width(width);
    let mut full = copy(" ");
    append(&mut full, title);
    append(&mut full, " ");
    let shown = elide_tail(full.as_str(), box_w.saturating_sub(3));
    let w = str_width(shown.as_str());
    let mut edge = repeat_char('─', box_w.saturating_sub(3).saturating_sub(w));
    append(&mut edge, "╮");
    let mut spans = no_spans();
    spans.push(indent());
    spans.push(styled(copy("╭─"), border(theme, accent)));
    spans.push(styled(shown, Style::new().fg(Color::Yellow).bold()));
    spans.push(styled(edge, border(theme, accent)));
    let line = Line { spans, style: Style::new() };
    assert(line@ =~= box_top(title@, width as nat, theme, accent));
    line
}

fn row_line(spans: Vec<Span>, width: usize, theme: Theme, accent: bool) -> (r: Line)
    ensures
        r@ == box_row(spans_view(spans@), width as nat, theme, accent),
{
    let ghost all = spans_view(spans@);
    let ghost body = body_spans(all, theme);
    let text_w = card_text_width(width);
    let mut out = no_spans();
    out.push(indent());
    out.push(styled(copy("│ "), border(theme, accent)));
    let ghost head = spans_view(out@);
    assert(head =~= seq![indent_span(), span("│ "@, border_style(theme, accent))]);
    let mut left: usize = text_w;
    let mut i: usize = 0;
    assert(head + body.take(0) =~= head);
    while i < spans.len()
        invariant
            i <= spans@.len(),
            all == spans_view(spans@),
            body == body_spans(all, theme),
            left == minus(text_w as nat, widths(all, i as int)),
            spans_view(out@) == head + body.take(i as int),
        decreases spans@.len() - i,
    {
        assert(all[i as int] == spans@[i as int]@);
        let s = &spans[i];
        let w = str_width(s.text.as_str());
        left = left.saturating_sub(w);
        let style = if s.style == Style::new() {
            body_look(theme)
        } else {
            s.style
        };
        let fresh = styled(copy(s.text.as_str()), style);
        proof {
            assert(body[i as int] == fresh@);
            assert((head + body.take(i as int)).push(fresh@) =~= head + body.take(i + 1));
        }
        out.push(fresh);
        i += 1;
    }
    assert(body.take(i as int) =~= body);
    let mut edge = repeat_char(' ', left);
    append(&mut edge, " │");
    let last = styled(edge, border(theme, accent));
    assert((head + body).push(last@) =~= head + body + seq![last@]);
    out.push(last);
    Line { spans: out, style: Style::new() }
}

fn bottom_line(width: usize, theme: Theme, accent: bool) -> (r: Line)
    ensures
        r@ == box_bottom(width as nat, theme, accent),
{
    let box_w = card_box_width(width);
    let mut edge = copy("╰");
    let bar = repeat_char('─', box_w.saturating_sub(2));
    append(&mut edge, bar.as_str());
    append(&mut edge, "╯");
    let mut spans = no_spans();
    spans.push(indent());
    spans.push(styled(edge, border(theme, accent)));
    let line = Line { spans, style: Style::new() };
    assert(line@ =~= box_bottom(width as nat, theme, accent));
    line
}

/// Draw a titled box around pre-wrapped rows of spans.
fn card_box(
    title: &str,
    rows: Vec<Vec<Span>>,
    width: usize,
    theme: Theme,
    accent: bool,
) -> (r: Vec<Line>)
    ensures
        lines_view(r@) == boxed(title@, span_rows(rows@), width as nat, theme, accent),
        r@.len() >= 3,
{
    let mut body = rows;
    if body.len() == 0 {
        let mut blank = no_spans();
        let none = String::new();
        assert(none@ =~= Seq::<char>::empty());
        blank.push(raw(none));
        proof {
            lemma_span_rows_push(body@, blank);
        }
        body.push(blank);
        assert(span_rows(body@) =~= seq![seq![span(Seq::empty(), plain())]]);
    }
    let ghost all = span_rows(body@);
    let ghost drawn = all.map_values(|r: Seq<SpanView>| box_row(r, width as nat, theme, accent));
    let mut lines: Vec<Line> = Vec::new();
    assert(lines_view(lines@) =~= Seq::<LineView>::empty());
    lines.push(top_line(title, width, theme, accent));
    let ghost head = lines_view(lines@);
    assert(head =~= seq![box_top(title@, width as nat, theme, accent)]);
    let mut i: usize = 0;
    assert(head + drawn.take(0) =~= head);
    while i < body.len()
        invariant
            i <= body@.len(),
            all == span_rows(body@),
            drawn == all.map_values(
                |r: Seq<SpanView>| box_row(r, width as nat, theme, accent),
            ),
            lines_view(lines@) == head + drawn.take(i as int),
            lines@.len() == i + 1,
        decreases body@.len() - i,
    {
        assert(all[i as int] == spans_view(body@[i as int]@));
        let spans = copy_spans(&body[i]);
        let line = row_line(spans, width, theme, accent);
        proof {
            assert(drawn[i as int] == line@);
            assert((head + drawn.take(i as int)).push(line@) =~= head + drawn.take(i + 1));
        }
        lines.push(line);
        i += 1;
    }
    assert(drawn.take(i as int) =~= drawn);
    let last = bottom_line(width, theme, accent);
    assert((head + drawn).push(last@) =~= head + drawn + seq![last@]);
    lines.push(last);
    lines
}

fn copy_spans(v: &Vec<Span>) -> (r: Vec<Span>)
    ensures
        spans_view(r@) == spans_view(v@),
{
    let mut out: Vec<Span> = Vec::new();
    let mut i: usize = 0;
    while i < v.len()
        invariant
            i <= v@.len(),
            out@.len() == i,
            forall|k: int| 0 <= k < i ==> (#[trigger] out@[k])@ == v@[k]@,
        decreases v@.len() - i,
    {
        out.push(v[i].clone());
        i += 1;
    }
    assert(spans_view(out@) =~= spans_view(v@));
    out
}

// ---- cards -----------------------------------------------------------------

/// The first `n` logical lines, each wrapped to `width` columns.
pub open spec fn wrapped_lines(lines: Seq<Seq<char>>, width: nat, n: int) -> Seq<Seq<char>>
    decreases n,
{
    if n <= 0 {
        Seq::empty()
    } else {
        wrapped_lines(lines, width, n - 1) + wrapped(lines[n - 1], width)
    }
}

/// The text of a note, wrapped.
pub open spec fn note_rows(text: Seq<char>, width: nat) -> Seq<Seq<char>> {
    let lines = split(text, '\n');
    wrapped_lines(lines, width, lines.len() as int)
}

/// One plain span per row.
pub open spec fn plain_rows(rows: Seq<Seq<char>>) -> Seq<Seq<SpanView>> {
    rows.map_values(|t: Seq<char>| seq![span(t, plain())])
}

/// A note's card.
pub open spec fn note_box(title: Seq<char>, text: Seq<char>, width: nat, theme: Theme) -> Seq<
    LineView,
> {
    boxed(title, plain_rows(note_rows(text, text_width(width))), width, theme, false)
}

/// One review note as a boxed block of lines, spliced into the diff under the
/// line it comments on:
///
/// ```text
///   ╭─ note · lines 12-20 ────────────╮
///   │ the note text, wrapped to fit   │
///   ╰─────────────────────────────────╯
/// ```
///
/// Indented so it reads as a comment *on* the code rather than another diff
/// row, and boxed so a multi-line note stays visually one note.
pub fn note_card(title: &str, text: &str, width: usize, theme: Theme) -> (r: Vec<Line>)
    ensures
        lines_view(r@) == note_box(title@, text@, width as nat, theme),
        r@.len() >= 3,
{
    let text_w = card_text_width(width);
    let logical = split_at_char(text, '\n');
    let ghost lines = strs(logical@);
    let mut pieces: Vec<String> = Vec::new();
    let mut i: usize = 0;
    assert(strs(pieces@) =~= wrapped_lines(lines, text_w as nat, 0));
    while i < logical.len()
        invariant
            i <= logical@.len(),
            lines == strs(logical@),
            strs(pieces@) == wrapped_lines(lines, text_w as nat, i as int),
        decreases logical@.len() - i,
    {
        assert(lines[i as int] == logical@[i as int]@);
        let mut more = wrap_plain(logical[i].as_str(), text_w);
        proof {
            assert(strs(pieces@ + more@) =~= strs(pieces@) + strs(more@));
        }
        pieces.append(&mut more);
        i += 1;
    }
    let ghost texts = strs(pieces@);
    let mut rows: Vec<Vec<Span>> = Vec::new();
    let mut k: usize = 0;
    assert(span_rows(rows@) =~= plain_rows(texts).take(0));
    while k < pieces.len()
        invariant
            k <= pieces@.len(),
            texts == strs(pieces@),
            span_rows(rows@) == plain_rows(texts).take(k as int),
        decreases pieces@.len() - k,
    {
        let mut row = no_spans();
        row.push(raw(copy(pieces[k].as_str())));
        proof {
            assert(texts[k as int] == pieces@[k as int]@);
            assert(spans_view(row@) =~= plain_rows(texts)[k as int]);
            assert(plain_rows(texts).take(k + 1) =~= plain_rows(texts).take(k as int).push(
                plain_rows(texts)[k as int],
            ));
            lemma_span_rows_push(rows@, row);
        }
        rows.push(row);
        k += 1;
    }
    assert(plain_rows(texts).take(k as int) =~= plain_rows(texts));
    card_box(title, rows, width, theme, false)
}

pub open spec fn caret_style() -> Style {
    Style { reversed: true, ..plain() }
}

/// Row `i` of the composer: the caret is drawn on its row, on the character
/// behind it, or on a blank at the row's end.
pub open spec fn composer_row(e: Editing, width: nat, i: int) -> Seq<SpanView> {
    let (a, b) = layout_rows(e.text, width)[i];
    text_row(e.text, a, b, e.at, i == e.row(width))
}

/// The characters from `a` to `b`, with the caret at `at` where it is there.
pub open spec fn text_row(text: Seq<char>, a: int, b: int, at: int, caret: bool) -> Seq<SpanView> {
    if !caret {
        seq![span(text.subrange(a, b), plain())]
    } else if at < b {
        seq![
            span(text.subrange(a, at), plain()),
            span(seq![text[at]], caret_style()),
            span(text.subrange(at + 1, b), plain()),
        ]
    } else {
        seq![
            span(text.subrange(a, at), plain()),
            span(" "@, caret_style()),
            span(Seq::empty(), plain()),
        ]
    }
}

fn drawn_row(cs: &Vec<char>, a: usize, b: usize, at: usize, caret: bool) -> (r: Vec<Span>)
    requires
        a <= b <= cs@.len(),
        caret ==> a <= at <= b,
    ensures
        spans_view(r@) == text_row(cs@, a as int, b as int, at as int, caret),
{
    let mut row = no_spans();
    if !caret {
        row.push(raw(string_of(cs, a, b)));
    } else {
        let look = Style::new().reversed();
        row.push(raw(string_of(cs, a, at)));
        if at < b {
            let mut under = String::new();
            under.push(cs[at]);
            assert(under@ =~= seq![cs@[at as int]]);
            row.push(styled(under, look));
            row.push(raw(string_of(cs, at + 1, b)));
        } else {
            row.push(styled(copy(" "), look));
            let none = String::new();
            assert(none@ =~= Seq::<char>::empty());
            row.push(raw(none));
        }
    }
    assert(spans_view(row@) =~= text_row(cs@, a as int, b as int, at as int, caret));
    row
}

/// The rows of the open composer. An empty one says what it wants, with the
/// caret waiting in front.
pub open spec fn composer_rows(e: Editing, width: nat) -> Seq<Seq<SpanView>> {
    if e.text.len() == 0 {
        seq![
            seq![
                span(" "@, caret_style()),
                span(
                    elided("write a note…"@, minus(width, 1)),
                    Style { dim: true, ..plain() },
                ),
            ],
        ]
    } else {
        Seq::new(layout_rows(e.text, width).len(), |i: int| composer_row(e, width, i))
    }
}

/// The open composer as a card.
pub open spec fn composer_box(title: Seq<char>, e: Editing, width: nat, theme: Theme) -> Seq<
    LineView,
> {
    boxed(title, composer_rows(e, text_width(width)), width, theme, true)
}

/// The open composer as a card, with the caret drawn in place and an accented
/// border so it is obviously the thing taking your keystrokes.
pub fn composer_card(title: &str, input: &TextArea, width: usize, theme: Theme) -> (r: Vec<Line>)
    ensures
        lines_view(r@) == composer_box(title@, input@, width as nat, theme),
        r@.len() >= 3,
{
    let text_w = card_text_width(width);
    let caret = Style::new().reversed();
    let ghost e = input@;
    let mut body: Vec<Vec<Span>> = Vec::new();
    if input.is_empty() {
        let hint = elide_tail("write a note…", text_w.saturating_sub(1));
        let mut row = no_spans();
        row.push(styled(copy(" "), caret));
        row.push(styled(hint, Style::new().dim()));
        proof {
            assert(spans_view(row@) =~= composer_rows(e, text_w as nat)[0]);
            lemma_span_rows_push(body@, row);
        }
        body.push(row);
        assert(span_rows(body@) =~= composer_rows(e, text_w as nat));
        return card_box(title, body, width, theme, true);
    }
    let cs = chars_of(input.text());
    let at = input.position();
    let (rows, caret_row) = input.rows(text_w);
    let ghost spec_rows = layout_rows(e.text, text_w as nat);
    let ghost want = composer_rows(e, text_w as nat);
    proof {
        law_rows_partition_the_text(e.text, text_w as nat);
        law_the_caret_is_on_its_row(e.text, e.at, text_w as nat);
    }
    let mut i: usize = 0;
    assert(span_rows(body@) =~= want.take(0));
    while i < rows.len()
        invariant
            i <= rows@.len(),
            cs@ == e.text,
            at == e.at,
            e.wf(),
            caret_row == e.row(text_w as nat),
            spec_rows == layout_rows(e.text, text_w as nat),
            pairs(rows@) == spec_rows,
            partition(e.text, spec_rows, 0),
            spec_rows[e.row(text_w as nat)].0 <= e.at <= spec_rows[e.row(text_w as nat)].1,
            want == Seq::new(spec_rows.len(), |i: int| composer_row(e, text_w as nat, i)),
            span_rows(body@) == want.take(i as int),
        decreases rows@.len() - i,
    {
        let a = rows[i].0;
        let b = rows[i].1;
        assert(spec_rows[i as int] == (a as int, b as int));
        let row = drawn_row(&cs, a, b, at, i == caret_row);
        proof {
            assert(spans_view(row@) == want[i as int]);
            assert(want.take(i + 1) =~= want.take(i as int).push(want[i as int]));
            lemma_span_rows_push(body@, row);
        }
        body.push(row);
        i += 1;
    }
    assert(want.take(i as int) =~= want);
    card_box(title, body, width, theme, true)
}

// ---- where a note's card goes ------------------------------------------------------

/// A note's card stands right below the last line of its range; a note on the
/// whole file at the top. Where no drawn line has that number the note's line is
/// gone or folded away, and it says so.
pub proof fn law_a_card_stands_below_its_lines(doc: DocView, end: u32)
    ensures
        ({
            let (at, gone) = anchor(doc, end);
            &&& end == 0 ==> at == 0 && !gone
            &&& end > 0 && !gone ==> 0 < at <= doc.rows.len() && (doc.rows[at - 1] matches RowView::Line(
                l,
            ) && l.new_no == Some(end))
            &&& end > 0 && gone ==> at == 0 && forall|k: int|
                0 <= k < doc.rows.len() ==> !(#[trigger] doc.rows[k] matches RowView::Line(l)
                    && l.new_no == Some(end))
        }),
{
    law_a_new_line_is_found_by_its_number(doc, end, 0);
}

// ---- what a card shows -------------------------------------------------------

/// The characters of a text that are not white space.
pub open spec fn inked(s: Seq<char>) -> Seq<char>
    decreases s.len(),
{
    if s.len() == 0 {
        Seq::empty()
    } else if is_space(s.last()) {
        inked(s.drop_last())
    } else {
        inked(s.drop_last()).push(s.last())
    }
}

/// Those of several texts, one after the other.
pub open spec fn all_inked(parts: Seq<Seq<char>>) -> Seq<char>
    decreases parts.len(),
{
    if parts.len() == 0 {
        Seq::empty()
    } else {
        all_inked(parts.drop_last()) + inked(parts.last())
    }
}

proof fn lemma_inked_concat(a: Seq<char>, b: Seq<char>)
    ensures
        inked(a + b) == inked(a) + inked(b),
    decreases b.len(),
{
    if b.len() == 0 {
        assert(a + b =~= a);
        assert(inked(a) + inked(b) =~= inked(a));
    } else {
        lemma_inked_concat(a, b.drop_last());
        assert((a + b).drop_last() =~= a + b.drop_last());
        assert(inked(a + b) =~= inked(a) + inked(b));
    }
}

proof fn lemma_trimming_keeps_ink(s: Seq<char>)
    ensures
        inked(trim_end(s)) == inked(s),
    decreases s.len(),
{
    if s.len() > 0 && is_space(s.last()) {
        lemma_trimming_keeps_ink(s.drop_last());
    }
}

proof fn lemma_all_inked_concat(a: Seq<Seq<char>>, b: Seq<Seq<char>>)
    ensures
        all_inked(a + b) == all_inked(a) + all_inked(b),
    decreases b.len(),
{
    if b.len() == 0 {
        assert(a + b =~= a);
        assert(all_inked(a) + all_inked(b) =~= all_inked(a));
    } else {
        lemma_all_inked_concat(a, b.drop_last());
        assert((a + b).drop_last() =~= a + b.drop_last());
        assert(all_inked(a + b) =~= all_inked(a) + all_inked(b));
    }
}

proof fn lemma_rows_keep_ink(
    s: Seq<char>,
    rows: Seq<(int, int)>,
    pieces: Seq<Seq<char>>,
    k: int,
)
    requires
        partition(s, rows, 0),
        pieces.len() == rows.len(),
        forall|i: int|
            0 <= i < rows.len() ==> #[trigger] pieces[i] == trim_end(
                s.subrange(rows[i].0, rows[i].1),
            ),
        0 < k <= rows.len(),
    ensures
        0 <= rows[k - 1].1 <= s.len(),
        all_inked(pieces.take(k)) == inked(s.take(rows[k - 1].1)),
    decreases k,
{
    let (a, b) = rows[k - 1];
    let piece = s.subrange(a, b);
    assert(0 <= rows[k - 1].0 <= rows[k - 1].1 <= s.len());
    lemma_trimming_keeps_ink(piece);
    assert(pieces.take(k).drop_last() =~= pieces.take(k - 1));
    assert(pieces.take(k).last() == pieces[k - 1]);
    lemma_inked_concat(s.take(a), piece);
    assert(s.take(a) + piece =~= s.take(b));
    if k > 1 {
        lemma_rows_keep_ink(s, rows, pieces, k - 1);
        let end = rows[k - 2].1;
        if a != end {
            assert(s.take(a) =~= s.take(end).push('\n'));
            assert(s.take(a).drop_last() =~= s.take(end));
            assert(is_space('\n'));
        }
        assert(inked(s.take(a)) == inked(s.take(end)));
    } else {
        assert(a == 0);
        assert(s.take(0) =~= Seq::empty());
        assert(pieces.take(0) =~= Seq::empty());
        assert(inked(s.take(a)) =~= all_inked(pieces.take(0)));
    }
    assert(all_inked(pieces.take(k)) == all_inked(pieces.take(k - 1)) + inked(pieces[k - 1]));
}

proof fn lemma_lines_keep_ink(lines: Seq<Seq<char>>, width: nat, n: int)
    requires
        0 <= n <= lines.len(),
    ensures
        all_inked(wrapped_lines(lines, width, n)) == all_inked(lines.take(n)),
    decreases n,
{
    if n > 0 {
        let line = lines[n - 1];
        lemma_lines_keep_ink(lines, width, n - 1);
        law_rows_partition_the_text(line, width);
        let (rows, pieces) = (layout_rows(line, width), wrapped(line, width));
        lemma_rows_keep_ink(line, rows, pieces, rows.len() as int);
        assert(pieces.take(rows.len() as int) =~= pieces);
        assert(line.take(line.len() as int) =~= line);
        lemma_all_inked_concat(wrapped_lines(lines, width, n - 1), pieces);
        assert(lines.take(n).drop_last() =~= lines.take(n - 1));
    } else {
        assert(lines.take(0) =~= Seq::empty());
    }
}

proof fn lemma_joining_keeps_ink(parts: Seq<Seq<char>>)
    ensures
        inked(join(parts, seq!['\n'])) == all_inked(parts),
    decreases parts.len(),
{
    if parts.len() == 1 {
        assert(parts.drop_last() =~= Seq::empty());
        assert(all_inked(parts.drop_last()) =~= Seq::empty());
        assert(all_inked(parts) =~= inked(parts[0]));
    } else if parts.len() > 1 {
        let before = join(parts.drop_last(), seq!['\n']);
        lemma_joining_keeps_ink(parts.drop_last());
        lemma_inked_concat(before + seq!['\n'], parts.last());
        assert((before + seq!['\n']).drop_last() =~= before);
        assert(is_space('\n'));
    }
}

/// A card shows the whole note: its rows hold every character of the text that
/// is not white space, once and in order, however narrow the card is.
pub proof fn law_a_card_shows_the_whole_note(text: Seq<char>, width: nat)
    ensures
        all_inked(note_rows(text, width)) == inked(text),
{
    let lines = split(text, '\n');
    law_joining_undoes_splitting(text, '\n');
    lemma_lines_keep_ink(lines, width, lines.len() as int);
    lemma_joining_keeps_ink(lines);
    assert(lines.take(lines.len() as int) =~= lines);
}

/// The rows of a note stand in its card from top to bottom, between the title
/// and the bottom edge.
pub proof fn law_a_card_holds_its_rows(
    title: Seq<char>,
    text: Seq<char>,
    width: nat,
    theme: Theme,
    i: int,
)
    requires
        0 <= i < note_rows(text, text_width(width)).len(),
    ensures
        note_box(title, text, width, theme).len() == note_rows(text, text_width(width)).len() + 2,
        note_box(title, text, width, theme)[i + 1].spans.len() == 4,
        note_box(title, text, width, theme)[i + 1].spans[2].text == note_rows(
            text,
            text_width(width),
        )[i],
        note_box(title, text, width, theme)[0].spans[2].text == elided(
            " "@ + title + " "@,
            minus(box_width(width), 3),
        ),
{
}

/// A row that is being written shows its text, with the caret on the character
/// that it is before, or on a space behind the last.
pub proof fn law_a_written_row_shows_its_text(
    text: Seq<char>,
    a: int,
    b: int,
    at: int,
    caret: bool,
)
    requires
        0 <= a <= b <= text.len(),
        caret ==> a <= at <= b,
    ensures
        spans_text(text_row(text, a, b, at, caret)) == text.subrange(a, b) + if caret && at == b {
            seq![' ']
        } else {
            Seq::empty()
        },
        forall|i: int|
            0 <= i < text_row(text, a, b, at, caret).len() ==> ((#[trigger] text_row(
                text,
                a,
                b,
                at,
                caret,
            )[i]).style == caret_style() <==> caret && i == 1),
        caret ==> text_row(text, a, b, at, caret)[0].text.len() == at - a,
        caret ==> text_row(text, a, b, at, caret)[1].text.len() == 1,
{
    reveal_strlit(" ");
    let row = text_row(text, a, b, at, caret);
    let none = Seq::<SpanView>::empty();
    assert(spans_text(none) =~= Seq::empty());
    if !caret {
        assert(row.drop_last() =~= none);
        assert(spans_text(row) =~= text.subrange(a, b));
    } else {
        let two = row.drop_last();
        let one = two.drop_last();
        assert(one.drop_last() =~= none);
        assert(spans_text(one) =~= row[0].text);
        assert(spans_text(two) =~= row[0].text + row[1].text);
        assert(spans_text(row) =~= row[0].text + row[1].text + row[2].text);
        assert(" "@ =~= seq![' ']);
    }
}

} // verus!
