//! What the preview pane draws around the diff: header, body and footer.
use crate::git::{ChangeKind, Scope};
use crate::input::{hint_from, Action, Hints};
use crate::preview::app::{
    number_shown, PreviewApp, PreviewView, State, StateView, FLASH_MS,
};
use crate::style::{
    dim, dim_style, fg_style, lemma_spans_push, line_of, plain, raw, repeat_char, repeated, span,
    styled, Color, Line, LineView, Span, Style,
};
use crate::text::{append, append_dec, copy, dec};
use crate::width::{str_columns, str_width};
use vstd::prelude::*;

verus! {

broadcast use {vstd::string::group_string_axioms, lemma_spans_push};

// ---- header ------------------------------------------------------------------

/// The shown file with its scope, or the pane's name.
pub open spec fn title(s: PreviewView) -> Seq<char> {
    match s.current {
        None => " gitview: diff"@,
        Some(req) => {
            let scope = match req.scope {
                Scope::Worktree => "worktree"@,
                Scope::Branch => "branch vs "@ + match s.base {
                    Some(b) => b,
                    None => "base"@,
                },
            };
            let staged = if req.cached && req.scope == Scope::Worktree {
                " [staged]"@
            } else {
                Seq::empty()
            };
            let deleted = if req.kind == ChangeKind::Deleted {
                " (deleted)"@
            } else {
                Seq::empty()
            };
            " "@ + req.file + "  ["@ + scope + "]"@ + staged + deleted
        },
    }
}

/// The file's line under the cursor.
pub open spec fn file_line(s: PreviewView) -> Option<u32> {
    match (s.built, s.cards.to_diff(s.cursor_line)) {
        (Some(b), Some(d)) => match b.numbers(d) {
            Some((_, Some(new))) => Some(new),
            Some((old_no, None)) => old_no,
            None => None,
        },
        _ => None,
    }
}

/// Where the cursor is: the file's line number, not the scroll offset.
pub open spec fn place(s: PreviewView) -> Seq<char> {
    match (s.state, file_line(s)) {
        (StateView::Diff, Some(n)) => "ln "@ + dec(n as nat) + " "@,
        _ => Seq::empty(),
    }
}

/// Two texts at the ends of a row of `width` columns.
pub open spec fn spread(left: Seq<char>, right: Seq<char>, width: nat) -> LineView {
    let used = str_columns(left) + str_columns(right);
    let pad = if width > used {
        (width - used) as nat
    } else {
        0
    };
    line_of(
        seq![
            span(left, plain()),
            span(repeated(' ', pad), plain()),
            span(right, dim_style()),
        ],
    )
}

fn title_of(app: &PreviewApp) -> (r: String)
    ensures
        r@ == title(app@),
{
    match &app.current {
        None => copy(" gitview: diff"),
        Some(req) => {
            let mut s = copy(" ");
            append(&mut s, req.file.as_str());
            append(&mut s, "  [");
            let mut scope = copy("worktree");
            if req.scope == Scope::Branch {
                scope = copy("branch vs ");
                match &app.base {
                    Some(b) => append(&mut scope, b.as_str()),
                    None => append(&mut scope, "base"),
                }
            }
            append(&mut s, scope.as_str());
            append(&mut s, "]");
            let ghost before = s@;
            if req.cached && req.scope == Scope::Worktree {
                append(&mut s, " [staged]");
            }
            assert(before + Seq::<char>::empty() =~= before);
            let ghost staged = s@;
            if req.kind == ChangeKind::Deleted {
                append(&mut s, " (deleted)");
            }
            assert(staged + Seq::<char>::empty() =~= staged);
            s
        },
    }
}

fn place_of(app: &PreviewApp) -> (r: String)
    ensures
        r@ == place(app@),
{
    let none = String::new();
    assert(none@ =~= Seq::<char>::empty());
    match &app.state {
        State::Diff => match app.cursor_file_line() {
            Some(n) => {
                let mut s = copy("ln ");
                append_dec(&mut s, n as u64);
                append(&mut s, " ");
                s
            },
            None => none,
        },
        _ => none,
    }
}

/// The header row.
pub fn header(app: &PreviewApp, width: usize) -> (r: Line)
    ensures
        r@ == spread(title(app@), place(app@), width as nat),
{
    let left = title_of(app);
    let right = place_of(app);
    let pad = width.saturating_sub(str_width(left.as_str())).saturating_sub(
        str_width(right.as_str()),
    );
    let mut spans: Vec<Span> = Vec::new();
    spans.push(raw(left));
    spans.push(raw(repeat_char(' ', pad)));
    spans.push(styled(right, dim()));
    let line = Line { spans, style: Style::new() };
    assert(line@ =~= spread(title(app@), place(app@), width as nat));
    line
}

// ---- body ----------------------------------------------------------------------

/// What fills the pane.
#[derive(Debug)]
pub enum Body {
    /// A dim message in the middle.
    Message(String),
    /// One line at the top.
    Notice(Line),
    /// The document, scrolled.
    Document,
}

pub enum BodyView {
    Message(Seq<char>),
    Notice(LineView),
    Document,
}

impl View for Body {
    type V = BodyView;

    open spec fn view(&self) -> BodyView {
        match self {
            Body::Message(s) => BodyView::Message(s@),
            Body::Notice(l) => BodyView::Notice(l@),
            Body::Document => BodyView::Document,
        }
    }
}

pub open spec fn body_of(s: PreviewView) -> BodyView {
    match s.state {
        StateView::Splash(msg) => BodyView::Message(msg),
        StateView::Empty => BodyView::Message(
            if s.current matches Some(req) && req.cached {
                "(no staged changes)"@
            } else {
                "(no changes in this view)"@
            },
        ),
        StateView::Binary => BodyView::Message("(binary file)"@),
        StateView::Error(msg) => BodyView::Notice(
            line_of(seq![span(" diff error: "@ + msg, fg_style(Color::Red))]),
        ),
        StateView::Diff => BodyView::Document,
    }
}

/// The pane's body.
pub fn body(app: &PreviewApp) -> (r: Body)
    ensures
        r@ == body_of(app@),
{
    match &app.state {
        State::Splash(msg) => Body::Message(copy(msg)),
        State::Empty => {
            let cached = match &app.current {
                Some(req) => req.cached,
                None => false,
            };
            Body::Message(
                if cached {
                    copy("(no staged changes)")
                } else {
                    copy("(no changes in this view)")
                },
            )
        },
        State::Binary => Body::Message(copy("(binary file)")),
        State::Error(msg) => {
            let mut text = copy(" diff error: ");
            append(&mut text, msg.as_str());
            let mut spans: Vec<Span> = Vec::new();
            spans.push(styled(text, Style::new().fg(Color::Red)));
            let line = Line { spans, style: Style::new() };
            assert(line@ =~= body_of(app@)->Notice_0);
            Body::Notice(line)
        },
        State::Diff => Body::Document,
    }
}

// ---- footer --------------------------------------------------------------------

/// The keys that scroll.
pub open spec fn scroll_hints(h: Seq<(Action, Seq<char>)>) -> Seq<char> {
    " "@ + hint_from(h, Action::ScrollDown, 0) + "/"@ + hint_from(h, Action::ScrollUp, 0)
        + " scroll  "@ + hint_from(h, Action::HalfPageDown, 0) + "/"@ + hint_from(
        h,
        Action::HalfPageUp,
        0,
    ) + " page  "@ + hint_from(h, Action::DiffTop, 0) + "/"@ + hint_from(h, Action::DiffBottom, 0)
        + " ends  "@ + hint_from(h, Action::Quit, 0) + " quit"@
}

/// The footer: a message while it is fresh, else the keys.
pub open spec fn footer_of(s: PreviewView, h: Seq<(Action, Seq<char>)>, now: u64) -> LineView {
    match s.flash {
        Some((msg, at)) => if now - at < FLASH_MS {
            line_of(seq![span(" "@ + msg, fg_style(Color::Yellow))])
        } else {
            line_of(seq![span(scroll_hints(h), dim_style())])
        },
        None => line_of(seq![span(scroll_hints(h), dim_style())]),
    }
}

fn append_hint(s: &mut String, hints: &Hints, a: Action)
    ensures
        final(s)@ == old(s)@ + hint_from(hints@, a, 0),
{
    let key = hints.hint(a);
    append(s, key.as_str());
}

/// The footer row.
pub fn footer(app: &PreviewApp, hints: &Hints, now: u64) -> (r: Line)
    ensures
        r@ == footer_of(app@, hints@, now),
{
    let mut spans: Vec<Span> = Vec::new();
    match app.active_flash(now) {
        Some(msg) => {
            let mut text = copy(" ");
            append(&mut text, msg);
            spans.push(styled(text, Style::new().fg(Color::Yellow)));
        },
        None => {
            let mut text = copy(" ");
            append_hint(&mut text, hints, Action::ScrollDown);
            append(&mut text, "/");
            append_hint(&mut text, hints, Action::ScrollUp);
            append(&mut text, " scroll  ");
            append_hint(&mut text, hints, Action::HalfPageDown);
            append(&mut text, "/");
            append_hint(&mut text, hints, Action::HalfPageUp);
            append(&mut text, " page  ");
            append_hint(&mut text, hints, Action::DiffTop);
            append(&mut text, "/");
            append_hint(&mut text, hints, Action::DiffBottom);
            append(&mut text, " ends  ");
            append_hint(&mut text, hints, Action::Quit);
            append(&mut text, " quit");
            spans.push(styled(text, dim()));
        },
    }
    let line = Line { spans, style: Style::new() };
    assert(line@ =~= footer_of(app@, hints@, now));
    line
}

/// The place that is shown is the number of the line under the cursor, in the new
/// file or, of a deleted line, in the old one.
pub proof fn law_the_place_is_the_line_under_the_cursor(s: PreviewView)
    requires
        s.state is Diff,
        s.built is Some,
    ensures
        match number_shown(s.built->0, s.cards, s.cursor_line) {
            Some(n) => n > 0 ==> place(s) == "ln "@ + dec(n as nat) + " "@,
            None => place(s).len() == 0,
        },
{
}

/// What is said instead of a document says why there is none.
pub proof fn law_the_body_says_why_nothing_is_shown(s: PreviewView, msg: Seq<char>)
    ensures
        s.state == StateView::Diff <==> body_of(s) == BodyView::Document,
        s.state == StateView::Splash(msg) ==> body_of(s) == BodyView::Message(msg),
        s.state == StateView::Error(msg) ==> body_of(s) is Notice,
        s.state == StateView::Error(msg) ==> (body_of(s)->Notice_0).spans[0].text
            == " diff error: "@ + msg,
        s.state == StateView::Empty && s.current is None ==> body_of(s) == BodyView::Message(
            "(no changes in this view)"@,
        ),
        s.state == StateView::Empty && s.current is Some && (s.current->Some_0).cached ==> body_of(s)
            == BodyView::Message("(no staged changes)"@),
        s.state == StateView::Empty && s.current is Some && !(s.current->Some_0).cached ==> body_of(
            s,
        ) == BodyView::Message("(no changes in this view)"@),
{
}

/// A line with two sides holds both, and whatever room is left is between them.
pub proof fn law_both_sides_are_shown(left: Seq<char>, right: Seq<char>, width: nat)
    ensures
        spread(left, right, width).spans.len() == 3,
        spread(left, right, width).spans[0].text == left,
        spread(left, right, width).spans[2].text == right,
        forall|i: int|
            0 <= i < spread(left, right, width).spans[1].text.len()
                ==> #[trigger] spread(left, right, width).spans[1].text[i] == ' ',
        str_columns(left) + str_columns(right) <= width ==> str_columns(left) + spread(
            left,
            right,
            width,
        ).spans[1].text.len() + str_columns(right) == width,
{
}

} // verus!
