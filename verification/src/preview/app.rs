//! Preview-pane state: the currently shown diff, scroll position, cursor and
//! selection, and the review notes.
//!
//! The state owns no channels or terminals. It is handed messages, keys and
//! finished diffs, and says by its fields what should happen next.
use crate::config::{Config, ConfigView};
use crate::git::{ChangeKind, Scope};
use crate::input::{Action, Key, MouseKind};
use crate::path::{path_eq, same_path};
use crate::preview::card::{
    accent_gutter, accented, anchor, anchor_of, at_least, card_text_width, composer_box,
    composer_card, label, note_box, note_card, range_label, text_width, Card, CardView, MIN_WIDTH,
};
use crate::preview::compose::{composed, finished, Composer, ComposerView, Outcome};
use crate::preview::render::{unfolded, DiffDoc, DocView, RowView};
use crate::preview::splice::{
    anchored, by_anchor, cap, capped, card_map, cards_view, hidden_lines, lemma_by_anchor,
    law_snapping_leaves_the_cards, lemma_cards_push, no_cards, sort_cards, splice, spliced, CardMap,
    CardMapView,
};
use crate::repo::Repo;
use crate::style::{
    copy_lines, lemma_lines_push, lemma_spans_push, lines_view, spans_view, styled, Color, Line,
    LineView, Span, SpanView, Style, Theme,
};
use crate::text::{
    append, copy, copy_opt, lemma_split_terminated_then, lemma_terminated_concat, lines, lines_of,
    none_holds, opt_str, same, terminated,
};
use crate::textarea::Editing;
use vstd::prelude::*;

verus! {

broadcast use {vstd::string::group_string_axioms, lemma_lines_push, lemma_spans_push};

// ---- requests and notes ----------------------------------------------------

/// What should be shown, kept together so that the request that produced a
/// diff can be told from the one that is current.
#[derive(Debug)]
pub struct ShowReq {
    pub file: String,
    pub orig_path: Option<String>,
    pub scope: Scope,
    pub cached: bool,
    pub kind: ChangeKind,
    /// History view: show this commit's change instead of a live diff.
    pub commit: Option<String>,
}

#[verifier::ext_equal]
pub struct ReqView {
    pub file: Seq<char>,
    pub orig_path: Option<Seq<char>>,
    pub scope: Scope,
    pub cached: bool,
    pub kind: ChangeKind,
    pub commit: Option<Seq<char>>,
}

impl View for ShowReq {
    type V = ReqView;

    open spec fn view(&self) -> ReqView {
        ReqView {
            file: self.file@,
            orig_path: opt_str(self.orig_path),
            scope: self.scope,
            cached: self.cached,
            kind: self.kind,
            commit: opt_str(self.commit),
        }
    }
}

impl Clone for ShowReq {
    fn clone(&self) -> (r: ShowReq)
        ensures
            r@ == self@,
    {
        ShowReq {
            file: copy(self.file.as_str()),
            orig_path: copy_opt(&self.orig_path),
            scope: self.scope,
            cached: self.cached,
            kind: self.kind,
            commit: copy_opt(&self.commit),
        }
    }
}

pub open spec fn opt_req(r: Option<ShowReq>) -> Option<ReqView> {
    match r {
        Some(x) => Some(x@),
        None => None,
    }
}

/// Two optional paths are the same.
pub open spec fn same_opt_path(a: Option<Seq<char>>, b: Option<Seq<char>>) -> bool {
    match (a, b) {
        (Some(x), Some(y)) => same_path(x, y),
        (None, None) => true,
        _ => false,
    }
}

/// Two requests ask for the same; paths are compared by their components.
pub open spec fn same_req(a: ReqView, b: ReqView) -> bool {
    &&& same_path(a.file, b.file)
    &&& same_opt_path(a.orig_path, b.orig_path)
    &&& a.scope == b.scope
    &&& a.cached == b.cached
    &&& a.kind == b.kind
    &&& a.commit == b.commit
}

fn opt_path_eq(a: &Option<String>, b: &Option<String>) -> (r: bool)
    ensures
        r == same_opt_path(opt_str(*a), opt_str(*b)),
{
    match a {
        Some(x) => match b {
            Some(y) => path_eq(x.as_str(), y.as_str()),
            None => false,
        },
        None => b.is_none(),
    }
}

fn opt_eq(a: &Option<String>, b: &Option<String>) -> (r: bool)
    ensures
        r == (opt_str(*a) == opt_str(*b)),
{
    match a {
        Some(x) => match b {
            Some(y) => same(x.as_str(), y.as_str()),
            None => false,
        },
        None => b.is_none(),
    }
}

impl ShowReq {
    /// Whether the two ask for the same.
    pub fn same_as(&self, other: &ShowReq) -> (r: bool)
        ensures
            r == same_req(self@, other@),
    {
        path_eq(self.file.as_str(), other.file.as_str()) && opt_path_eq(
            &self.orig_path,
            &other.orig_path,
        ) && self.scope == other.scope && self.cached == other.cached && self.kind == other.kind
            && opt_eq(&self.commit, &other.commit)
    }
}

/// A batched review note, anchored to a file (and optionally a line range).
#[derive(Debug)]
pub struct Note {
    pub id: u64,
    pub file: String,
    /// Line range in the new file; 0-0 = whole file.
    pub start: u32,
    pub end: u32,
    pub text: String,
    /// The selected diff lines (`-`, `+` or a space in front), possibly empty.
    pub snippet: String,
    /// Whether this note was written against the staged diff, so that showing
    /// it again picks the same side.
    pub cached: bool,
}

#[verifier::ext_equal]
pub struct NoteView {
    pub id: u64,
    pub file: Seq<char>,
    pub start: u32,
    pub end: u32,
    pub text: Seq<char>,
    pub snippet: Seq<char>,
    pub cached: bool,
}

impl View for Note {
    type V = NoteView;

    open spec fn view(&self) -> NoteView {
        NoteView {
            id: self.id,
            file: self.file@,
            start: self.start,
            end: self.end,
            text: self.text@,
            snippet: self.snippet@,
            cached: self.cached,
        }
    }
}

impl Clone for Note {
    fn clone(&self) -> (r: Note)
        ensures
            r@ == self@,
    {
        Note {
            id: self.id,
            file: copy(self.file.as_str()),
            start: self.start,
            end: self.end,
            text: copy(self.text.as_str()),
            snippet: copy(self.snippet.as_str()),
            cached: self.cached,
        }
    }
}

pub open spec fn notes_view(s: Seq<Note>) -> Seq<NoteView> {
    s.map_values(|n: Note| n@)
}

proof fn lemma_notes_push(s: Seq<Note>, n: Note)
    ensures
        notes_view(s.push(n)) == notes_view(s).push(n@),
{
    assert(notes_view(s.push(n)) =~= notes_view(s).push(n@));
}

pub open spec fn opt_note(n: Option<Note>) -> Option<NoteView> {
    match n {
        Some(x) => Some(x@),
        None => None,
    }
}

/// The first note from `i` on with this id; the number of notes where there is
/// none.
pub open spec fn note_at(notes: Seq<NoteView>, id: u64, i: int) -> int
    decreases notes.len() - i,
{
    if i < 0 || i >= notes.len() {
        notes.len() as int
    } else if notes[i].id == id {
        i
    } else {
        note_at(notes, id, i + 1)
    }
}

/// The first `n` notes without those of this id.
pub open spec fn notes_without(notes: Seq<NoteView>, id: u64, n: int) -> Seq<NoteView>
    decreases n,
{
    if n <= 0 {
        Seq::empty()
    } else if notes[n - 1].id == id {
        notes_without(notes, id, n - 1)
    } else {
        notes_without(notes, id, n - 1).push(notes[n - 1])
    }
}

fn find_note(notes: &Vec<Note>, id: u64) -> (r: usize)
    ensures
        r == note_at(notes_view(notes@), id, 0),
        r <= notes@.len(),
        r < notes@.len() ==> notes@[r as int].id == id,
{
    let ghost all = notes_view(notes@);
    let mut i: usize = 0;
    while i < notes.len()
        invariant
            i <= notes@.len(),
            all == notes_view(notes@),
            note_at(all, id, 0) == note_at(all, id, i as int),
        decreases notes@.len() - i,
    {
        assert(all[i as int] == notes@[i as int]@);
        if notes[i].id == id {
            return i;
        }
        i += 1;
    }
    i
}

// ---- state -----------------------------------------------------------------

/// A popup that should be opened.
#[derive(Debug, Clone, Copy, PartialEq, Eq, Structural)]
pub enum PopupReq {
    PickAgent,
}

#[derive(Debug)]
pub enum State {
    /// Nothing to show yet: a message in the middle.
    Splash(&'static str),
    /// A diff is loaded.
    Diff,
    /// The file has no changes in the requested view.
    Empty,
    /// The file is binary; no diff to draw.
    Binary,
    /// The diff could not be built; holds the first line of the reason.
    Error(String),
}

pub enum StateView {
    Splash(Seq<char>),
    Diff,
    Empty,
    Binary,
    Error(Seq<char>),
}

impl View for State {
    type V = StateView;

    open spec fn view(&self) -> StateView {
        match self {
            State::Splash(s) => StateView::Splash(s@),
            State::Diff => StateView::Diff,
            State::Empty => StateView::Empty,
            State::Binary => StateView::Binary,
            State::Error(s) => StateView::Error(s@),
        }
    }
}

impl State {
    fn is_diff(&self) -> (r: bool)
        ensures
            r == (self@ is Diff),
    {
        match self {
            State::Diff => true,
            _ => false,
        }
    }
}

/// How long a flash message stays visible, in milliseconds.
pub const FLASH_MS: u64 = 3000;

/// The lines of a snippet stop being added at this many.
pub const SNIPPET_LINES: usize = 40;

pub struct PreviewApp {
    pub cfg: Config,
    pub repo: Repo,
    /// The time of the event at hand, in milliseconds; set by the event loop.
    pub now: u64,
    /// Last request (what the header and the stale guard describe).
    pub current: Option<ShowReq>,
    /// The built diff (kept for click-to-unfold).
    pub built: Option<DiffDoc>,
    /// The drawn lines, capped, with the cards spliced in.
    pub doc: Vec<Line>,
    /// First inserted line's new number (editor jump target).
    pub first_change: Option<u32>,
    /// Lines hidden by the cap (0 = not truncated).
    pub truncated: usize,
    pub scroll: u16,
    /// Last body height, remembered so that paging is viewport-aware.
    pub viewport_h: u16,
    /// Body width of the last draw; note cards are boxed to it.
    pub viewport_w: u16,
    /// Branch-scope base, resolved once for the header.
    pub base: Option<String>,
    /// Cursor line in the document (drives selection).
    pub cursor_line: usize,
    /// Selection anchor; the selection is anchor..=cursor.
    pub select_anchor: Option<usize>,
    /// Batched review notes across files.
    pub notes: Vec<Note>,
    /// What the open composer will describe.
    pub pending_note: Option<Note>,
    /// The open composer. While set it owns every keystroke.
    pub composer: Option<Composer>,
    /// Popup for the event loop to open.
    pub popup_request: Option<PopupReq>,
    /// Ask the list pane to open the notes view.
    pub notes_view_request: bool,
    /// Ask the list pane to open the editor on the current selection.
    pub edit_request: bool,
    /// Untinted copies of the tinted lines, so that a cursor move restores
    /// them instead of copying the whole document again.
    pub saved_tint: Vec<(usize, Line)>,
    /// The file that the document was built for.
    pub shown_file: Option<String>,
    /// Where the cards are in the document.
    pub cards: CardMap,
    /// Note to scroll to once its file's diff arrives.
    pub pending_focus: Option<u64>,
    /// Bumped on every change of the notes.
    pub notes_rev: u64,
    /// The next note's id.
    pub next_note_id: u64,
    /// Transient footer message, with the time it was set.
    pub flash: Option<(String, u64)>,
    pub state: State,
    pub should_quit: bool,
    /// True only when this pane initiated the quit, so it should tear down
    /// the whole view.
    pub close_view: bool,
}

#[verifier::ext_equal]
pub struct PreviewView {
    pub cfg: ConfigView,
    pub root: Seq<char>,
    pub now: u64,
    pub current: Option<ReqView>,
    pub built: Option<DocView>,
    pub doc: Seq<LineView>,
    pub first_change: Option<u32>,
    pub truncated: int,
    pub scroll: u16,
    pub viewport_h: u16,
    pub viewport_w: u16,
    pub base: Option<Seq<char>>,
    pub cursor_line: int,
    pub select_anchor: Option<int>,
    pub notes: Seq<NoteView>,
    pub pending_note: Option<NoteView>,
    pub composer: Option<ComposerView>,
    pub popup_request: Option<PopupReq>,
    pub notes_view_request: bool,
    pub edit_request: bool,
    pub saved_tint: Seq<(int, LineView)>,
    pub shown_file: Option<Seq<char>>,
    pub cards: CardMapView,
    pub pending_focus: Option<u64>,
    pub notes_rev: u64,
    pub next_note_id: u64,
    pub flash: Option<(Seq<char>, u64)>,
    pub state: StateView,
    pub should_quit: bool,
    pub close_view: bool,
}

pub open spec fn opt_doc(d: Option<DiffDoc>) -> Option<DocView> {
    match d {
        Some(x) => Some(x@),
        None => None,
    }
}

pub open spec fn opt_composer(c: Option<Composer>) -> Option<ComposerView> {
    match c {
        Some(x) => Some(x@),
        None => None,
    }
}

pub open spec fn opt_int(i: Option<usize>) -> Option<int> {
    match i {
        Some(x) => Some(x as int),
        None => None,
    }
}

pub open spec fn opt_flash(f: Option<(String, u64)>) -> Option<(Seq<char>, u64)> {
    match f {
        Some(x) => Some((x.0@, x.1)),
        None => None,
    }
}

pub open spec fn saved_view(s: Seq<(usize, Line)>) -> Seq<(int, LineView)> {
    s.map_values(|p: (usize, Line)| (p.0 as int, p.1@))
}

proof fn lemma_saved_push(s: Seq<(usize, Line)>, p: (usize, Line))
    ensures
        saved_view(s.push(p)) == saved_view(s).push((p.0 as int, p.1@)),
{
    assert(saved_view(s.push(p)) =~= saved_view(s).push((p.0 as int, p.1@)));
}

impl View for PreviewApp {
    type V = PreviewView;

    open spec fn view(&self) -> PreviewView {
        PreviewView {
            cfg: self.cfg@,
            root: self.repo.root@,
            now: self.now,
            current: opt_req(self.current),
            built: opt_doc(self.built),
            doc: lines_view(self.doc@),
            first_change: self.first_change,
            truncated: self.truncated as int,
            scroll: self.scroll,
            viewport_h: self.viewport_h,
            viewport_w: self.viewport_w,
            base: opt_str(self.base),
            cursor_line: self.cursor_line as int,
            select_anchor: opt_int(self.select_anchor),
            notes: notes_view(self.notes@),
            pending_note: opt_note(self.pending_note),
            composer: opt_composer(self.composer),
            popup_request: self.popup_request,
            notes_view_request: self.notes_view_request,
            edit_request: self.edit_request,
            saved_tint: saved_view(self.saved_tint@),
            shown_file: opt_str(self.shown_file),
            cards: self.cards@,
            pending_focus: self.pending_focus,
            notes_rev: self.notes_rev,
            next_note_id: self.next_note_id,
            flash: opt_flash(self.flash),
            state: self.state@,
            should_quit: self.should_quit,
            close_view: self.close_view,
        }
    }
}

// ---- tinting ---------------------------------------------------------------

/// A line on a background.
pub open spec fn tint_line(l: LineView, bg: Color) -> LineView {
    LineView {
        spans: l.spans.map_values(
            |s: SpanView| SpanView { text: s.text, style: Style { bg: Some(bg), ..s.style } },
        ),
        style: Style { bg: Some(bg), ..l.style },
    }
}

/// The lines with the first `n` saved ones put back.
pub open spec fn restored(doc: Seq<LineView>, saved: Seq<(int, LineView)>, n: int) -> Seq<LineView>
    decreases n,
{
    if n <= 0 {
        doc
    } else {
        let d = restored(doc, saved, n - 1);
        let (i, l) = saved[n - 1];
        if 0 <= i < d.len() {
            d.update(i, l)
        } else {
            d
        }
    }
}

/// What is tinted: the lines from `from` to `to`, but for the cards where they
/// are left out.
pub struct Tint {
    pub from: int,
    pub to: int,
    pub skip_cards: bool,
    pub bg: Color,
}

impl Tint {
    pub open spec fn covers(self, i: int, cards: CardMapView) -> bool {
        self.from <= i <= self.to && !(self.skip_cards && cards.on_card(i))
    }
}

/// The first `n` lines, tinted, and the rest as it is.
pub open spec fn tinted(doc: Seq<LineView>, t: Tint, cards: CardMapView, n: int) -> Seq<LineView> {
    Seq::new(
        doc.len(),
        |i: int|
            if i < n && t.covers(i, cards) {
                tint_line(doc[i], t.bg)
            } else {
                doc[i]
            },
    )
}

/// Those of the first `n` lines that the tint covers.
pub open spec fn tint_saves(doc: Seq<LineView>, t: Tint, cards: CardMapView, n: int) -> Seq<
    (int, LineView),
>
    decreases n,
{
    if n <= 0 {
        Seq::empty()
    } else if t.covers(n - 1, cards) {
        tint_saves(doc, t, cards, n - 1).push((n - 1, doc[n - 1]))
    } else {
        tint_saves(doc, t, cards, n - 1)
    }
}

proof fn lemma_restored_len(doc: Seq<LineView>, saved: Seq<(int, LineView)>, n: int)
    ensures
        restored(doc, saved, n).len() == doc.len(),
    decreases n,
{
    if n > 0 {
        lemma_restored_len(doc, saved, n - 1);
    }
}

proof fn lemma_restored_prefix(
    doc: Seq<LineView>,
    a: Seq<(int, LineView)>,
    b: Seq<(int, LineView)>,
    n: int,
)
    requires
        0 <= n <= a.len(),
        n <= b.len(),
        a.take(n) == b.take(n),
    ensures
        restored(doc, a, n) == restored(doc, b, n),
    decreases n,
{
    if n > 0 {
        assert(a.take(n - 1) =~= a.take(n).take(n - 1));
        assert(b.take(n - 1) =~= b.take(n).take(n - 1));
        lemma_restored_prefix(doc, a, b, n - 1);
        assert(a.take(n)[n - 1] == a[n - 1]);
        assert(b.take(n)[n - 1] == b[n - 1]);
    }
}

proof fn lemma_restore_undoes_tint(doc: Seq<LineView>, t: Tint, cards: CardMapView, n: int, full: int)
    requires
        0 <= n <= full <= doc.len(),
    ensures
        ({
            let saves = tint_saves(doc, t, cards, n);
            let out = restored(tinted(doc, t, cards, full), saves, saves.len() as int);
            &&& out.len() == doc.len()
            &&& forall|i: int| 0 <= i < n ==> #[trigger] out[i] == doc[i]
            &&& forall|i: int|
                n <= i < doc.len() ==> #[trigger] out[i] == tinted(doc, t, cards, full)[i]
        }),
    decreases n,
{
    let base = tinted(doc, t, cards, full);
    if n > 0 {
        lemma_restore_undoes_tint(doc, t, cards, n - 1, full);
        let prev = tint_saves(doc, t, cards, n - 1);
        let saves = tint_saves(doc, t, cards, n);
        if t.covers(n - 1, cards) {
            assert(saves.take(prev.len() as int) =~= prev);
            assert(prev.take(prev.len() as int) =~= prev);
            lemma_restored_prefix(base, saves, prev, prev.len() as int);
        }
    }
}

/// Put the saved lines back.
fn restore(doc: &mut Vec<Line>, saved: &Vec<(usize, Line)>)
    ensures
        lines_view(final(doc)@) == restored(
            lines_view(old(doc)@),
            saved_view(saved@),
            saved@.len() as int,
        ),
        final(doc)@.len() == old(doc)@.len(),
{
    let ghost before = lines_view(doc@);
    let ghost sv = saved_view(saved@);
    let mut k: usize = 0;
    while k < saved.len()
        invariant
            k <= saved@.len(),
            sv == saved_view(saved@),
            lines_view(doc@) == restored(before, sv, k as int),
            doc@.len() == before.len(),
        decreases saved@.len() - k,
    {
        let idx = saved[k].0;
        assert(sv[k as int] == (idx as int, saved@[k as int].1@));
        if idx < doc.len() {
            let line = saved[k].1.clone();
            let ghost was = lines_view(doc@);
            doc.set(idx, line);
            assert(lines_view(doc@) =~= was.update(idx as int, line@));
        }
        k += 1;
    }
}

fn tint_one(l: &Line, bg: Color) -> (r: Line)
    ensures
        r@ == tint_line(l@, bg),
{
    let ghost all = l@.spans;
    let ghost want = tint_line(l@, bg).spans;
    let mut spans: Vec<Span> = Vec::new();
    let mut i: usize = 0;
    assert(spans_view(spans@) =~= want.take(0));
    while i < l.spans.len()
        invariant
            i <= l.spans@.len(),
            all == spans_view(l.spans@),
            want == tint_line(l@, bg).spans,
            all == l@.spans,
            spans_view(spans@) == want.take(i as int),
        decreases l.spans@.len() - i,
    {
        assert(all[i as int] == l.spans@[i as int]@);
        let s = &l.spans[i];
        spans.push(styled(copy(s.text.as_str()), s.style.bg(bg)));
        assert(want.take(i + 1) =~= want.take(i as int).push(want[i as int]));
        i += 1;
    }
    assert(want.take(i as int) =~= want);
    Line { spans, style: l.style.bg(bg) }
}

/// Tint lines of the document; the untinted copies come back.
fn tint(
    doc: &mut Vec<Line>,
    from: usize,
    to: usize,
    skip_cards: bool,
    bg: Color,
    cards: &CardMap,
) -> (saved: Vec<(usize, Line)>)
    requires
        from <= to,
    ensures
        ({
            let t = Tint { from: from as int, to: to as int, skip_cards, bg };
            let before = lines_view(old(doc)@);
            &&& lines_view(final(doc)@) == tinted(before, t, cards@, before.len() as int)
            &&& saved_view(saved@) == tint_saves(before, t, cards@, before.len() as int)
        }),
{
    let ghost t = Tint { from: from as int, to: to as int, skip_cards, bg };
    let ghost before = lines_view(doc@);
    let mut saved: Vec<(usize, Line)> = Vec::new();
    let n = doc.len();
    let mut i: usize = 0;
    assert(saved_view(saved@) =~= tint_saves(before, t, cards@, 0));
    assert(lines_view(doc@) =~= tinted(before, t, cards@, 0));
    while i < n
        invariant
            i <= n == doc@.len() == before.len(),
            t == (Tint { from: from as int, to: to as int, skip_cards, bg }),
            lines_view(doc@) == tinted(before, t, cards@, i as int),
            saved_view(saved@) == tint_saves(before, t, cards@, i as int),
        decreases n - i,
    {
        let ghost was = lines_view(doc@);
        assert(was[i as int] == doc@[i as int]@);
        if from <= i && i <= to && !(skip_cards && cards.contains(i)) {
            let line = tint_one(&doc[i], bg);
            let untinted = doc[i].clone();
            proof {
                lemma_saved_push(saved@, (i, untinted));
            }
            saved.push((i, untinted));
            doc.set(i, line);
            assert(lines_view(doc@) =~= was.update(i as int, line@));
        }
        assert(lines_view(doc@) =~= tinted(before, t, cards@, i + 1));
        i += 1;
    }
    saved
}

// ---- the model -------------------------------------------------------------

/// The background of the cursor's line.
pub open spec fn cursor_bg(theme: Theme) -> Color {
    if theme.light() {
        Color::Rgb(0xdf, 0xe4, 0xee)
    } else {
        Color::Rgb(0x39, 0x3b, 0x4f)
    }
}

/// The background of a selection.
pub open spec fn select_bg(theme: Theme) -> Color {
    if theme.light() {
        Color::Rgb(0xd8, 0xdd, 0xe6)
    } else {
        Color::Rgb(0x45, 0x47, 0x5a)
    }
}

/// A note's card.
pub open spec fn note_card_of(n: NoteView, doc: DocView, width: nat, theme: Theme) -> CardView {
    CardView {
        anchor: anchor(doc, n.end).0,
        lines: note_box(label("note"@, n.start, n.end), n.text, width, theme),
        note: Some(n.id),
    }
}

/// The cards of the first `n` notes: those of the shown file, without the one
/// that is being rewritten, since the composer stands in its place.
pub open spec fn note_cards(
    notes: Seq<NoteView>,
    n: int,
    file: Seq<char>,
    editing: Option<u64>,
    doc: DocView,
    width: nat,
    theme: Theme,
) -> Seq<CardView>
    decreases n,
{
    if n <= 0 {
        Seq::empty()
    } else {
        let rest = note_cards(notes, n - 1, file, editing, doc, width, theme);
        let note = notes[n - 1];
        if same_path(note.file, file) && Some(note.id) != editing {
            rest.push(note_card_of(note, doc, width, theme))
        } else {
            rest
        }
    }
}

/// The range that a pending note covers; none is the whole file.
pub open spec fn pending_range(pending: Option<NoteView>) -> (u32, u32) {
    match pending {
        Some(n) => (n.start, n.end),
        None => (0, 0),
    }
}

/// The open composer's card.
pub open spec fn composer_card_of(
    c: ComposerView,
    pending: Option<NoteView>,
    doc: DocView,
    width: nat,
    theme: Theme,
) -> CardView {
    let (start, end) = pending_range(pending);
    let prefix = if c.editing is Some {
        "edit note"@
    } else {
        "new note"@
    };
    CardView {
        anchor: anchor(doc, end).0,
        lines: composer_box(label(prefix, start, end), c.input, width, theme),
        note: None,
    }
}

/// The lines with the gutter accented above each of the first `n` cards.
pub open spec fn accents(
    lines: Seq<LineView>,
    cards: Seq<CardView>,
    n: int,
    doc: DocView,
) -> Seq<LineView>
    decreases n,
{
    if n <= 0 {
        lines
    } else {
        let rest = accents(lines, cards, n - 1, doc);
        if cards[n - 1].anchor > 0 {
            accented(rest, cards[n - 1].anchor - 1, doc)
        } else {
            rest
        }
    }
}

proof fn lemma_accents_len(lines: Seq<LineView>, cards: Seq<CardView>, n: int, doc: DocView)
    ensures
        accents(lines, cards, n, doc).len() == lines.len(),
    decreases n,
{
    if n > 0 {
        lemma_accents_len(lines, cards, n - 1, doc);
    }
}

proof fn lemma_anchor_in_doc(doc: DocView, end: u32)
    ensures
        0 <= anchor(doc, end).0 <= doc.rows.len(),
{
    lemma_line_of_new(doc, end, 0);
}

proof fn lemma_line_of_new(doc: DocView, n: u32, i: int)
    requires
        0 <= i,
    ensures
        doc.line_of_new(n, i) matches Some(l) ==> 0 <= l < doc.rows.len(),
    decreases doc.rows.len() - i,
{
    if i < doc.rows.len() {
        lemma_line_of_new(doc, n, i + 1);
    }
}

/// The lines and numbers gathered from `n` document lines from `from` on.
#[verifier::ext_equal]
pub struct Gathered {
    pub numbers: Seq<u32>,
    pub snippet: Seq<char>,
}

/// The number that a line goes by: the new one, or the old one where the line
/// is deleted.
pub open spec fn known_as(numbers: (Option<u32>, Option<u32>)) -> u32 {
    match numbers {
        (_, Some(new)) => new,
        (Some(old), None) => old,
        (None, None) => 0,
    }
}

pub open spec fn gather_line(g: Gathered, doc: DocView, cards: CardMapView, line: int) -> Gathered {
    match cards.to_diff(line) {
        None => g,
        Some(d) => Gathered {
            numbers: match doc.numbers(d) {
                Some(p) => g.numbers.push(known_as(p)),
                None => g.numbers,
            },
            snippet: match doc.marked_text(d) {
                Some(t) => if t.len() > 0 && lines(g.snippet).len() < SNIPPET_LINES {
                    g.snippet + t + seq!['\n']
                } else {
                    g.snippet
                },
                None => g.snippet,
            },
        },
    }
}

pub open spec fn gathered(doc: DocView, cards: CardMapView, from: int, n: int) -> Gathered
    decreases n,
{
    if n <= 0 {
        Gathered { numbers: Seq::empty(), snippet: Seq::empty() }
    } else {
        gather_line(gathered(doc, cards, from, n - 1), doc, cards, from + n - 1)
    }
}

pub open spec fn least(s: Seq<u32>) -> u32
    decreases s.len(),
{
    if s.len() <= 1 {
        s[0]
    } else if s.last() < least(s.drop_last()) {
        s.last()
    } else {
        least(s.drop_last())
    }
}

pub open spec fn greatest(s: Seq<u32>) -> u32
    decreases s.len(),
{
    if s.len() <= 1 {
        s[0]
    } else if s.last() > greatest(s.drop_last()) {
        s.last()
    } else {
        greatest(s.drop_last())
    }
}

pub open spec fn min2(a: int, b: int) -> int {
    if a < b {
        a
    } else {
        b
    }
}

pub open spec fn max2(a: int, b: int) -> int {
    if a > b {
        a
    } else {
        b
    }
}

/// `x` brought between `lo` and `hi`.
pub open spec fn clamped_to(x: int, lo: int, hi: int) -> int {
    if x < lo {
        lo
    } else if x > hi {
        hi
    } else {
        x
    }
}

impl PreviewView {
    /// The last line of the document (0 where it is empty).
    pub open spec fn last(self) -> int {
        max2(self.doc.len() - 1, 0)
    }

    pub open spec fn page_height(self) -> int {
        max2(self.viewport_h as int, 1)
    }

    pub open spec fn max_scroll(self) -> int {
        min2(max2(self.doc.len() - self.viewport_h, 0), 65535)
    }

    pub open spec fn scroll_clamped(self) -> PreviewView {
        if self.scroll > self.max_scroll() {
            PreviewView { scroll: self.max_scroll() as u16, ..self }
        } else {
            self
        }
    }

    /// The selected lines (anchor..=cursor), or the cursor's.
    pub open spec fn selected(self) -> (int, int) {
        match self.select_anchor {
            Some(a) => (min2(a, self.cursor_line), max2(a, self.cursor_line)),
            None => (self.cursor_line, self.cursor_line),
        }
    }

    pub open spec fn tint(self) -> Tint {
        let (from, to) = self.selected();
        match self.select_anchor {
            Some(_) => Tint { from, to, skip_cards: true, bg: select_bg(self.cfg.theme) },
            None => Tint { from, to, skip_cards: false, bg: cursor_bg(self.cfg.theme) },
        }
    }

    /// The document without any tint.
    pub open spec fn untinted(self) -> Seq<LineView> {
        restored(self.doc, self.saved_tint, self.saved_tint.len() as int)
    }

    /// The old tint undone, and the cursor's line or the selection tinted.
    pub open spec fn restyled(self) -> PreviewView {
        let doc = self.untinted();
        if self.state !is Diff {
            PreviewView { doc, saved_tint: Seq::empty(), ..self }
        } else {
            let s = PreviewView { doc, cursor_line: min2(self.cursor_line, self.last()), ..self };
            PreviewView {
                doc: tinted(doc, s.tint(), s.cards, doc.len() as int),
                saved_tint: tint_saves(doc, s.tint(), s.cards, doc.len() as int),
                ..s
            }
        }
    }

    pub open spec fn card_width(self) -> nat {
        at_least(self.viewport_w as nat, MIN_WIDTH as nat)
    }

    /// The cards of the shown file; the composer's comes last.
    pub open spec fn cards_of(self, doc: DocView, file: Seq<char>) -> Seq<CardView> {
        let editing = match self.composer {
            Some(c) => c.editing,
            None => None,
        };
        let notes = note_cards(
            self.notes,
            self.notes.len() as int,
            file,
            editing,
            doc,
            self.card_width(),
            self.cfg.theme,
        );
        match self.composer {
            Some(c) => notes.push(
                composer_card_of(c, self.pending_note, doc, self.card_width(), self.cfg.theme),
            ),
            None => notes,
        }
    }

    /// The document of the built diff with the cards spliced in, capped.
    pub open spec fn synced(self) -> PreviewView {
        match self.built {
            None => self,
            Some(b) => {
                let (all, cards) = match self.current {
                    None => (b.lines(), no_cards()),
                    Some(req) => {
                        let cards = self.cards_of(b, req.file);
                        let base = accents(b.lines(), cards, cards.len() as int, b);
                        (spliced(base, by_anchor(cards)), card_map(base, by_anchor(cards)))
                    },
                };
                PreviewView {
                    doc: capped(all),
                    truncated: hidden_lines(all) as int,
                    cards,
                    ..self
                }
            },
        }
    }

    /// `line` brought into the document and off any card.
    pub open spec fn off_card(self, line: int, back: bool) -> int {
        self.cards.snapped(min2(line, self.last()), back, self.last())
    }

    /// Drawn anew: after anything that changes the document's content.
    #[verifier::opaque]
    pub open spec fn rebuilt(self) -> PreviewView {
        let s = PreviewView { saved_tint: Seq::empty(), ..self.synced() };
        PreviewView { cursor_line: s.off_card(s.cursor_line, false), ..s }.restyled()
    }

    /// The cursor dragged along with the viewport so that it is never
    /// off-screen. A live selection is left alone, since moving the cursor
    /// there would silently extend it.
    pub open spec fn cursor_kept_visible(self) -> PreviewView {
        if self.select_anchor is Some {
            self
        } else {
            let top = self.scroll as int;
            let bottom = min2(top + self.page_height() - 1, self.last());
            let at = clamped_to(self.cursor_line, min2(top, bottom), bottom);
            let to = self.off_card(at, at < self.cursor_line);
            if to == self.cursor_line {
                self
            } else {
                PreviewView { cursor_line: to, ..self }.restyled()
            }
        }
    }

    /// Scrolled by `delta` lines; the least number jumps home, the greatest to
    /// the bottom.
    pub open spec fn scrolled(self, delta: i32) -> PreviewView {
        let scroll = if delta == i32::MIN {
            0
        } else if delta == i32::MAX {
            self.max_scroll()
        } else {
            clamped_to(self.scroll + delta, 0, self.max_scroll())
        };
        PreviewView { scroll: scroll as u16, ..self }.cursor_kept_visible()
    }

    /// The cursor moved by `delta` lines (the extremes: home and end), over
    /// cards rather than into them, with the view following.
    pub open spec fn cursor_moved(self, delta: i32) -> PreviewView {
        let (target, back) = if delta == i32::MIN {
            (0, false)
        } else if delta == i32::MAX {
            (self.last(), true)
        } else {
            (clamped_to(self.cursor_line + delta, 0, self.last()), delta < 0)
        };
        let line = self.off_card(target, back);
        let scroll = if line < self.scroll {
            line as u16
        } else if line >= self.scroll + self.page_height() {
            (line + 1 - self.page_height()) as u16
        } else {
            self.scroll
        };
        PreviewView { cursor_line: line, scroll, ..self }.restyled()
    }

    pub open spec fn flashed(self, msg: Seq<char>) -> PreviewView {
        PreviewView { flash: Some((msg, self.now)), ..self }
    }

    /// How many cards of the file stand above that of note `i`.
    pub open spec fn card_rank(self, doc: DocView, file: Seq<char>, i: int, n: int) -> int
        decreases n,
    {
        if n <= 0 {
            0
        } else {
            let j = n - 1;
            let (a, b) = (anchor(doc, self.notes[j].end).0, anchor(doc, self.notes[i].end).0);
            self.card_rank(doc, file, i, n - 1) + if same_path(self.notes[j].file, file) && (a < b
                || (a == b && j < i)) {
                1int
            } else {
                0
            }
        }
    }

    /// The note's card scrolled into view, with a little air above it.
    pub open spec fn scrolled_to_note(self, id: u64) -> PreviewView {
        let i = note_at(self.notes, id, 0);
        match (self.current, self.built) {
            (Some(req), Some(b)) => {
                if i < self.notes.len() && same_path(self.notes[i].file, req.file) {
                    let rank = self.card_rank(b, req.file, i, self.notes.len() as int);
                    if rank < self.cards.starts.len() {
                        PreviewView {
                            scroll: max2(self.cards.starts[rank] - 3, 0) as u16,
                            ..self
                        }.scroll_clamped().cursor_kept_visible()
                    } else {
                        self
                    }
                } else {
                    self
                }
            },
            _ => self,
        }
    }

    /// The composer's box scrolled into view; its top stays visible when it is
    /// taller than the viewport.
    pub open spec fn scrolled_to_composer(self) -> PreviewView {
        match self.cards.composer {
            None => self,
            Some((start, len)) => {
                let end = start + len;
                let down = if end > self.scroll + self.page_height() {
                    (end - self.page_height()) as u16
                } else {
                    self.scroll
                };
                let scroll = if down > start {
                    start as u16
                } else {
                    down
                };
                PreviewView { scroll, ..self }.scroll_clamped()
            },
        }
    }

    /// A built diff taken over.
    pub open spec fn diff_set(self, doc: DocView) -> PreviewView {
        let s = PreviewView { first_change: doc.first_change, ..self };
        let gone = PreviewView { built: None, saved_tint: Seq::empty(), doc: Seq::empty(), ..s };
        if doc.binary {
            PreviewView { state: StateView::Binary, ..gone }.scroll_clamped()
        } else if doc.is_empty {
            PreviewView { truncated: 0, state: StateView::Empty, ..gone }.scroll_clamped()
        } else {
            s.diff_taken(doc)
        }
    }

    /// A diff with changes taken over. A same-file refresh keeps the cursor
    /// and any live selection; only a different file resets them.
    pub open spec fn diff_taken(self, doc: DocView) -> PreviewView {
        let same_file = match (self.current, self.shown_file) {
            (Some(req), Some(f)) => same_path(f, req.file),
            _ => false,
        };
        let t = PreviewView {
            shown_file: match self.current {
                Some(req) => Some(req.file),
                None => None,
            },
            built: Some(doc),
            cursor_line: if same_file {
                self.cursor_line
            } else {
                0
            },
            select_anchor: if same_file {
                self.select_anchor
            } else {
                None
            },
            state: StateView::Diff,
            ..self
        }.scroll_clamped().rebuilt();
        match t.pending_focus {
            Some(id) => PreviewView { pending_focus: None, ..t }.scrolled_to_note(id),
            None => t,
        }
    }

    /// A finished diff applied, unless it is stale.
    pub open spec fn diff_applied(
        self,
        req: ReqView,
        result: Result<DocView, Seq<char>>,
    ) -> PreviewView {
        match self.current {
            Some(cur) => if same_req(cur, req) {
                match result {
                    Ok(doc) => self.diff_set(doc),
                    Err(msg) => PreviewView { state: StateView::Error(msg), ..self },
                }
            } else {
                self
            },
            None => self,
        }
    }

    /// Whether `file` is the one that is shown.
    pub open spec fn shows(self, file: Seq<char>) -> bool {
        match self.current {
            Some(req) => same_path(req.file, file),
            None => false,
        }
    }

    pub open spec fn notes_bumped(self) -> u64 {
        self.notes_rev.wrapping_add(1)
    }

    /// The pending note committed with `text`.
    pub open spec fn annotated(self, text: Seq<char>) -> PreviewView {
        match self.pending_note {
            None => self,
            Some(n) => PreviewView {
                pending_note: None,
                notes: self.notes.push(NoteView { text, id: self.next_note_id, ..n }),
                next_note_id: self.next_note_id.wrapping_add(1),
                notes_rev: self.notes_bumped(),
                select_anchor: None,
                ..self
            }.rebuilt(),
        }
    }

    pub open spec fn note_edited(self, id: u64, text: Seq<char>) -> PreviewView {
        let i = note_at(self.notes, id, 0);
        if i < self.notes.len() {
            PreviewView {
                notes: self.notes.update(i, NoteView { text, ..self.notes[i] }),
                notes_rev: self.notes_bumped(),
                ..self
            }.rebuilt()
        } else {
            self
        }
    }

    pub open spec fn note_deleted(self, id: u64) -> PreviewView {
        let left = notes_without(self.notes, id, self.notes.len() as int);
        if left.len() != self.notes.len() {
            PreviewView { notes: left, notes_rev: self.notes_bumped(), ..self }.rebuilt()
        } else {
            self
        }
    }

    /// The composer closed without a note.
    pub open spec fn compose_cancelled(self) -> PreviewView {
        PreviewView { composer: None, pending_note: None, select_anchor: None, ..self }.rebuilt()
    }

    /// The composer closed with its note; an empty one is a cancel.
    pub open spec fn compose_committed(self) -> PreviewView {
        match self.composer {
            None => self,
            Some(c) => match finished(c.input.text) {
                None => self.compose_cancelled(),
                Some(text) => match c.editing {
                    Some(id) => PreviewView {
                        composer: None,
                        pending_note: None,
                        ..self
                    }.note_edited(id, text),
                    None => PreviewView { composer: None, ..self }.annotated(text),
                },
            },
        }
    }

    /// A key handed to the open composer.
    pub open spec fn compose_keyed(self, key: Key) -> PreviewView {
        match self.composer {
            None => self,
            Some(c) => {
                let (outcome, input) = composed(c.input, key, text_width(self.card_width()));
                match outcome {
                    Outcome::Ignored => self,
                    Outcome::Save => self.compose_committed(),
                    Outcome::Cancel => self.compose_cancelled(),
                    Outcome::Edited => PreviewView {
                        composer: Some(ComposerView { input, ..c }),
                        ..self
                    }.rebuilt().scrolled_to_composer(),
                }
            },
        }
    }

    /// A composer opened on `pending`.
    pub open spec fn composing(
        self,
        pending: NoteView,
        text: Seq<char>,
        editing: Option<u64>,
    ) -> PreviewView {
        PreviewView {
            pending_note: Some(pending),
            composer: Some(
                ComposerView { input: Editing { text, at: text.len() as int }, editing },
            ),
            ..self
        }.rebuilt().scrolled_to_composer()
    }

    /// The note that the selection would become. With none it covers the whole
    /// file; a selection without any line of code becomes no note.
    pub open spec fn captured(self, doc: DocView, req: ReqView) -> Option<NoteView> {
        if self.select_anchor is None {
            Some(
                NoteView {
                    id: 0,
                    file: req.file,
                    start: 0,
                    end: 0,
                    text: Seq::empty(),
                    snippet: Seq::empty(),
                    cached: req.cached,
                },
            )
        } else {
            self.captured_range(doc, req)
        }
    }

    /// The note on the lines of code among the selected ones.
    pub open spec fn captured_range(self, doc: DocView, req: ReqView) -> Option<NoteView> {
        let (a, b) = self.selected();
        let g = gathered(doc, self.cards, a, b - a + 1);
        if g.numbers.len() > 0 && least(g.numbers) > 0 {
            Some(
                NoteView {
                    id: 0,
                    file: req.file,
                    start: least(g.numbers),
                    end: greatest(g.numbers),
                    text: Seq::empty(),
                    snippet: g.snippet,
                    cached: req.cached,
                },
            )
        } else {
            None
        }
    }

    /// A composer opened on the selection, or on the whole file without one.
    /// Notes attach to staged and unstaged changes only.
    pub open spec fn annotating(self) -> PreviewView {
        match self.current {
            None => self,
            Some(req) => if req.commit is Some || req.scope != Scope::Worktree {
                self.flashed("notes work on staged/unstaged changes only"@)
            } else {
                match self.built {
                    None => self,
                    Some(doc) => match self.captured(doc, req) {
                        None => self.flashed("select some code to annotate"@),
                        Some(note) => self.composing(note, Seq::empty(), None),
                    },
                }
            },
        }
    }

    /// An action of the keyboard.
    pub open spec fn acted(self, action: Action) -> PreviewView {
        let half = (max2(self.viewport_h as int, 2) / 2) as i32;
        match action {
            Action::Down | Action::ScrollDown => self.cursor_moved(1),
            Action::Up | Action::ScrollUp => self.cursor_moved((-1) as i32),
            Action::HalfPageDown => self.cursor_moved(half),
            Action::HalfPageUp => self.cursor_moved((-half) as i32),
            Action::Top | Action::DiffTop => self.cursor_moved(i32::MIN),
            Action::Bottom | Action::DiffBottom => self.cursor_moved(i32::MAX),
            Action::Select => if self.state is Diff {
                match self.select_anchor {
                    Some(_) => PreviewView { select_anchor: None, ..self }.restyled(),
                    None => PreviewView {
                        select_anchor: Some(self.cursor_line),
                        ..self.flashed("visual: j/k extend · a note · esc cancel"@)
                    }.restyled(),
                }
            } else {
                self
            },
            Action::Annotate => self.annotating(),
            Action::NotesView => PreviewView { notes_view_request: true, ..self },
            Action::Edit => PreviewView { edit_request: true, ..self },
            Action::SendNotes => if self.notes.len() == 0 {
                self.flashed("no notes yet — select lines and press a"@)
            } else {
                PreviewView { popup_request: Some(PopupReq::PickAgent), ..self }
            },
            Action::Quit => if self.select_anchor is Some {
                PreviewView { select_anchor: None, ..self }.restyled()
            } else {
                PreviewView { should_quit: true, close_view: true, ..self }
            },
            _ => self,
        }
    }

    /// A key: the open composer owns it, else the action it is bound to.
    pub open spec fn keyed(self, key: Key, action: Option<Action>) -> PreviewView {
        if self.composer is Some {
            self.compose_keyed(key)
        } else {
            match action {
                Some(a) => self.acted(a),
                None => self,
            }
        }
    }

    /// The document line under terminal row `y`; the body starts at row 1.
    pub open spec fn line_under(self, y: u16) -> int {
        self.scroll + (y - 1)
    }

    /// Paged by the viewport's height, whole or half.
    pub open spec fn paged(self, down: bool, full: bool) -> PreviewView {
        let amount = if full {
            self.page_height()
        } else {
            max2(self.page_height() / 2, 1)
        };
        self.scrolled(
            if down {
                amount as i32
            } else {
                (-amount) as i32
            },
        )
    }

    /// The shown diff dropped.
    pub open spec fn cleared(self) -> PreviewView {
        PreviewView {
            current: None,
            built: None,
            shown_file: None,
            saved_tint: Seq::empty(),
            doc: Seq::empty(),
            first_change: None,
            truncated: 0,
            scroll: 0,
            state: StateView::Splash("no file selected"@),
            ..self
        }
    }

    /// A whole-file note added.
    pub open spec fn file_note_added(
        self,
        file: Seq<char>,
        text: Seq<char>,
        cached: bool,
    ) -> PreviewView {
        PreviewView {
            notes: self.notes.push(
                NoteView {
                    id: self.next_note_id,
                    file,
                    start: 0,
                    end: 0,
                    text,
                    snippet: Seq::empty(),
                    cached,
                },
            ),
            next_note_id: self.next_note_id.wrapping_add(1),
            notes_rev: self.notes_bumped(),
            ..self
        }.rebuilt()
    }

    /// A note brought into view, or remembered until its diff arrives.
    pub open spec fn note_focused(self, id: u64) -> PreviewView {
        let i = note_at(self.notes, id, 0);
        if i < self.notes.len() && self.shows(self.notes[i].file) && self.state is Diff {
            self.scrolled_to_note(id)
        } else {
            PreviewView { pending_focus: Some(id), ..self }
        }
    }

    /// A mouse event at terminal row `y`.
    pub open spec fn moused(self, kind: MouseKind, y: u16) -> PreviewView {
        match kind {
            MouseKind::ScrollDown => self.scrolled(3),
            MouseKind::ScrollUp => self.scrolled((-3) as i32),
            MouseKind::LeftDown => if y == 0 {
                self
            } else {
                let line = self.line_under(y);
                let fold = match (self.cards.to_diff(line), self.built) {
                    (Some(d), Some(b)) => b.is_fold(d),
                    _ => false,
                };
                if fold {
                    let d = self.cards.to_diff(line)->0;
                    let b = self.built->0;
                    PreviewView {
                        built: Some(DocView { rows: unfolded(b.rows, d), ..b }),
                        ..self
                    }.scroll_clamped().rebuilt()
                } else if !self.cards.on_card(line) && line < self.doc.len() {
                    PreviewView { select_anchor: None, cursor_line: line, ..self }.restyled()
                } else {
                    self
                }
            },
            MouseKind::LeftDrag => if y == 0 {
                self
            } else {
                let line = min2(self.line_under(y), self.last());
                PreviewView {
                    select_anchor: match self.select_anchor {
                        Some(a) => Some(a),
                        None => Some(self.cursor_line),
                    },
                    cursor_line: self.off_card(line, line < self.cursor_line),
                    ..self
                }.restyled()
            },
            MouseKind::Other => self,
        }
    }
}

// ---- the pane --------------------------------------------------------------

fn no_lines() -> (r: Vec<Line>)
    ensures
        lines_view(r@) == Seq::<LineView>::empty(),
{
    let v: Vec<Line> = Vec::new();
    assert(lines_view(v@) =~= Seq::<LineView>::empty());
    v
}

fn no_saves() -> (r: Vec<(usize, Line)>)
    ensures
        saved_view(r@) == Seq::<(int, LineView)>::empty(),
{
    let v: Vec<(usize, Line)> = Vec::new();
    assert(saved_view(v@) =~= Seq::<(int, LineView)>::empty());
    v
}

fn empty_text() -> (r: String)
    ensures
        r@ == Seq::<char>::empty(),
{
    let s = String::new();
    assert(s@ =~= Seq::<char>::empty());
    s
}

/// The state that a pane starts in.
pub open spec fn fresh(cfg: ConfigView, root: Seq<char>) -> PreviewView {
    PreviewView {
        cfg,
        root,
        now: 0,
        current: None,
        built: None,
        doc: Seq::empty(),
        first_change: None,
        truncated: 0,
        scroll: 0,
        viewport_h: 0,
        viewport_w: 0,
        base: None,
        cursor_line: 0,
        select_anchor: None,
        notes: Seq::empty(),
        pending_note: None,
        composer: None,
        popup_request: None,
        notes_view_request: false,
        edit_request: false,
        saved_tint: Seq::empty(),
        shown_file: None,
        cards: no_cards(),
        pending_focus: None,
        notes_rev: 0,
        next_note_id: 1,
        flash: None,
        state: StateView::Splash("waiting for file list…"@),
        should_quit: false,
        close_view: false,
    }
}

impl PreviewApp {
    pub fn new(cfg: Config, repo: Repo) -> (r: PreviewApp)
        ensures
            r@ == fresh(cfg@, repo.root@),
    {
        let notes: Vec<Note> = Vec::new();
        assert(notes_view(notes@) =~= Seq::<NoteView>::empty());
        PreviewApp {
            cfg,
            repo,
            now: 0,
            current: None,
            built: None,
            doc: no_lines(),
            first_change: None,
            truncated: 0,
            scroll: 0,
            viewport_h: 0,
            viewport_w: 0,
            base: None,
            cursor_line: 0,
            select_anchor: None,
            notes,
            pending_note: None,
            composer: None,
            popup_request: None,
            notes_view_request: false,
            edit_request: false,
            saved_tint: no_saves(),
            shown_file: None,
            cards: CardMap::new(),
            pending_focus: None,
            notes_rev: 0,
            next_note_id: 1,
            flash: None,
            state: State::Splash("waiting for file list…"),
            should_quit: false,
            close_view: false,
        }
    }

    /// The list connected; if nothing has been shown yet, the splash text
    /// changes from "waiting" to "no file selected".
    pub fn on_connected(&mut self)
        ensures
            final(self)@ == (if old(self)@.current is None {
                PreviewView { state: StateView::Splash("no file selected"@), ..old(self)@ }
            } else {
                old(self)@
            }),
    {
        if self.current.is_none() {
            self.state = State::Splash("no file selected");
        }
    }

    /// The list has nothing selected any more: drop the shown diff.
    pub fn clear(&mut self)
        ensures
            final(self)@ == old(self)@.cleared(),
    {
        self.current = None;
        self.built = None;
        self.shown_file = None;
        self.saved_tint = no_saves();
        self.doc = no_lines();
        self.first_change = None;
        self.truncated = 0;
        self.scroll = 0;
        self.state = State::Splash("no file selected");
    }

    // ---- requests and finished diffs --------------------------------------

    /// Record a new request. Scroll resets on a file change and is preserved
    /// on a same-file refresh. The old document is kept until the new diff
    /// arrives, so there is no flicker.
    pub fn begin_show(&mut self, req: ShowReq)
        ensures
            final(self)@ == (PreviewView {
                current: Some(req@),
                scroll: if old(self)@.shows(req.file@) {
                    old(self)@.scroll
                } else {
                    0
                },
                ..old(self)@
            }),
    {
        let same_file = self.is_showing(req.file.as_str());
        if !same_file {
            self.scroll = 0;
        }
        self.current = Some(req);
    }

    /// Whether the base branch has yet to be resolved for the header.
    pub fn needs_base(&self) -> (r: bool)
        ensures
            r == (self@.base is None && (self@.current matches Some(req) && req.scope
                == Scope::Branch)),
    {
        match &self.current {
            Some(req) => self.base.is_none() && req.scope == Scope::Branch,
            None => false,
        }
    }

    /// Whether `file` is the one that is shown.
    pub fn is_showing(&self, file: &str) -> (r: bool)
        ensures
            r == self@.shows(file@),
    {
        match &self.current {
            Some(req) => path_eq(req.file.as_str(), file),
            None => false,
        }
    }

    /// Apply a finished diff, dropping it if it is stale (the selection moved
    /// on while it was computed).
    pub fn apply_diff(&mut self, req: &ShowReq, result: Result<DiffDoc, String>)
        ensures
            final(self)@ == old(self)@.diff_applied(
                req@,
                match result {
                    Ok(d) => Ok(d@),
                    Err(m) => Err(m@),
                },
            ),
    {
        let fresh = match &self.current {
            Some(cur) => cur.same_as(req),
            None => false,
        };
        if !fresh {
            return ;
        }
        match result {
            Ok(doc) => self.set_diff(doc),
            Err(msg) => {
                self.state = State::Error(msg);
            },
        }
    }

    fn set_diff(&mut self, built: DiffDoc)
        ensures
            final(self)@ == old(self)@.diff_set(built@),
    {
        self.first_change = built.first_change();
        if built.binary() {
            self.built = None;
            self.saved_tint = no_saves();
            self.doc = no_lines();
            self.state = State::Binary;
            self.clamp_scroll();
            return ;
        }
        if built.is_empty() {
            self.built = None;
            self.saved_tint = no_saves();
            self.doc = no_lines();
            self.truncated = 0;
            self.state = State::Empty;
            self.clamp_scroll();
            return ;
        }
        self.take_diff(built);
    }

    fn take_diff(&mut self, built: DiffDoc)
        ensures
            final(self)@ == old(self)@.diff_taken(built@),
    {
        let same_file = match &self.shown_file {
            Some(f) => self.current_is(f.as_str()),
            None => false,
        };
        self.shown_file = match &self.current {
            Some(req) => Some(copy(req.file.as_str())),
            None => None,
        };
        self.built = Some(built);
        if !same_file {
            self.cursor_line = 0;
            self.select_anchor = None;
        }
        self.state = State::Diff;
        self.clamp_scroll();
        self.rebuild();
        if let Some(id) = self.pending_focus {
            self.pending_focus = None;
            self.scroll_to_note(id);
        }
    }

    fn current_is(&self, f: &str) -> (r: bool)
        ensures
            r == (match self@.current {
                Some(req) => same_path(f@, req.file),
                None => false,
            }),
    {
        match &self.current {
            Some(req) => path_eq(f, req.file.as_str()),
            None => false,
        }
    }

    // ---- the document ------------------------------------------------------

    /// The cards of the shown file; the composer's comes last.
    fn collect_cards(&self, built: &DiffDoc, file: &str) -> (r: Vec<Card>)
        ensures
            cards_view(r@) == self@.cards_of(built@, file@),
            anchored(cards_view(r@), built@.rows.len() as int),
    {
        let width: usize = if self.viewport_w < MIN_WIDTH {
            MIN_WIDTH as usize
        } else {
            self.viewport_w as usize
        };
        let theme = self.cfg.theme;
        let editing = match &self.composer {
            Some(c) => c.editing,
            None => None,
        };
        let ghost all = notes_view(self.notes@);
        let ghost len = built@.rows.len() as int;
        let mut cards: Vec<Card> = Vec::new();
        let mut i: usize = 0;
        assert(cards_view(cards@) =~= Seq::<CardView>::empty());
        while i < self.notes.len()
            invariant
                i <= self.notes@.len(),
                all == notes_view(self.notes@),
                len == built@.rows.len(),
                cards_view(cards@) == note_cards(
                    all,
                    i as int,
                    file@,
                    editing,
                    built@,
                    width as nat,
                    theme,
                ),
                anchored(cards_view(cards@), len),
            decreases self.notes@.len() - i,
        {
            let n = &self.notes[i];
            assert(all[i as int] == n@);
            let hidden = match editing {
                Some(id) => id == n.id,
                None => false,
            };
            if path_eq(n.file.as_str(), file) && !hidden {
                let (at, _) = anchor_of(built, n.end);
                let title = range_label("note", n.start, n.end);
                let lines = note_card(title.as_str(), n.text.as_str(), width, theme);
                let card = Card { anchor: at, lines, note: Some(n.id) };
                proof {
                    lemma_anchor_in_doc(built@, n.end);
                    lemma_cards_push(cards@, card);
                }
                cards.push(card);
            }
            i += 1;
        }
        if let Some(c) = &self.composer {
            let (start, end) = match &self.pending_note {
                Some(n) => (n.start, n.end),
                None => (0, 0),
            };
            let (at, _) = anchor_of(built, end);
            let title = if c.editing.is_some() {
                range_label("edit note", start, end)
            } else {
                range_label("new note", start, end)
            };
            let lines = composer_card(title.as_str(), &c.input, width, theme);
            let card = Card { anchor: at, lines, note: None };
            proof {
                lemma_anchor_in_doc(built@, end);
                lemma_cards_push(cards@, card);
            }
            cards.push(card);
        }
        cards
    }

    /// Take over the built diff's lines, with the cards of the current file
    /// spliced in under their lines, and cap the whole.
    fn sync_doc(&mut self)
        ensures
            final(self)@ == old(self)@.synced(),
    {
        let (mut doc, cards) = match &self.built {
            None => {
                return ;
            },
            Some(built) => match &self.current {
                None => (copy_lines(built.text()), CardMap::new()),
                Some(req) => {
                    let cards = self.collect_cards(built, req.file.as_str());
                    let ghost cv = cards_view(cards@);
                    let mut base = copy_lines(built.text());
                    accent_all(&mut base, &cards, built);
                    let ghost n = base@.len();
                    let sorted = sort_cards(cards);
                    proof {
                        lemma_accents_len(built@.lines(), cv, cv.len() as int, built@);
                        lemma_by_anchor(cv, built@.rows.len() as int);
                    }
                    splice(&base, &sorted)
                },
            },
        };
        self.truncated = cap(&mut doc);
        self.doc = doc;
        self.cards = cards;
    }

    /// Draw anew from the built diff, then tint. For anything that changes the
    /// document's content; plain cursor or selection moves only restyle.
    fn rebuild(&mut self)
        ensures
            final(self)@ == old(self)@.rebuilt(),
    {
        proof {
            reveal(PreviewView::rebuilt);
        }
        self.sync_doc();
        self.saved_tint = no_saves();
        self.cursor_line = self.snap_off_card(self.cursor_line, 1);
        self.restyle();
    }

    /// Tint the cursor's line or the selection, undoing the last tint first.
    fn restyle(&mut self)
        ensures
            final(self)@ == old(self)@.restyled(),
    {
        let mut saved = no_saves();
        std::mem::swap(&mut saved, &mut self.saved_tint);
        let mut doc = no_lines();
        std::mem::swap(&mut doc, &mut self.doc);
        restore(&mut doc, &saved);
        if !self.state.is_diff() {
            self.doc = doc;
            return ;
        }
        let light = self.cfg.theme.is_light();
        let last: usize = if doc.len() == 0 {
            0
        } else {
            doc.len() - 1
        };
        if self.cursor_line > last {
            self.cursor_line = last;
        }
        let (from, to) = self.selection();
        let fresh = match self.select_anchor {
            Some(_) => {
                let bg = if light {
                    Color::Rgb(0xd8, 0xdd, 0xe6)
                } else {
                    Color::Rgb(0x45, 0x47, 0x5a)
                };
                tint(&mut doc, from, to, true, bg, &self.cards)
            },
            None => {
                let bg = if light {
                    Color::Rgb(0xdf, 0xe4, 0xee)
                } else {
                    Color::Rgb(0x39, 0x3b, 0x4f)
                };
                tint(&mut doc, from, to, false, bg, &self.cards)
            },
        };
        self.doc = doc;
        self.saved_tint = fresh;
    }

    // ---- mouse -------------------------------------------------------------

    /// The wheel scrolls; a left click moves the cursor (and expands folds);
    /// dragging extends a selection. `y` is the terminal row (the body starts
    /// at 1, under the header).
    pub fn on_mouse(&mut self, kind: MouseKind, y: u16)
        ensures
            final(self)@ == old(self)@.moused(kind, y),
    {
        match kind {
            MouseKind::ScrollDown => self.scroll_by(3),
            MouseKind::ScrollUp => self.scroll_by(-3),
            MouseKind::LeftDown => {
                if y == 0 {
                    return ;
                }
                let line: usize = self.scroll as usize + (y - 1) as usize;
                let to_built = self.cards.to_built(line);
                if let Some(bl) = to_built {
                    if self.unfold(bl) {
                        self.clamp_scroll();
                        self.rebuild();
                        return ;
                    }
                }
                if to_built.is_some() && line < self.doc.len() {
                    self.select_anchor = None;
                    self.cursor_line = line;
                    self.restyle();
                }
            },
            MouseKind::LeftDrag => {
                if y == 0 {
                    return ;
                }
                let under: usize = self.scroll as usize + (y - 1) as usize;
                let last = self.last_line();
                let line: usize = if under < last {
                    under
                } else {
                    last
                };
                if self.select_anchor.is_none() {
                    self.select_anchor = Some(self.cursor_line);
                }
                let dir: i32 = if line >= self.cursor_line {
                    1
                } else {
                    -1
                };
                self.cursor_line = self.snap_off_card(line, dir);
                self.restyle();
            },
            MouseKind::Other => {},
        }
    }

    /// Expand the fold at the built diff's line, if it is one.
    fn unfold(&mut self, line: usize) -> (r: bool)
        ensures
            r == (match old(self)@.built {
                Some(b) => b.is_fold(line as int),
                None => false,
            }),
            !r ==> final(self)@ == old(self)@,
            r ==> final(self)@ == (PreviewView {
                built: Some(
                    DocView {
                        rows: unfolded(old(self)@.built->0.rows, line as int),
                        ..old(self)@.built->0
                    },
                ),
                ..old(self)@
            }),
    {
        let mut built: Option<DiffDoc> = None;
        std::mem::swap(&mut built, &mut self.built);
        match built {
            None => false,
            Some(mut doc) => {
                let r = doc.unfold_at(line);
                self.built = Some(doc);
                r
            },
        }
    }

    /// The built diff's line that a document line shows; `None` on a card.
    pub fn doc_to_built(&self, line: usize) -> (r: Option<usize>)
        ensures
            opt_int(r) == self@.cards.to_diff(line as int),
    {
        self.cards.to_built(line)
    }

    // ---- scrolling ---------------------------------------------------------

    /// Record the body size of the current draw. A width change boxes the note
    /// cards anew, so they always match the pane they are drawn in.
    pub fn set_viewport(&mut self, w: u16, h: u16)
        ensures
            final(self)@ == ({
                let s = PreviewView { viewport_h: h, viewport_w: w, ..old(self)@ };
                if old(self)@.viewport_w != w && s.state is Diff {
                    s.rebuilt().scroll_clamped()
                } else {
                    s.scroll_clamped()
                }
            }),
    {
        self.viewport_h = h;
        if self.viewport_w != w {
            self.viewport_w = w;
            if self.state.is_diff() {
                self.rebuild();
            }
        }
        self.clamp_scroll();
    }

    fn last_line(&self) -> (r: usize)
        ensures
            r == self@.last(),
    {
        if self.doc.len() == 0 {
            0
        } else {
            self.doc.len() - 1
        }
    }

    fn max_scroll(&self) -> (r: u16)
        ensures
            r == self@.max_scroll(),
    {
        let n = self.doc.len().saturating_sub(self.viewport_h as usize);
        if n > 65535 {
            65535
        } else {
            n as u16
        }
    }

    fn clamp_scroll(&mut self)
        ensures
            final(self)@ == old(self)@.scroll_clamped(),
    {
        let max = self.max_scroll();
        if self.scroll > max {
            self.scroll = max;
        }
    }

    /// Scroll by `delta` lines; the least number jumps home, the greatest to
    /// the bottom.
    pub fn scroll_by(&mut self, delta: i32)
        ensures
            final(self)@ == old(self)@.scrolled(delta),
    {
        let max = self.max_scroll();
        self.scroll = if delta == i32::MIN {
            0
        } else if delta == i32::MAX {
            max
        } else {
            let next: i64 = self.scroll as i64 + delta as i64;
            if next < 0 {
                0
            } else if next > max as i64 {
                max
            } else {
                next as u16
            }
        };
        self.keep_cursor_visible();
    }

    fn page_height(&self) -> (r: usize)
        ensures
            r == self@.page_height(),
    {
        if self.viewport_h == 0 {
            1
        } else {
            self.viewport_h as usize
        }
    }

    /// Drag the cursor along with the viewport so that it is never off-screen.
    fn keep_cursor_visible(&mut self)
        ensures
            final(self)@ == old(self)@.cursor_kept_visible(),
    {
        if self.select_anchor.is_some() {
            return ;
        }
        let last = self.last_line();
        let top: usize = self.scroll as usize;
        let low: usize = top + self.page_height() - 1;
        let bottom: usize = if low < last {
            low
        } else {
            last
        };
        let first: usize = if top < bottom {
            top
        } else {
            bottom
        };
        let at: usize = if self.cursor_line < first {
            first
        } else if self.cursor_line > bottom {
            bottom
        } else {
            self.cursor_line
        };
        let dir: i32 = if at < self.cursor_line {
            -1
        } else {
            1
        };
        let to = self.snap_off_card(at, dir);
        if to != self.cursor_line {
            self.cursor_line = to;
            self.restyle();
        }
    }

    /// The file line number under the cursor: the new one, or the old one on a
    /// deleted line. `None` on a fold or a note card, which belong to no line
    /// of the file.
    pub fn cursor_file_line(&self) -> (r: Option<u32>)
        ensures
            r == (match (self@.built, self@.cards.to_diff(self@.cursor_line)) {
                (Some(b), Some(d)) => match b.numbers(d) {
                    Some((_, Some(new))) => Some(new),
                    Some((old_no, None)) => old_no,
                    None => None,
                },
                _ => None,
            }),
    {
        match &self.built {
            None => None,
            Some(built) => match self.doc_to_built(self.cursor_line) {
                None => None,
                Some(line) => match built.numbers_of_line(line) {
                    None => None,
                    Some((old_no, new_no)) => if new_no.is_some() {
                        new_no
                    } else {
                        old_no
                    },
                },
            },
        }
    }

    /// Page by the viewport's height (`full` = a whole page, else half).
    pub fn page(&mut self, down: bool, full: bool)
        ensures
            final(self)@ == old(self)@.paged(down, full),
    {
        let vh: i32 = self.page_height() as i32;
        let amount: i32 = if full {
            vh
        } else if vh / 2 > 1 {
            vh / 2
        } else {
            1
        };
        self.scroll_by(
            if down {
                amount
            } else {
                -amount
            },
        );
    }

    // ---- cursor and selection ----------------------------------------------

    /// Move the cursor line (the extremes: home and end), keep it visible, and
    /// tint anew.
    fn move_cursor(&mut self, delta: i32)
        ensures
            final(self)@ == old(self)@.cursor_moved(delta),
    {
        let last = self.last_line();
        let (target, dir): (usize, i32) = if delta == i32::MIN {
            (0, 1)
        } else if delta == i32::MAX {
            (last, -1)
        } else {
            let next: i128 = self.cursor_line as i128 + delta as i128;
            let at: usize = if next < 0 {
                0
            } else if next > last as i128 {
                last
            } else {
                next as usize
            };
            (
                at,
                if delta < 0 {
                    -1
                } else {
                    1
                },
            )
        };
        self.cursor_line = self.snap_off_card(target, dir);
        let vh = self.page_height();
        if self.cursor_line < self.scroll as usize {
            self.scroll = #[verifier::truncate]
            (self.cursor_line as u16);
        } else if self.cursor_line >= self.scroll as usize + vh {
            self.scroll = #[verifier::truncate]
            ((self.cursor_line - vh + 1) as u16);
        }
        self.restyle();
    }

    /// The nearest line that is not part of a note card, searching in `dir`
    /// (-1 back, +1 forward) first and the other way if that runs out.
    ///
    /// Cards are read-only decoration: a cursor on one could select and
    /// annotate an annotation, and no line of the file belongs to it.
    fn snap_off_card(&self, line: usize, dir: i32) -> (r: usize)
        ensures
            r == self@.off_card(line as int, dir < 0),
    {
        let last = self.last_line();
        let line: usize = if line < last {
            line
        } else {
            last
        };
        self.cards.snap(line, dir < 0, last)
    }

    /// The selected document lines (anchor..=cursor), or the cursor's.
    pub fn selection(&self) -> (r: (usize, usize))
        ensures
            r.0 == self@.selected().0,
            r.1 == self@.selected().1,
            r.0 <= r.1,
    {
        match self.select_anchor {
            Some(a) => if a < self.cursor_line {
                (a, self.cursor_line)
            } else {
                (self.cursor_line, a)
            },
            None => (self.cursor_line, self.cursor_line),
        }
    }

    // ---- keys --------------------------------------------------------------

    /// A key pressed in this pane, with the action it is bound to.
    pub fn on_key(&mut self, ev: Key, action: Option<Action>)
        ensures
            final(self)@ == old(self)@.keyed(ev, action),
    {
        if self.composer.is_some() {
            self.compose_key(ev);
            return ;
        }
        let action = match action {
            None => {
                return ;
            },
            Some(a) => a,
        };
        let half: i32 = (if self.viewport_h < 2 {
            2i32
        } else {
            self.viewport_h as i32
        }) / 2;
        match action {
            Action::Down | Action::ScrollDown => self.move_cursor(1),
            Action::Up | Action::ScrollUp => self.move_cursor(-1),
            Action::HalfPageDown => self.move_cursor(half),
            Action::HalfPageUp => self.move_cursor(-half),
            Action::Top | Action::DiffTop => self.move_cursor(i32::MIN),
            Action::Bottom | Action::DiffBottom => self.move_cursor(i32::MAX),
            Action::Select => {
                if self.state.is_diff() {
                    if self.select_anchor.is_some() {
                        self.select_anchor = None;
                    } else {
                        self.flash("visual: j/k extend · a note · esc cancel");
                        self.select_anchor = Some(self.cursor_line);
                    }
                    self.restyle();
                }
            },
            Action::Annotate => self.begin_annotate(),
            Action::NotesView => {
                self.notes_view_request = true;
            },
            Action::Edit => {
                self.edit_request = true;
            },
            Action::SendNotes => {
                if self.notes.len() == 0 {
                    self.flash("no notes yet — select lines and press a");
                } else {
                    self.popup_request = Some(PopupReq::PickAgent);
                }
            },
            Action::Quit => {
                if self.select_anchor.is_some() {
                    self.select_anchor = None;
                    self.restyle();
                } else {
                    self.should_quit = true;
                    self.close_view = true;
                }
            },
            _ => {},
        }
    }

    // ---- notes -------------------------------------------------------------

    /// Capture the selection as a pending note and open the composer on it. With
    /// no active selection, the note covers the whole file.
    fn begin_annotate(&mut self)
        ensures
            final(self)@ == old(self)@.annotating(),
    {
        let (file, cached, refused) = match &self.current {
            None => {
                return ;
            },
            Some(req) => (
                copy(req.file.as_str()),
                req.cached,
                req.commit.is_some() || req.scope != Scope::Worktree,
            ),
        };
        if refused {
            self.flash("notes work on staged/unstaged changes only");
            return ;
        }
        let (a, b) = self.selection();
        let found = match &self.built {
            None => {
                return ;
            },
            Some(built) => if self.select_anchor.is_none() {
                (Some((0u32, 0u32)), empty_text())
            } else {
                gather(built, &self.cards, a, b)
            },
        };
        let (range, snippet) = found;
        match range {
            Some((start, end)) if start > 0 || self.select_anchor.is_none() => {
                let note = Note {
                    id: 0,
                    file,
                    start,
                    end,
                    text: empty_text(),
                    snippet,
                    cached,
                };
                self.compose(note, empty_text(), None);
            },
            _ => {
                self.flash("select some code to annotate");
            },
        }
    }

    /// Open the composer on `pending`.
    fn compose(&mut self, pending: Note, text: String, editing: Option<u64>)
        ensures
            final(self)@ == old(self)@.composing(pending@, text@, editing),
    {
        self.pending_note = Some(pending);
        self.composer = Some(Composer::new(text, editing));
        self.rebuild();
        self.scroll_to_composer();
    }

    /// Keys while the composer is open.
    fn compose_key(&mut self, ev: Key)
        ensures
            final(self)@ == old(self)@.compose_keyed(ev),
    {
        let width = self.composer_width();
        let mut taken: Option<Composer> = None;
        std::mem::swap(&mut taken, &mut self.composer);
        match taken {
            None => {},
            Some(mut composer) => {
                let outcome = composer.key(ev, width);
                self.composer = Some(composer);
                match outcome {
                    Outcome::Edited => {
                        self.rebuild();
                        self.scroll_to_composer();
                    },
                    Outcome::Save => self.commit_composer(),
                    Outcome::Cancel => self.cancel_composer(),
                    Outcome::Ignored => {},
                }
            },
        }
    }

    /// Text width inside the composer's box.
    fn composer_width(&self) -> (r: usize)
        ensures
            r == text_width(self@.card_width()),
    {
        card_text_width(
            if self.viewport_w < MIN_WIDTH {
                MIN_WIDTH as usize
            } else {
                self.viewport_w as usize
            },
        )
    }

    /// Save a new note or the edit of an existing one. An empty note is a
    /// cancel: there is nothing to send an agent.
    fn commit_composer(&mut self)
        ensures
            final(self)@ == old(self)@.compose_committed(),
    {
        let mut taken: Option<Composer> = None;
        std::mem::swap(&mut taken, &mut self.composer);
        match taken {
            None => {},
            Some(composer) => {
                let editing = composer.editing;
                match composer.finish() {
                    None => {
                        self.cancel_composer();
                    },
                    Some(text) => match editing {
                        Some(id) => {
                            self.pending_note = None;
                            self.edit_note(id, text);
                        },
                        None => self.finish_annotate(text),
                    },
                }
            },
        }
    }

    fn cancel_composer(&mut self)
        ensures
            final(self)@ == old(self)@.compose_cancelled(),
    {
        self.composer = None;
        self.pending_note = None;
        self.select_anchor = None;
        self.rebuild();
    }

    /// Open the composer on an existing note. Returns false when the note is
    /// not in the shown file, so that the caller can fall back.
    pub fn begin_edit_note(&mut self, id: u64) -> (r: bool)
        ensures
            r == ({
                let i = note_at(old(self)@.notes, id, 0);
                i < old(self)@.notes.len() && old(self)@.shows(old(self)@.notes[i].file)
            }),
            final(self)@ == (if r {
                let note = old(self)@.notes[note_at(old(self)@.notes, id, 0)];
                PreviewView { select_anchor: None, ..old(self)@ }.composing(
                    note,
                    note.text,
                    Some(id),
                )
            } else {
                old(self)@
            }),
    {
        let i = find_note(&self.notes, id);
        if i >= self.notes.len() {
            return false;
        }
        assert(notes_view(self.notes@)[i as int] == self.notes@[i as int]@);
        let note = self.notes[i].clone();
        if !self.is_showing(note.file.as_str()) {
            return false;
        }
        self.select_anchor = None;
        let text = copy(note.text.as_str());
        self.compose(note, text, Some(id));
        true
    }

    /// Open the composer for a whole-file note. Returns false when the file is
    /// not the one shown.
    pub fn begin_file_note(&mut self, file: String, cached: bool) -> (r: bool)
        ensures
            r == old(self)@.shows(file@),
            final(self)@ == (if r {
                PreviewView { select_anchor: None, ..old(self)@ }.composing(
                    (NoteView {
                        id: 0,
                        file: file@,
                        start: 0,
                        end: 0,
                        text: Seq::empty(),
                        snippet: Seq::empty(),
                        cached,
                    }),
                    Seq::empty(),
                    None,
                )
            } else {
                old(self)@
            }),
    {
        if !self.is_showing(file.as_str()) {
            return false;
        }
        self.select_anchor = None;
        let note = Note {
            id: 0,
            file,
            start: 0,
            end: 0,
            text: empty_text(),
            snippet: empty_text(),
            cached,
        };
        self.compose(note, empty_text(), None);
        true
    }

    /// Scroll so that the whole composer box is on screen.
    fn scroll_to_composer(&mut self)
        ensures
            final(self)@ == old(self)@.scrolled_to_composer(),
    {
        match self.cards.composer() {
            None => {},
            Some((start, len)) => {
                let vh = self.page_height();
                let end: usize = start + len;
                if end > self.scroll as usize + vh {
                    self.scroll = #[verifier::truncate]
                    ((end - vh) as u16);
                }
                if self.scroll as usize > start {
                    self.scroll = #[verifier::truncate]
                    (start as u16);
                }
                self.clamp_scroll();
            },
        }
    }

    /// Commit the pending note with its text.
    pub fn finish_annotate(&mut self, text: String)
        ensures
            final(self)@ == old(self)@.annotated(text@),
    {
        let mut taken: Option<Note> = None;
        std::mem::swap(&mut taken, &mut self.pending_note);
        match taken {
            None => {},
            Some(pending) => {
                let mut note = pending;
                note.text = text;
                note.id = self.next_note_id;
                self.next_note_id = self.next_note_id.wrapping_add(1);
                proof {
                    lemma_notes_push(self.notes@, note);
                }
                self.notes.push(note);
                self.notes_rev = self.notes_rev.wrapping_add(1);
                self.select_anchor = None;
                self.rebuild();
            },
        }
    }

    /// A whole-file note from the list pane.
    pub fn add_file_note(&mut self, file: String, text: String, cached: bool)
        ensures
            final(self)@ == old(self)@.file_note_added(file@, text@, cached),
    {
        let note = Note {
            id: self.next_note_id,
            file,
            start: 0,
            end: 0,
            text,
            snippet: empty_text(),
            cached,
        };
        proof {
            lemma_notes_push(self.notes@, note);
        }
        self.notes.push(note);
        self.next_note_id = self.next_note_id.wrapping_add(1);
        self.notes_rev = self.notes_rev.wrapping_add(1);
        self.rebuild();
    }

    pub fn clear_notes(&mut self)
        ensures
            final(self)@ == (PreviewView {
                notes: Seq::empty(),
                notes_rev: old(self)@.notes_bumped(),
                ..old(self)@
            }.rebuilt()),
    {
        self.notes = Vec::new();
        assert(notes_view(self.notes@) =~= Seq::<NoteView>::empty());
        self.notes_rev = self.notes_rev.wrapping_add(1);
        self.rebuild();
    }

    pub fn edit_note(&mut self, id: u64, text: String)
        ensures
            final(self)@ == old(self)@.note_edited(id, text@),
    {
        let i = find_note(&self.notes, id);
        if i < self.notes.len() {
            let ghost before = notes_view(self.notes@);
            assert(before[i as int] == self.notes@[i as int]@);
            let mut note = self.notes[i].clone();
            note.text = text;
            self.notes.set(i, note);
            assert(notes_view(self.notes@) =~= before.update(i as int, note@));
            self.notes_rev = self.notes_rev.wrapping_add(1);
            self.rebuild();
        }
    }

    pub fn delete_note(&mut self, id: u64)
        ensures
            final(self)@ == old(self)@.note_deleted(id),
    {
        let ghost all = notes_view(self.notes@);
        let before = self.notes.len();
        let mut left: Vec<Note> = Vec::new();
        let mut i: usize = 0;
        assert(notes_view(left@) =~= Seq::<NoteView>::empty());
        while i < self.notes.len()
            invariant
                i <= self.notes@.len(),
                all == notes_view(self.notes@),
                notes_view(left@) == notes_without(all, id, i as int),
            decreases self.notes@.len() - i,
        {
            assert(all[i as int] == self.notes@[i as int]@);
            if self.notes[i].id != id {
                let note = self.notes[i].clone();
                proof {
                    lemma_notes_push(left@, note);
                }
                left.push(note);
            }
            i += 1;
        }
        if left.len() != before {
            self.notes = left;
            self.notes_rev = self.notes_rev.wrapping_add(1);
            self.rebuild();
        }
    }

    /// Scroll a note's card into view when its file is already shown, else
    /// remember it until that diff arrives.
    pub fn focus_note(&mut self, id: u64)
        ensures
            final(self)@ == old(self)@.note_focused(id),
    {
        let i = find_note(&self.notes, id);
        let here = if i < self.notes.len() {
            assert(notes_view(self.notes@)[i as int] == self.notes@[i as int]@);
            self.is_showing(self.notes[i].file.as_str())
        } else {
            false
        };
        if here && self.state.is_diff() {
            self.scroll_to_note(id);
        } else {
            self.pending_focus = Some(id);
        }
    }

    fn scroll_to_note(&mut self, id: u64)
        ensures
            final(self)@ == old(self)@.scrolled_to_note(id),
    {
        let i = find_note(&self.notes, id);
        let rank = match &self.current {
            None => {
                return ;
            },
            Some(req) => match &self.built {
                None => {
                    return ;
                },
                Some(built) => {
                    if i >= self.notes.len() {
                        return ;
                    }
                    assert(notes_view(self.notes@)[i as int] == self.notes@[i as int]@);
                    if !path_eq(self.notes[i].file.as_str(), req.file.as_str()) {
                        return ;
                    }
                    self.rank_of(built, req.file.as_str(), i)
                },
            },
        };
        match self.cards.start(rank) {
            None => {},
            Some(line) => {
                self.scroll = #[verifier::truncate]
                (line.saturating_sub(3) as u16);
                self.clamp_scroll();
                self.keep_cursor_visible();
            },
        }
    }

    /// How many cards of the file stand above that of note `i`.
    fn rank_of(&self, built: &DiffDoc, file: &str, i: usize) -> (r: usize)
        requires
            i < self.notes@.len(),
        ensures
            r == self@.card_rank(built@, file@, i as int, self.notes@.len() as int),
    {
        let ghost all = notes_view(self.notes@);
        assert(all[i as int] == self.notes@[i as int]@);
        let (own, _) = anchor_of(built, self.notes[i].end);
        let mut rank: usize = 0;
        let mut j: usize = 0;
        while j < self.notes.len()
            invariant
                j <= self.notes@.len(),
                i < self.notes@.len(),
                all == notes_view(self.notes@),
                all[i as int] == self.notes@[i as int]@,
                own == anchor(built@, all[i as int].end).0,
                rank <= j,
                rank == self@.card_rank(built@, file@, i as int, j as int),
            decreases self.notes@.len() - j,
        {
            assert(all[j as int] == self.notes@[j as int]@);
            let (other, _) = anchor_of(built, self.notes[j].end);
            if path_eq(self.notes[j].file.as_str(), file) && (other < own || (other == own && j
                < i)) {
                rank += 1;
            }
            j += 1;
        }
        rank
    }

    pub fn flash(&mut self, msg: &str)
        ensures
            final(self)@ == old(self)@.flashed(msg@),
    {
        self.flash = Some((copy(msg), self.now));
    }

    /// The flash message if it is still fresh.
    pub fn active_flash(&self, now: u64) -> (r: Option<&str>)
        ensures
            (match (r, self@.flash) {
                (Some(s), Some((msg, at))) => s@ == msg && now - at < FLASH_MS,
                (Some(_), None) => false,
                (None, Some((_, at))) => now - at >= FLASH_MS,
                (None, None) => true,
            }),
    {
        match &self.flash {
            Some((msg, at)) => if now.saturating_sub(*at) < FLASH_MS {
                Some(msg.as_str())
            } else {
                None
            },
            None => None,
        }
    }
}

/// Accent the gutter above every card.
fn accent_all(lines: &mut Vec<Line>, cards: &Vec<Card>, built: &DiffDoc)
    ensures
        lines_view(final(lines)@) == accents(
            lines_view(old(lines)@),
            cards_view(cards@),
            cards@.len() as int,
            built@,
        ),
        final(lines)@.len() == old(lines)@.len(),
{
    let ghost before = lines_view(lines@);
    let ghost n = lines@.len();
    let ghost cv = cards_view(cards@);
    let mut i: usize = 0;
    while i < cards.len()
        invariant
            i <= cards@.len(),
            cv == cards_view(cards@),
            lines_view(lines@) == accents(before, cv, i as int, built@),
            lines@.len() == n,
        decreases cards@.len() - i,
    {
        assert(cv[i as int] == cards@[i as int]@);
        let at = cards[i].anchor;
        if at > 0 {
            accent_gutter(lines, at - 1, built);
        }
        i += 1;
    }
}

/// The least and greatest line number of the document lines `a..=b`, and
/// their text.
fn gather(built: &DiffDoc, cards: &CardMap, a: usize, b: usize) -> (r: (
    Option<(u32, u32)>,
    String,
))
    requires
        a <= b,
    ensures
        ({
            let g = gathered(built@, cards@, a as int, b - a + 1);
            &&& r.1@ == g.snippet
            &&& r.0 is Some <==> g.numbers.len() > 0
            &&& r.0 matches Some(p) ==> p.0 == least(g.numbers) && p.1 == greatest(g.numbers)
        }),
{
    let mut range: Option<(u32, u32)> = None;
    let mut snippet = empty_text();
    let mut line: usize = a;
    loop
        invariant
            a <= line <= b,
            ({
                let g = gathered(built@, cards@, a as int, line - a);
                &&& snippet@ == g.snippet
                &&& range is Some <==> g.numbers.len() > 0
                &&& range matches Some(p) ==> p.0 == least(g.numbers) && p.1 == greatest(
                    g.numbers,
                )
            }),
        decreases b - line,
    {
        let ghost g = gathered(built@, cards@, a as int, line - a);
        let ghost next = gathered(built@, cards@, a as int, line - a + 1);
        if let Some(d) = cards.to_built(line) {
            if let Some((old_no, new_no)) = built.numbers_of_line(d) {
                let n: u32 = match new_no {
                    Some(x) => x,
                    None => match old_no {
                        Some(x) => x,
                        None => 0,
                    },
                };
                assert(next.numbers == g.numbers.push(n));
                assert(next.numbers.drop_last() =~= g.numbers);
                range = match range {
                    None => Some((n, n)),
                    Some((lo, hi)) => Some(
                        (
                            if n < lo {
                                n
                            } else {
                                lo
                            },
                            if n > hi {
                                n
                            } else {
                                hi
                            },
                        ),
                    ),
                };
            }
            if let Some(text) = built.marker_text_of_line(d) {
                if !text.as_str().is_empty() && lines_of(snippet.as_str()).len() < SNIPPET_LINES {
                    append(&mut snippet, text.as_str());
                    snippet.push('\n');
                    assert(snippet@ =~= next.snippet);
                }
            }
        }
        if line == b {
            return (range, snippet);
        }
        line += 1;
    }
}

// ---- laws ------------------------------------------------------------------

/// Tinting can always be undone: whatever is tinted, the untinted document
/// stays what it was.
pub proof fn law_tinting_is_undone(s: PreviewView)
    ensures
        s.restyled().untinted() == s.untinted(),
{
    let doc = s.untinted();
    lemma_restored_len(s.doc, s.saved_tint, s.saved_tint.len() as int);
    if s.state is Diff {
        let t = PreviewView { doc, cursor_line: min2(s.cursor_line, s.last()), ..s };
        lemma_restore_undoes_tint(doc, t.tint(), t.cards, doc.len() as int, doc.len() as int);
        assert(s.restyled().untinted() =~= doc);
    }
}

/// A diff that was asked for before the selection moved on changes nothing.
pub proof fn law_a_stale_diff_is_dropped(
    s: PreviewView,
    req: ReqView,
    result: Result<DocView, Seq<char>>,
)
    requires
        s.current matches Some(cur) ==> !same_req(cur, req),
    ensures
        s.diff_applied(req, result) == s,
{
}

/// A live selection is not moved by scrolling.
pub proof fn law_scrolling_leaves_a_selection_alone(s: PreviewView, delta: i32)
    requires
        s.select_anchor is Some,
    ensures
        s.scrolled(delta).selected() == s.selected(),
        s.scrolled(delta).doc == s.doc,
{
}

/// Without cards or a selection, scrolling never leaves the cursor outside
/// the viewport.
pub proof fn law_scrolling_keeps_the_cursor_on_screen(s: PreviewView, delta: i32)
    requires
        s.select_anchor is None,
        s.cards.lines.len() == 0,
        s.state is Diff,
        s.doc.len() > 0,
        s.viewport_h > 0,
    ensures
        ({
            let t = s.scrolled(delta);
            &&& t.scroll <= t.cursor_line < t.scroll + t.viewport_h
            &&& t.cursor_line < t.doc.len()
        }),
{
    lemma_restored_len(s.doc, s.saved_tint, s.saved_tint.len() as int);
}

/// Scrolling stays between the top and the last full page.
pub proof fn law_scroll_stays_in_range(s: PreviewView, delta: i32)
    ensures
        0 <= s.scrolled(delta).scroll <= s.max_scroll(),
{
}

/// Wherever the document has a line that is no card's, the cursor ends on
/// such a line: after moving it, and after the document was drawn anew.
pub proof fn law_the_cursor_stays_off_the_cards(s: PreviewView, delta: i32)
    requires
        s.state is Diff,
        0 <= s.cursor_line,
    ensures
        ({
            let t = s.rebuilt();
            (exists|i: int| 0 <= i <= t.last() && !#[trigger] t.cards.on_card(i)) ==> !t.cards.on_card(
                t.cursor_line,
            )
        }),
        ({
            let t = s.cursor_moved(delta);
            (exists|i: int| 0 <= i <= t.last() && !#[trigger] t.cards.on_card(i)) ==> !t.cards.on_card(
                t.cursor_line,
            )
        }),
{
    reveal(PreviewView::rebuilt);
    let u = PreviewView { saved_tint: Seq::empty(), ..s.synced() };
    assert(u.untinted() == u.doc);
    lemma_off_card(u, u.cursor_line, false);
    let (target, back) = if delta == i32::MIN {
        (0, false)
    } else if delta == i32::MAX {
        (s.last(), true)
    } else {
        (clamped_to(s.cursor_line + delta, 0, s.last()), delta < 0)
    };
    lemma_restored_len(s.doc, s.saved_tint, s.saved_tint.len() as int);
    lemma_off_card(s, target, back);
}

proof fn lemma_off_card(s: PreviewView, line: int, back: bool)
    ensures
        line >= 0 ==> 0 <= s.off_card(line, back) <= s.last(),
        line >= 0 && (exists|i: int| 0 <= i <= s.last() && !#[trigger] s.cards.on_card(i))
            ==> !s.cards.on_card(s.off_card(line, back)),
{
    if line >= 0 {
        law_snapping_leaves_the_cards(s.cards, min2(line, s.last()), back, s.last());
    }
}

/// No two notes share an id, and the next one is fresh.
pub open spec fn ids_distinct(notes: Seq<NoteView>, next: u64) -> bool {
    &&& forall|i: int| 0 <= i < notes.len() ==> (#[trigger] notes[i]).id < next
    &&& forall|i: int, j: int|
        0 <= i < j < notes.len() ==> (#[trigger] notes[i]).id != (#[trigger] notes[j]).id
}

proof fn lemma_rebuilt_keeps_notes(s: PreviewView)
    ensures
        s.rebuilt().notes == s.notes,
        s.rebuilt().next_note_id == s.next_note_id,
        s.rebuilt().composer == s.composer,
{
    reveal(PreviewView::rebuilt);
}

proof fn lemma_edited_ids(s: PreviewView, id: u64, text: Seq<char>)
    requires
        ids_distinct(s.notes, s.next_note_id),
    ensures
        ids_distinct(s.note_edited(id, text).notes, s.note_edited(id, text).next_note_id),
{
    lemma_note_at(s.notes, id, 0);
    let i = note_at(s.notes, id, 0);
    if i < s.notes.len() {
        lemma_rebuilt_keeps_notes(
            PreviewView {
                notes: s.notes.update(i, NoteView { text, ..s.notes[i] }),
                notes_rev: s.notes_bumped(),
                ..s
            },
        );
    }
}

proof fn lemma_annotated_ids(s: PreviewView, text: Seq<char>)
    requires
        ids_distinct(s.notes, s.next_note_id),
        s.next_note_id < u64::MAX,
    ensures
        ids_distinct(s.annotated(text).notes, s.annotated(text).next_note_id),
{
    if let Some(n) = s.pending_note {
        lemma_rebuilt_keeps_notes(
            PreviewView {
                pending_note: None,
                notes: s.notes.push(NoteView { text, id: s.next_note_id, ..n }),
                next_note_id: s.next_note_id.wrapping_add(1),
                notes_rev: s.notes_bumped(),
                select_anchor: None,
                ..s
            },
        );
    }
}

proof fn lemma_deleted_ids(s: PreviewView, id: u64)
    requires
        ids_distinct(s.notes, s.next_note_id),
    ensures
        ids_distinct(s.note_deleted(id).notes, s.note_deleted(id).next_note_id),
{
    lemma_without(s.notes, id, s.notes.len() as int, s.next_note_id);
    lemma_rebuilt_keeps_notes(
        PreviewView {
            notes: notes_without(s.notes, id, s.notes.len() as int),
            notes_rev: s.notes_bumped(),
            ..s
        },
    );
}

/// Note ids stay distinct whatever is done to the notes.
pub proof fn law_note_ids_stay_distinct(s: PreviewView, text: Seq<char>, id: u64)
    requires
        ids_distinct(s.notes, s.next_note_id),
        s.next_note_id < u64::MAX,
    ensures
        ids_distinct(s.annotated(text).notes, s.annotated(text).next_note_id),
        ids_distinct(s.note_edited(id, text).notes, s.note_edited(id, text).next_note_id),
        ids_distinct(s.note_deleted(id).notes, s.note_deleted(id).next_note_id),
        ids_distinct(s.compose_cancelled().notes, s.compose_cancelled().next_note_id),
        ids_distinct(s.compose_committed().notes, s.compose_committed().next_note_id),
{
    lemma_annotated_ids(s, text);
    lemma_edited_ids(s, id, text);
    lemma_deleted_ids(s, id);
    let cancelled = PreviewView { composer: None, pending_note: None, select_anchor: None, ..s };
    lemma_rebuilt_keeps_notes(cancelled);
    if let Some(c) = s.composer {
        if let Some(t) = finished(c.input.text) {
            match c.editing {
                Some(e) => lemma_edited_ids(
                    PreviewView { composer: None, pending_note: None, ..s },
                    e,
                    t,
                ),
                None => lemma_annotated_ids(PreviewView { composer: None, ..s }, t),
            }
        }
    }
}

proof fn lemma_note_at(notes: Seq<NoteView>, id: u64, i: int)
    requires
        0 <= i <= notes.len(),
    ensures
        i <= note_at(notes, id, i) <= notes.len(),
        note_at(notes, id, i) < notes.len() ==> notes[note_at(notes, id, i)].id == id,
    decreases notes.len() - i,
{
    if i < notes.len() && notes[i].id != id {
        lemma_note_at(notes, id, i + 1);
    }
}

proof fn lemma_without(notes: Seq<NoteView>, id: u64, n: int, next: u64)
    requires
        0 <= n <= notes.len(),
        forall|i: int| 0 <= i < notes.len() ==> (#[trigger] notes[i]).id < next,
        forall|i: int, j: int|
            0 <= i < j < notes.len() ==> (#[trigger] notes[i]).id != (#[trigger] notes[j]).id,
    ensures
        ({
            let left = notes_without(notes, id, n);
            &&& forall|i: int|
                0 <= i < left.len() ==> (#[trigger] left[i]).id < next && left[i].id != id
            &&& forall|i: int|
                0 <= i < left.len() ==> exists|k: int| 0 <= k < n && notes[k] == #[trigger] left[i]
            &&& forall|i: int, j: int|
                0 <= i < j < left.len() ==> (#[trigger] left[i]).id != (#[trigger] left[j]).id
        }),
    decreases n,
{
    if n > 0 {
        lemma_without(notes, id, n - 1, next);
        let rest = notes_without(notes, id, n - 1);
        let left = notes_without(notes, id, n);
        if notes[n - 1].id != id {
            assert forall|i: int| 0 <= i < left.len() implies exists|k: int|
                0 <= k < n && notes[k] == #[trigger] left[i] by {
                if i < rest.len() {
                    let k = choose|k: int| 0 <= k < n - 1 && notes[k] == rest[i];
                    assert(notes[k] == left[i]);
                } else {
                    assert(notes[n - 1] == left[i]);
                }
            }
            assert forall|i: int, j: int| 0 <= i < j < left.len() implies (#[trigger] left[i]).id
                != (#[trigger] left[j]).id by {
                if j == rest.len() {
                    let k = choose|k: int| 0 <= k < n - 1 && notes[k] == rest[i];
                    assert(notes[k].id != notes[n - 1].id);
                }
            }
        } else {
            assert forall|i: int| 0 <= i < left.len() implies exists|k: int|
                0 <= k < n && notes[k] == #[trigger] left[i] by {
                let k = choose|k: int| 0 <= k < n - 1 && notes[k] == rest[i];
                assert(notes[k] == left[i]);
            }
        }
    }
}

/// Deleting a note takes away every note of that id and keeps the others, in
/// their order.
pub proof fn law_deleting_takes_only_that_note(s: PreviewView, id: u64)
    ensures
        s.note_deleted(id).notes == s.notes.filter(|n: NoteView| n.id != id),
{
    lemma_rebuilt_keeps_notes(
        PreviewView {
            notes: notes_without(s.notes, id, s.notes.len() as int),
            notes_rev: s.notes_bumped(),
            ..s
        },
    );
    lemma_without_is_filter(s.notes, id, s.notes.len() as int);
    assert(s.notes.take(s.notes.len() as int) =~= s.notes);
    if notes_without(s.notes, id, s.notes.len() as int).len() == s.notes.len() {
        lemma_nothing_filtered(s.notes, id);
    }
}

proof fn lemma_without_is_filter(notes: Seq<NoteView>, id: u64, n: int)
    requires
        0 <= n <= notes.len(),
    ensures
        notes_without(notes, id, n) == notes.take(n).filter(|x: NoteView| x.id != id),
    decreases n,
{
    let keep = |x: NoteView| x.id != id;
    reveal(Seq::filter);
    if n > 0 {
        lemma_without_is_filter(notes, id, n - 1);
        assert(notes.take(n).drop_last() =~= notes.take(n - 1));
        assert(notes.take(n).last() == notes[n - 1]);
    } else {
        assert(notes.take(0) =~= Seq::<NoteView>::empty());
    }
}

proof fn lemma_nothing_filtered(notes: Seq<NoteView>, id: u64)
    requires
        notes_without(notes, id, notes.len() as int).len() == notes.len(),
    ensures
        notes_without(notes, id, notes.len() as int) == notes,
{
    lemma_without_len(notes, id, notes.len() as int);
    assert(notes.take(notes.len() as int) =~= notes);
}

proof fn lemma_without_len(notes: Seq<NoteView>, id: u64, n: int)
    requires
        0 <= n <= notes.len(),
    ensures
        notes_without(notes, id, n).len() <= n,
        notes_without(notes, id, n).len() == n ==> notes_without(notes, id, n) == notes.take(n),
    decreases n,
{
    if n > 0 {
        lemma_without_len(notes, id, n - 1);
        if notes_without(notes, id, n).len() == n {
            assert(notes.take(n) =~= notes.take(n - 1).push(notes[n - 1]));
        }
    } else {
        assert(notes.take(0) =~= Seq::<NoteView>::empty());
    }
}

/// Cancelling the composer leaves the notes alone, and so does committing an
/// empty one.
pub proof fn law_an_empty_note_is_a_cancel(s: PreviewView)
    requires
        s.composer matches Some(c) && finished(c.input.text) is None,
    ensures
        s.compose_committed() == s.compose_cancelled(),
        s.compose_cancelled().notes == s.notes,
        s.compose_cancelled().composer is None,
{
    lemma_rebuilt_keeps_notes(
        PreviewView { composer: None, pending_note: None, select_anchor: None, ..s },
    );
}

/// Notes attach to changes of the working tree: on a commit's diff, or the
/// branch's, none is begun.
pub proof fn law_history_takes_no_notes(s: PreviewView, key: Key)
    requires
        s.composer is None,
        s.current matches Some(req) && (req.commit is Some || req.scope != Scope::Worktree),
    ensures
        s.keyed(key, Some(Action::Annotate)).composer is None,
        s.keyed(key, Some(Action::Annotate)).notes == s.notes,
{
}

// ---- what a note is taken on -----------------------------------------------------

proof fn lemma_least(s: Seq<u32>, k: int)
    requires
        0 <= k < s.len(),
    ensures
        least(s) <= s[k] <= greatest(s),
        s.contains(least(s)),
        s.contains(greatest(s)),
    decreases s.len(),
{
    if s.len() > 1 {
        let t = s.drop_last();
        if k < t.len() {
            lemma_least(t, k);
        } else {
            lemma_least(t, 0);
        }
        let i = choose|i: int| 0 <= i < t.len() && t[i] == least(t);
        let j = choose|j: int| 0 <= j < t.len() && t[j] == greatest(t);
        assert(s[i] == least(t) && s[j] == greatest(t));
        assert(s[s.len() - 1] == s.last());
    } else {
        assert(s[0] == least(s));
    }
}

/// The number that a line of the document shows: the one in the new file, or in
/// the old one where it is gone. Cards and folds show none.
pub open spec fn number_shown(doc: DocView, cards: CardMapView, line: int) -> Option<u32> {
    match cards.to_diff(line) {
        Some(d) => if 0 <= d < doc.rows.len() {
            match doc.rows[d] {
                RowView::Line(l) => match (l.new_no, l.old_no) {
                    (Some(m), _) => Some(m),
                    (None, Some(n)) => Some(n),
                    (None, None) => Some(0),
                },
                RowView::Fold(_) => None,
            }
        } else {
            None
        },
        None => None,
    }
}

/// The code that a line of the document shows, with its marker in front.
pub open spec fn code_shown(doc: DocView, cards: CardMapView, line: int) -> Option<Seq<char>> {
    match cards.to_diff(line) {
        Some(d) => if 0 <= d < doc.rows.len() {
            match doc.rows[d] {
                RowView::Line(l) => Some(
                    (if l.old_no is Some && l.new_no is None {
                        seq!['-']
                    } else if l.old_no is None && l.new_no is Some {
                        seq!['+']
                    } else {
                        seq![' ']
                    }) + l.text(),
                ),
                RowView::Fold(_) => None,
            }
        } else {
            None
        },
        None => None,
    }
}

proof fn lemma_gathered_numbers(doc: DocView, cards: CardMapView, from: int, n: int)
    requires
        0 <= n,
    ensures
        forall|l: int|
            from <= l < from + n && (#[trigger] number_shown(doc, cards, l)) is Some ==> gathered(
                doc,
                cards,
                from,
                n,
            ).numbers.contains(number_shown(doc, cards, l)->0),
        forall|k: int|
            0 <= k < gathered(doc, cards, from, n).numbers.len() ==> exists|l: int|
                from <= l < from + n && #[trigger] number_shown(doc, cards, l) == Some(
                    #[trigger] gathered(doc, cards, from, n).numbers[k],
                ),
    decreases n,
{
    if n > 0 {
        lemma_gathered_numbers(doc, cards, from, n - 1);
        let before = gathered(doc, cards, from, n - 1).numbers;
        let now = gathered(doc, cards, from, n).numbers;
        let line = from + n - 1;
        let shown = number_shown(doc, cards, line);
        assert(now == if shown is Some {
            before.push(shown->0)
        } else {
            before
        });
        assert forall|l: int| from <= l < from + n && (#[trigger] number_shown(doc, cards, l)) is Some implies now.contains(
            number_shown(doc, cards, l)->0,
        ) by {
            if l < line {
                assert(before.contains(number_shown(doc, cards, l)->0));
                let k = choose|k: int|
                    0 <= k < before.len() && before[k] == number_shown(doc, cards, l)->0;
                assert(now[k] == before[k]);
            } else {
                assert(now[now.len() - 1] == shown->0);
            }
        }
        assert forall|k: int| 0 <= k < now.len() implies exists|l: int|
            from <= l < from + n && #[trigger] number_shown(doc, cards, l) == Some(
                #[trigger] now[k],
            ) by {
            if k < before.len() {
                assert(now[k] == before[k]);
                let l = choose|l: int|
                    from <= l < from + n - 1 && #[trigger] number_shown(doc, cards, l) == Some(
                        before[k],
                    );
                assert(number_shown(doc, cards, l) == Some(now[k]));
            } else {
                assert(number_shown(doc, cards, line) == Some(now[k]));
            }
        }
    }
}

/// A note covers the selection: it goes from the least to the greatest number
/// among the selected lines of the shown file.
pub proof fn law_a_note_covers_the_selection(s: PreviewView, doc: DocView, req: ReqView)
    requires
        s.select_anchor is Some,
        s.captured(doc, req) is Some,
    ensures
        ({
            let (a, b) = s.selected();
            let note = s.captured(doc, req)->0;
            &&& note.file == req.file
            &&& note.cached == req.cached
            &&& 0 < note.start <= note.end
            &&& exists|l: int|
                a <= l <= b && #[trigger] number_shown(doc, s.cards, l) == Some(note.start)
            &&& exists|l: int|
                a <= l <= b && #[trigger] number_shown(doc, s.cards, l) == Some(note.end)
            &&& forall|l: int|
                a <= l <= b ==> (#[trigger] number_shown(doc, s.cards, l) matches Some(n)
                    ==> note.start <= n <= note.end)
        }),
{
    let (a, b) = s.selected();
    let n = b - a + 1;
    let numbers = gathered(doc, s.cards, a, n).numbers;
    lemma_gathered_numbers(doc, s.cards, a, n);
    lemma_least(numbers, 0);
    let lo = choose|k: int| 0 <= k < numbers.len() && numbers[k] == least(numbers);
    let hi = choose|k: int| 0 <= k < numbers.len() && numbers[k] == greatest(numbers);
    assert(exists|l: int|
        a <= l < a + n && #[trigger] number_shown(doc, s.cards, l) == Some(numbers[lo]));
    assert(exists|l: int|
        a <= l < a + n && #[trigger] number_shown(doc, s.cards, l) == Some(numbers[hi]));
    assert forall|l: int| a <= l <= b implies (#[trigger] number_shown(doc, s.cards, l) matches Some(
        x,
    ) ==> least(numbers) <= x <= greatest(numbers)) by {
        if number_shown(doc, s.cards, l) is Some {
            let x = number_shown(doc, s.cards, l)->0;
            assert(numbers.contains(x));
            let k = choose|k: int| 0 <= k < numbers.len() && numbers[k] == x;
            lemma_least(numbers, k);
        }
    }
}

/// The code of the lines from `from` on, `n` of them.
pub open spec fn codes_shown(doc: DocView, cards: CardMapView, from: int, n: int) -> Seq<Seq<char>>
    decreases n,
{
    if n <= 0 {
        Seq::empty()
    } else {
        match code_shown(doc, cards, from + n - 1) {
            Some(t) => codes_shown(doc, cards, from, n - 1).push(t),
            None => codes_shown(doc, cards, from, n - 1),
        }
    }
}

proof fn lemma_count_lines(ls: Seq<Seq<char>>)
    requires
        none_holds(ls, '\n'),
    ensures
        lines(terminated(ls, '\n')).len() == ls.len(),
{
    let none = Seq::<char>::empty();
    lemma_split_terminated_then(ls, none, '\n');
    assert(terminated(ls, '\n') + none =~= terminated(ls, '\n'));
    assert(ls.push(none).drop_last() =~= ls);
}

/// A snippet is the selected lines of code, each with its marker and a line
/// feed, up to forty of them. No line of code holds a line feed.
pub proof fn law_a_snippet_is_the_selected_code(
    doc: DocView,
    cards: CardMapView,
    from: int,
    n: int,
)
    requires
        0 <= n,
        none_holds(codes_shown(doc, cards, from, n), '\n'),
    ensures
        ({
            let codes = codes_shown(doc, cards, from, n);
            gathered(doc, cards, from, n).snippet == terminated(
                if codes.len() > 40 {
                    codes.take(40)
                } else {
                    codes
                },
                '\n',
            )
        }),
    decreases n,
{
    let codes = codes_shown(doc, cards, from, n);
    if n > 0 {
        let line = from + n - 1;
        let before = codes_shown(doc, cards, from, n - 1);
        assert forall|i: int| 0 <= i < before.len() implies !(#[trigger] before[i]).contains('\n') by {
            assert(codes[i] == before[i]);
        }
        law_a_snippet_is_the_selected_code(doc, cards, from, n - 1);
        let kept = if before.len() > 40 {
            before.take(40)
        } else {
            before
        };
        assert(none_holds(kept, '\n'));
        lemma_count_lines(kept);
        let g = gathered(doc, cards, from, n - 1);
        if let Some(t) = code_shown(doc, cards, line) {
            let d = cards.to_diff(line)->0;
            assert(doc.marked_text(d) == Some(t)) by {
                assert(doc.rows[d] is Line);
                assert(doc.marked_text(d)->0 =~= t);
            }
            assert(t.len() > 0);
            if before.len() < 40 {
                lemma_terminated_concat(before, seq![t], '\n');
                assert(before + seq![t] =~= codes);
                assert(seq![t].drop_first() =~= Seq::<Seq<char>>::empty());
                assert(terminated(seq![t], '\n') =~= t + seq!['\n']) by {
                    assert(terminated(seq![t].drop_first(), '\n') =~= Seq::<char>::empty());
                }
                assert(g.snippet + t + seq!['\n'] =~= terminated(codes, '\n'));
            } else {
                assert(codes.take(40) =~= kept);
            }
        } else {
            assert(gathered(doc, cards, from, n).snippet == g.snippet);
        }
    } else {
        assert(codes.len() == 0);
    }
}

/// A committed note stands where it was begun, with the text that was written,
/// behind the notes that were there.
pub proof fn law_a_committed_note_keeps_its_place(s: PreviewView, text: Seq<char>)
    requires
        s.pending_note is Some,
    ensures
        ({
            let n = s.pending_note->0;
            let t = s.annotated(text);
            &&& t.notes.len() == s.notes.len() + 1
            &&& t.notes.drop_last() == s.notes
            &&& t.notes.last().text == text
            &&& t.notes.last().file == n.file
            &&& t.notes.last().start == n.start && t.notes.last().end == n.end
            &&& t.notes.last().snippet == n.snippet
            &&& t.notes.last().cached == n.cached
            &&& t.notes.last().id == s.next_note_id
        }),
{
    let n = s.pending_note->0;
    let notes = s.notes.push(NoteView { text, id: s.next_note_id, ..n });
    lemma_rebuilt_keeps_notes(
        PreviewView {
            pending_note: None,
            notes,
            next_note_id: s.next_note_id.wrapping_add(1),
            notes_rev: s.notes_bumped(),
            select_anchor: None,
            ..s
        },
    );
    assert(notes.drop_last() =~= s.notes);
}

/// Editing a note changes its text and nothing else of any note.
pub proof fn law_editing_changes_one_text(s: PreviewView, id: u64, text: Seq<char>, i: int)
    requires
        ids_distinct(s.notes, s.next_note_id),
        0 <= i < s.notes.len(),
    ensures
        s.note_edited(id, text).notes.len() == s.notes.len(),
        s.note_edited(id, text).notes[i] == if s.notes[i].id == id {
            NoteView { text, ..s.notes[i] }
        } else {
            s.notes[i]
        },
{
    let at = note_at(s.notes, id, 0);
    lemma_note_at(s.notes, id, 0);
    lemma_note_at_first(s.notes, id, 0, i);
    if at < s.notes.len() {
        lemma_rebuilt_keeps_notes(
            PreviewView {
                notes: s.notes.update(at, NoteView { text, ..s.notes[at] }),
                notes_rev: s.notes_bumped(),
                ..s
            },
        );
        if i < at {
            assert(s.notes[i].id != s.notes[at].id);
        }
        if at < i {
            assert(s.notes[at].id != s.notes[i].id);
        }
    }
}

proof fn lemma_note_at_first(notes: Seq<NoteView>, id: u64, from: int, i: int)
    requires
        0 <= from <= i < notes.len(),
    ensures
        notes[i].id == id ==> note_at(notes, id, from) <= i,
    decreases notes.len() - from,
{
    if from < i && notes[from].id != id {
        lemma_note_at_first(notes, id, from + 1, i);
    }
}

/// A note on a whole file has no lines and no snippet.
pub proof fn law_a_file_note_has_no_lines(
    s: PreviewView,
    file: Seq<char>,
    text: Seq<char>,
    cached: bool,
)
    ensures
        ({
            let t = s.file_note_added(file, text, cached);
            &&& t.notes.len() == s.notes.len() + 1
            &&& t.notes.drop_last() == s.notes
            &&& t.notes.last().file == file && t.notes.last().text == text
            &&& t.notes.last().cached == cached
            &&& t.notes.last().start == 0 && t.notes.last().end == 0
            &&& t.notes.last().snippet.len() == 0
            &&& t.notes.last().id == s.next_note_id
        }),
{
    let note = NoteView {
        id: s.next_note_id,
        file,
        start: 0,
        end: 0,
        text,
        snippet: Seq::empty(),
        cached,
    };
    lemma_rebuilt_keeps_notes(
        PreviewView {
            notes: s.notes.push(note),
            next_note_id: s.next_note_id.wrapping_add(1),
            notes_rev: s.notes_bumped(),
            ..s
        },
    );
    assert(s.notes.push(note).drop_last() =~= s.notes);
}

// ---- where the cursor goes -------------------------------------------------------

/// Without cards in between, the cursor goes as many lines as it is told, at
/// most to the first and the last, and the view follows it.
pub proof fn law_the_cursor_goes_line_by_line(s: PreviewView, delta: i32)
    requires
        s.state is Diff,
        s.cards.lines.len() == 0,
        0 <= s.cursor_line < s.doc.len() <= 65535,
    ensures
        ({
            let t = s.cursor_moved(delta);
            let last = s.doc.len() - 1;
            let to = s.cursor_line + delta;
            &&& t.cursor_line == if to < 0 {
                0
            } else if to > last {
                last
            } else {
                to
            }
            &&& t.scroll <= t.cursor_line < t.scroll + (if s.viewport_h > 0 {
                s.viewport_h as int
            } else {
                1
            })
            &&& t.select_anchor == s.select_anchor
        }),
{
    lemma_restored_len(s.doc, s.saved_tint, s.saved_tint.len() as int);
}

/// The keys that move the cursor move it one line or half a page their way, or
/// to the edge.
pub proof fn law_keys_move_the_cursor(s: PreviewView, key: Key)
    requires
        s.composer is None,
        s.state is Diff,
        s.cards.lines.len() == 0,
        0 <= s.cursor_line < s.doc.len() <= 65535,
    ensures
        ({
            let last = s.doc.len() - 1;
            let half = if s.viewport_h < 2 {
                1
            } else {
                s.viewport_h as int / 2
            };
            &&& s.keyed(key, Some(Action::Down)).cursor_line == min2(s.cursor_line + 1, last)
            &&& s.keyed(key, Some(Action::Up)).cursor_line == max2(s.cursor_line - 1, 0)
            &&& s.keyed(key, Some(Action::Top)).cursor_line == 0
            &&& s.keyed(key, Some(Action::Bottom)).cursor_line == last
            &&& s.keyed(key, Some(Action::HalfPageDown)).cursor_line == min2(
                s.cursor_line + half,
                last,
            )
            &&& s.keyed(key, Some(Action::HalfPageUp)).cursor_line == max2(s.cursor_line - half, 0)
        }),
{
    let half = (max2(s.viewport_h as int, 2) / 2) as i32;
    law_the_cursor_goes_line_by_line(s, 1);
    law_the_cursor_goes_line_by_line(s, (-1) as i32);
    law_the_cursor_goes_line_by_line(s, half);
    law_the_cursor_goes_line_by_line(s, (-half) as i32);
    law_the_cursor_goes_line_by_line(s, i32::MIN);
    law_the_cursor_goes_line_by_line(s, i32::MAX);
}

/// A selection begins at the cursor, goes along with it, and is dropped by the
/// same key.
pub proof fn law_a_selection_begins_at_the_cursor(s: PreviewView, key: Key)
    requires
        s.composer is None,
        s.state is Diff,
        s.select_anchor is None,
        s.cards.lines.len() == 0,
        0 <= s.cursor_line < s.doc.len() <= 65535,
    ensures
        ({
            let t = s.keyed(key, Some(Action::Select));
            let u = t.keyed(key, Some(Action::Down));
            &&& t.select_anchor == Some(s.cursor_line)
            &&& t.selected() == (s.cursor_line, s.cursor_line)
            &&& u.selected() == (s.cursor_line, min2(s.cursor_line + 1, s.doc.len() - 1))
            &&& t.keyed(key, Some(Action::Select)).select_anchor is None
        }),
{
    lemma_restored_len(s.doc, s.saved_tint, s.saved_tint.len() as int);
    let t = s.keyed(key, Some(Action::Select));
    lemma_restored_len(t.doc, t.saved_tint, t.saved_tint.len() as int);
    assert(t.doc.len() == s.doc.len());
    law_the_cursor_goes_line_by_line(t, 1);
}

/// A click puts the cursor on the line under the pointer and drops a selection.
pub proof fn law_a_click_puts_the_cursor_there(s: PreviewView, y: u16)
    requires
        s.state is Diff,
        y > 0,
        s.scroll + y - 1 < s.doc.len(),
        !s.cards.on_card(s.scroll + y - 1),
        s.built is None || number_shown(s.built->0, s.cards, s.scroll + y - 1) is Some,
    ensures
        s.moused(MouseKind::LeftDown, y).cursor_line == s.scroll + y - 1,
        s.moused(MouseKind::LeftDown, y).select_anchor is None,
        s.moused(MouseKind::LeftDown, y).scroll == s.scroll,
{
    lemma_restored_len(s.doc, s.saved_tint, s.saved_tint.len() as int);
}

/// The wheel scrolls three lines, a page as many as are seen, half a page half of
/// them; never past either end.
pub proof fn law_scrolling_goes_as_far_as_asked(s: PreviewView, y: u16)
    requires
        s.scroll <= s.max_scroll(),
        0 < s.viewport_h,
    ensures
        s.moused(MouseKind::ScrollDown, y).scroll == min2(s.scroll + 3, s.max_scroll()),
        s.moused(MouseKind::ScrollUp, y).scroll == max2(s.scroll - 3, 0),
        s.paged(true, true).scroll == min2(s.scroll + s.viewport_h, s.max_scroll()),
        s.paged(false, true).scroll == max2(s.scroll - s.viewport_h, 0),
        s.paged(true, false).scroll == min2(
            s.scroll + max2(s.viewport_h as int / 2, 1),
            s.max_scroll(),
        ),
        s.paged(false, false).scroll == max2(s.scroll - max2(s.viewport_h as int / 2, 1), 0),
        s.scrolled(i32::MIN).scroll == 0,
        s.scrolled(i32::MAX).scroll == s.max_scroll(),
{
}

/// A refresh of the same file keeps a selection; another file starts without one.
pub proof fn law_another_file_starts_without_a_selection(s: PreviewView, doc: DocView)
    requires
        !doc.binary,
        !doc.is_empty,
        s.current is Some,
        s.pending_focus is None,
    ensures
        ({
            let t = s.diff_set(doc);
            let same = s.shown_file matches Some(f) && same_path(f, s.current->0.file);
            &&& t.state is Diff
            &&& t.built == Some(doc)
            &&& t.shown_file == Some(s.current->0.file)
            &&& t.first_change == doc.first_change
            &&& same ==> t.select_anchor == s.select_anchor
            &&& !same ==> t.select_anchor is None
        }),
{
    reveal(PreviewView::rebuilt);
}

/// Scrolling goes as many lines as it is told, and stops at either end.
pub proof fn law_scrolling_goes_line_by_line(s: PreviewView, delta: i32)
    requires
        i32::MIN < delta < i32::MAX,
    ensures
        s.scrolled(delta).scroll == if s.scroll + delta < 0 {
            0
        } else if s.scroll + delta > s.max_scroll() {
            s.max_scroll()
        } else {
            s.scroll + delta
        },
{
}

proof fn lemma_cards_of_notes(
    notes: Seq<NoteView>,
    n: int,
    file: Seq<char>,
    editing: Option<u64>,
    doc: DocView,
    width: nat,
    theme: Theme,
)
    requires
        0 <= n <= notes.len(),
    ensures
        forall|i: int|
            0 <= i < n && same_path((#[trigger] notes[i]).file, file) && Some(notes[i].id)
                != editing ==> note_cards(notes, n, file, editing, doc, width, theme).contains(
                note_card_of(notes[i], doc, width, theme),
            ),
        forall|k: int|
            0 <= k < note_cards(notes, n, file, editing, doc, width, theme).len() ==> exists|i: int|
                0 <= i < n && same_path((#[trigger] notes[i]).file, file)
                    && #[trigger] note_cards(notes, n, file, editing, doc, width, theme)[k].note
                    == Some(notes[i].id),
    decreases n,
{
    if n > 0 {
        lemma_cards_of_notes(notes, n - 1, file, editing, doc, width, theme);
        let before = note_cards(notes, n - 1, file, editing, doc, width, theme);
        let now = note_cards(notes, n, file, editing, doc, width, theme);
        assert forall|i: int|
            0 <= i < n && same_path((#[trigger] notes[i]).file, file) && Some(notes[i].id)
                != editing implies now.contains(note_card_of(notes[i], doc, width, theme)) by {
            let card = note_card_of(notes[i], doc, width, theme);
            if i < n - 1 {
                assert(before.contains(card));
                let k = choose|k: int| 0 <= k < before.len() && before[k] == card;
                assert(now[k] == card);
            } else {
                assert(now[now.len() - 1] == card);
            }
        }
        assert forall|k: int| 0 <= k < now.len() implies exists|i: int|
            0 <= i < n && same_path((#[trigger] notes[i]).file, file) && #[trigger] now[k].note
                == Some(notes[i].id) by {
            if k < before.len() {
                assert(now[k] == before[k]);
                let i = choose|i: int|
                    0 <= i < n - 1 && same_path((#[trigger] notes[i]).file, file) && before[k].note
                        == Some(notes[i].id);
                assert(same_path(notes[i].file, file));
            } else {
                assert(same_path(notes[n - 1].file, file));
            }
        }
    }
}

/// Every note on the shown file has a card, below its last line, and no other
/// note has one. The note that is being rewritten has the composer's.
pub proof fn law_every_note_of_the_file_has_a_card(
    s: PreviewView,
    doc: DocView,
    file: Seq<char>,
    i: int,
)
    requires
        s.composer is None,
        0 <= i < s.notes.len(),
        same_path(s.notes[i].file, file),
    ensures
        exists|k: int|
            0 <= k < s.cards_of(doc, file).len() && (#[trigger] s.cards_of(doc, file)[k]).note
                == Some(s.notes[i].id) && s.cards_of(doc, file)[k].anchor == anchor(
                doc,
                s.notes[i].end,
            ).0,
        forall|k: int|
            0 <= k < s.cards_of(doc, file).len() ==> exists|j: int|
                0 <= j < s.notes.len() && same_path((#[trigger] s.notes[j]).file, file)
                    && #[trigger] s.cards_of(doc, file)[k].note == Some(s.notes[j].id),
{
    let cards = s.cards_of(doc, file);
    lemma_cards_of_notes(
        s.notes,
        s.notes.len() as int,
        file,
        None,
        doc,
        s.card_width(),
        s.cfg.theme,
    );
    let card = note_card_of(s.notes[i], doc, s.card_width(), s.cfg.theme);
    assert(same_path(s.notes[i].file, file));
    assert(cards.contains(card));
    let k = choose|k: int| 0 <= k < cards.len() && cards[k] == card;
    assert(cards[k].note == Some(s.notes[i].id));
}

} // verus!
