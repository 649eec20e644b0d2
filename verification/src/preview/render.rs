//! The structured diff: old against new content as rows with syntax colours,
//! red and green line backgrounds, word-level emphasis and folded context.
use crate::path::{extension, extension_of};
use crate::preview::emphasis::{
    all_equal, lemma_all_equal, line_changes, line_diff, new_emphasis, old_emphasis,
    rebuilds_lines, word_diff, word_emphasis, words_similar, ChangeTag, LineChange,
};
use crate::preview::highlight::{
    copy_runs, embedded, highlighted, run_lines_view, runs_view, with_endings, Highlighter, Run,
    RunView,
};
use crate::preview::numbering::{
    law_a_diff_leads_over, law_every_line_is_highlighted, law_rows_stand_for_all_lines, numbered,
    stands_for,
};
use crate::style::{
    fg_style, lemma_lines_push, lemma_spans_push, lemma_spans_text_concat, line_of, line_text,
    lines_view, plain, repeat_char, repeated, rgb, rgb_color, span, spans_text, spans_view, styled,
    Color, Line, LineView, Rgb, Span, SpanView, Style, Theme,
};
use crate::text::{append, append_dec, chars_of, copy, dec, decimal, has_char, string_of};
use crate::textarea::pairs;
use vstd::prelude::*;

verus! {

broadcast use vstd::string::group_string_axioms;

// ---- rows ------------------------------------------------------------------

/// One line of the diff: a context line has both numbers, a deleted line only
/// the old one, an inserted line only the new one.
#[derive(Debug)]
pub struct DiffLine {
    pub old_no: Option<u32>,
    pub new_no: Option<u32>,
    pub runs: Vec<Run>,
    /// Character ranges of the line's text that changed.
    pub emphasis: Vec<(usize, usize)>,
}

#[verifier::ext_equal]
pub struct DiffLineView {
    pub old_no: Option<u32>,
    pub new_no: Option<u32>,
    pub runs: Seq<RunView>,
    pub emphasis: Seq<(int, int)>,
}

impl View for DiffLine {
    type V = DiffLineView;

    open spec fn view(&self) -> DiffLineView {
        DiffLineView {
            old_no: self.old_no,
            new_no: self.new_no,
            runs: runs_view(self.runs@),
            emphasis: pairs(self.emphasis@),
        }
    }
}

impl Clone for DiffLine {
    fn clone(&self) -> (r: DiffLine)
        ensures
            r@ == self@,
    {
        DiffLine {
            old_no: self.old_no,
            new_no: self.new_no,
            runs: copy_runs(&self.runs),
            emphasis: copy_ranges(&self.emphasis),
        }
    }
}

fn copy_ranges(v: &Vec<(usize, usize)>) -> (r: Vec<(usize, usize)>)
    ensures
        r@ == v@,
{
    let mut out: Vec<(usize, usize)> = Vec::new();
    let mut i: usize = 0;
    while i < v.len()
        invariant
            i <= v@.len(),
            out@ == v@.take(i as int),
        decreases v@.len() - i,
    {
        out.push(v[i]);
        i += 1;
        assert(v@.take(i as int).drop_last() =~= v@.take(i - 1));
    }
    assert(v@.take(i as int) =~= v@);
    out
}

pub open spec fn diff_lines_view(s: Seq<DiffLine>) -> Seq<DiffLineView> {
    s.map_values(|l: DiffLine| l@)
}

impl DiffLineView {
    pub open spec fn is_context(self) -> bool {
        self.old_no is Some && self.new_no is Some
    }

    pub open spec fn is_deletion(self) -> bool {
        self.old_no is Some && self.new_no is None
    }

    pub open spec fn is_insertion(self) -> bool {
        self.old_no is None && self.new_no is Some
    }

    /// The line's text.
    pub open spec fn text(self) -> Seq<char> {
        runs_text(self.runs)
    }

    /// What the line starts with in a patch.
    pub open spec fn marker(self) -> char {
        if self.is_deletion() {
            '-'
        } else if self.is_insertion() {
            '+'
        } else {
            ' '
        }
    }
}

pub open spec fn runs_text(s: Seq<RunView>) -> Seq<char>
    decreases s.len(),
{
    if s.len() == 0 {
        Seq::empty()
    } else {
        runs_text(s.drop_last()) + s.last().text
    }
}

impl DiffLine {
    fn is_deletion(&self) -> (r: bool)
        ensures
            r == self@.is_deletion(),
    {
        self.old_no.is_some() && self.new_no.is_none()
    }

    fn is_insertion(&self) -> (r: bool)
        ensures
            r == self@.is_insertion(),
    {
        self.old_no.is_none() && self.new_no.is_some()
    }

    fn is_context(&self) -> (r: bool)
        ensures
            r == self@.is_context(),
    {
        self.old_no.is_some() && self.new_no.is_some()
    }

    fn text(&self) -> (r: String)
        ensures
            r@ == self@.text(),
    {
        let mut out = String::new();
        let ghost all = runs_view(self.runs@);
        let mut i: usize = 0;
        assert(out@ =~= runs_text(all.take(0)));
        while i < self.runs.len()
            invariant
                i <= self.runs@.len(),
                all == runs_view(self.runs@),
                out@ == runs_text(all.take(i as int)),
            decreases self.runs@.len() - i,
        {
            assert(all.take(i + 1).drop_last() =~= all.take(i as int));
            assert(all.take(i + 1).last() == self.runs@[i as int]@);
            append(&mut out, self.runs[i].text.as_str());
            i += 1;
        }
        assert(all.take(i as int) =~= all);
        out
    }
}

/// A row: a line of the diff, or a collapsed run of unchanged lines (kept, so
/// a click can expand them).
#[derive(Debug)]
pub enum Row {
    Line(DiffLine),
    Fold(Vec<DiffLine>),
}

pub enum RowView {
    Line(DiffLineView),
    Fold(Seq<DiffLineView>),
}

impl View for Row {
    type V = RowView;

    open spec fn view(&self) -> RowView {
        match self {
            Row::Line(l) => RowView::Line(l@),
            Row::Fold(v) => RowView::Fold(diff_lines_view(v@)),
        }
    }
}

pub open spec fn rows_view(s: Seq<Row>) -> Seq<RowView> {
    s.map_values(|r: Row| r@)
}

proof fn lemma_rows_push(s: Seq<Row>, r: Row)
    ensures
        rows_view(s.push(r)) == rows_view(s).push(r@),
{
    assert(rows_view(s.push(r)) =~= rows_view(s).push(r@));
}

proof fn lemma_diff_lines_push(s: Seq<DiffLine>, l: DiffLine)
    ensures
        diff_lines_view(s.push(l)) == diff_lines_view(s).push(l@),
{
    assert(diff_lines_view(s.push(l)) =~= diff_lines_view(s).push(l@));
}

// ---- from changes to lines -------------------------------------------------

/// The number of the line at index `i`, counted from one.
pub open spec fn line_no(i: usize) -> u32 {
    (i as u32).wrapping_add(1)
}

/// The runs of line `i`, none where there is no such line.
pub open spec fn runs_at(lines: Seq<Seq<RunView>>, i: usize) -> Seq<RunView> {
    if i < lines.len() {
        lines[i as int]
    } else {
        Seq::empty()
    }
}

/// The line that a change stands for.
pub open spec fn changed_line(
    c: LineChange,
    old_lines: Seq<Seq<RunView>>,
    new_lines: Seq<Seq<RunView>>,
) -> DiffLineView {
    match c.tag {
        ChangeTag::Equal => DiffLineView {
            old_no: Some(line_no(c.old_index->0)),
            new_no: Some(line_no(c.new_index->0)),
            runs: runs_at(new_lines, c.new_index->0),
            emphasis: Seq::empty(),
        },
        ChangeTag::Delete => DiffLineView {
            old_no: Some(line_no(c.old_index->0)),
            new_no: None,
            runs: runs_at(old_lines, c.old_index->0),
            emphasis: Seq::empty(),
        },
        ChangeTag::Insert => DiffLineView {
            old_no: None,
            new_no: Some(line_no(c.new_index->0)),
            runs: runs_at(new_lines, c.new_index->0),
            emphasis: Seq::empty(),
        },
    }
}

pub open spec fn changed_lines(
    changes: Seq<LineChange>,
    old_lines: Seq<Seq<RunView>>,
    new_lines: Seq<Seq<RunView>>,
) -> Seq<DiffLineView> {
    changes.map_values(|c: LineChange| changed_line(c, old_lines, new_lines))
}

/// Every change has the indices that its tag calls for.
pub open spec fn indexed(changes: Seq<LineChange>) -> bool {
    forall|i: int|
        0 <= i < changes.len() ==> {
            let c = #[trigger] changes[i];
            &&& c.tag != ChangeTag::Insert ==> c.old_index is Some
            &&& c.tag != ChangeTag::Delete ==> c.new_index is Some
        }
}

fn number(i: usize) -> (r: u32)
    ensures
        r == line_no(i),
{
    #[verifier::truncate]
    let n: u32 = i as u32;
    n.wrapping_add(1)
}

fn runs_of(lines: &Vec<Vec<Run>>, i: usize) -> (r: Vec<Run>)
    ensures
        runs_view(r@) == runs_at(run_lines_view(lines@), i),
{
    if i < lines.len() {
        assert(run_lines_view(lines@)[i as int] == runs_view(lines@[i as int]@));
        copy_runs(&lines[i])
    } else {
        let none: Vec<Run> = Vec::new();
        assert(runs_view(none@) =~= Seq::<RunView>::empty());
        none
    }
}

fn lines_for(
    changes: &Vec<LineChange>,
    old_lines: &Vec<Vec<Run>>,
    new_lines: &Vec<Vec<Run>>,
) -> (r: Vec<DiffLine>)
    requires
        indexed(changes@),
    ensures
        diff_lines_view(r@) == changed_lines(
            changes@,
            run_lines_view(old_lines@),
            run_lines_view(new_lines@),
        ),
{
    let ghost want = changed_lines(
        changes@,
        run_lines_view(old_lines@),
        run_lines_view(new_lines@),
    );
    let mut out: Vec<DiffLine> = Vec::new();
    let mut i: usize = 0;
    assert(diff_lines_view(out@) =~= want.take(0));
    while i < changes.len()
        invariant
            i <= changes@.len(),
            indexed(changes@),
            want == changed_lines(
                changes@,
                run_lines_view(old_lines@),
                run_lines_view(new_lines@),
            ),
            diff_lines_view(out@) == want.take(i as int),
        decreases changes@.len() - i,
    {
        let c = changes[i];
        let none: Vec<(usize, usize)> = Vec::new();
        assert(pairs(none@) =~= Seq::<(int, int)>::empty());
        assert(changes@[i as int] == c);
        let line = match c.tag {
            ChangeTag::Equal => DiffLine {
                old_no: Some(number(c.old_index.unwrap())),
                new_no: Some(number(c.new_index.unwrap())),
                runs: runs_of(new_lines, c.new_index.unwrap()),
                emphasis: none,
            },
            ChangeTag::Delete => DiffLine {
                old_no: Some(number(c.old_index.unwrap())),
                new_no: None,
                runs: runs_of(old_lines, c.old_index.unwrap()),
                emphasis: none,
            },
            ChangeTag::Insert => DiffLine {
                old_no: None,
                new_no: Some(number(c.new_index.unwrap())),
                runs: runs_of(new_lines, c.new_index.unwrap()),
                emphasis: none,
            },
        };
        proof {
            assert(line@ =~= want[i as int]);
            assert(want.take(i + 1) =~= want.take(i as int).push(want[i as int]));
            lemma_diff_lines_push(out@, line);
        }
        out.push(line);
        i += 1;
    }
    assert(want.take(i as int) =~= want);
    out
}

// ---- word-level emphasis ---------------------------------------------------

/// The first of the insertions `p..end` that is deletion `d` edited; `end`
/// where none is.
pub open spec fn first_homolog(lines: Seq<DiffLineView>, d: int, p: int, end: int) -> int
    decreases end - p,
{
    if p >= end {
        end
    } else if words_similar(word_diff(lines[d].text(), lines[p].text())) {
        p
    } else {
        first_homolog(lines, d, p + 1, end)
    }
}

/// Lines `d` and `p` with the words that changed between them emphasized.
pub open spec fn paired(lines: Seq<DiffLineView>, d: int, p: int) -> Seq<DiffLineView> {
    let words = word_diff(lines[d].text(), lines[p].text());
    lines.update(
        d,
        DiffLineView { emphasis: old_emphasis(words, lines[d].text()), ..lines[d] },
    ).update(p, DiffLineView { emphasis: new_emphasis(words, lines[p].text()), ..lines[p] })
}

/// Each of the deletions `d..d_end` is paired with the first insertion of
/// `p..end` that is similar enough and behind the one paired before it.
pub open spec fn pair_block(lines: Seq<DiffLineView>, d: int, d_end: int, p: int, end: int) -> Seq<
    DiffLineView,
>
    decreases d_end - d,
{
    if d >= d_end {
        lines
    } else {
        let h = first_homolog(lines, d, p, end);
        if h < end {
            pair_block(paired(lines, d, h), d + 1, d_end, h + 1, end)
        } else {
            pair_block(lines, d + 1, d_end, p, end)
        }
    }
}

/// Where the run of deletions (or insertions) that starts at `i` ends.
pub open spec fn run_end(lines: Seq<DiffLineView>, i: int, deletions: bool) -> int
    decreases lines.len() - i,
{
    if 0 <= i < lines.len() && (if deletions {
        lines[i].is_deletion()
    } else {
        lines[i].is_insertion()
    }) {
        run_end(lines, i + 1, deletions)
    } else {
        i
    }
}

pub proof fn lemma_first_homolog(lines: Seq<DiffLineView>, d: int, p: int, end: int)
    requires
        p <= end,
    ensures
        p <= first_homolog(lines, d, p, end) <= end,
    decreases end - p,
{
    if p < end && !words_similar(word_diff(lines[d].text(), lines[p].text())) {
        lemma_first_homolog(lines, d, p + 1, end);
    }
}

pub proof fn lemma_pair_block_len(
    lines: Seq<DiffLineView>,
    d: int,
    d_end: int,
    p: int,
    end: int,
)
    requires
        0 <= d <= d_end <= p <= end <= lines.len(),
    ensures
        pair_block(lines, d, d_end, p, end).len() == lines.len(),
    decreases d_end - d,
{
    if d < d_end {
        let h = first_homolog(lines, d, p, end);
        lemma_first_homolog(lines, d, p, end);
        if h < end {
            lemma_pair_block_len(paired(lines, d, h), d + 1, d_end, h + 1, end);
        } else {
            lemma_pair_block_len(lines, d + 1, d_end, p, end);
        }
    }
}

pub proof fn lemma_run_end(lines: Seq<DiffLineView>, i: int, deletions: bool)
    requires
        0 <= i <= lines.len(),
    ensures
        i <= run_end(lines, i, deletions) <= lines.len(),
        forall|k: int|
            i <= k < run_end(lines, i, deletions) ==> if deletions {
                (#[trigger] lines[k]).is_deletion()
            } else {
                lines[k].is_insertion()
            },
    decreases lines.len() - i,
{
    if i < lines.len() && (if deletions {
        lines[i].is_deletion()
    } else {
        lines[i].is_insertion()
    }) {
        lemma_run_end(lines, i + 1, deletions);
    }
}

/// The lines from `i` on with their changed words emphasized: for each change
/// block, a run of deletions followed by a run of insertions, its lines are
/// paired.
pub open spec fn emphasized(lines: Seq<DiffLineView>, i: int) -> Seq<DiffLineView>
    decreases lines.len() - i,
{
    if i < 0 || i >= lines.len() {
        lines
    } else {
        let mid = run_end(lines, i, true);
        let end = run_end(lines, mid, false);
        let next = pair_block(lines, i, mid, mid, end);
        proof {
            lemma_run_end(lines, i, true);
            lemma_run_end(lines, mid, false);
            lemma_pair_block_len(lines, i, mid, mid, end);
        }
        emphasized(
            next,
            if end == i {
                i + 1
            } else {
                end
            },
        )
    }
}

fn pair_homologs(lines: &mut Vec<DiffLine>, d_start: usize, d_end: usize, end: usize)
    requires
        d_start <= d_end <= end <= old(lines)@.len(),
    ensures
        diff_lines_view(final(lines)@) == pair_block(
            diff_lines_view(old(lines)@),
            d_start as int,
            d_end as int,
            d_end as int,
            end as int,
        ),
        final(lines)@.len() == old(lines)@.len(),
{
    let ghost want = pair_block(
        diff_lines_view(lines@),
        d_start as int,
        d_end as int,
        d_end as int,
        end as int,
    );
    let mut next_ins: usize = d_end;
    let mut d: usize = d_start;
    while d < d_end
        invariant
            d_start <= d <= d_end <= next_ins <= end <= lines@.len(),
            lines@.len() == old(lines)@.len(),
            pair_block(
                diff_lines_view(lines@),
                d as int,
                d_end as int,
                next_ins as int,
                end as int,
            ) == want,
        decreases d_end - d,
    {
        let ghost now = diff_lines_view(lines@);
        let old_text = lines[d].text();
        assert(now[d as int] == lines@[d as int]@);
        let mut p: usize = next_ins;
        let mut found = false;
        while p < end && !found
            invariant
                d < d_end <= next_ins <= p <= end <= lines@.len(),
                lines@.len() == old(lines)@.len(),
                old_text@ == now[d as int].text(),
                now.len() == lines@.len(),
                !found ==> diff_lines_view(lines@) == now,
                !found ==> first_homolog(now, d as int, p as int, end as int) == first_homolog(
                    now,
                    d as int,
                    next_ins as int,
                    end as int,
                ),
                found ==> p < end && p == first_homolog(
                    now,
                    d as int,
                    next_ins as int,
                    end as int,
                ) && diff_lines_view(lines@) == paired(now, d as int, p as int),
            decreases end - p + if found {
                0int
            } else {
                1
            },
        {
            let new_text = lines[p].text();
            assert(now[p as int] == lines@[p as int]@);
            let (ratio, old_e, new_e) = word_emphasis(old_text.as_str(), new_text.as_str());
            if ratio.is_similar() {
                let mut del = lines[d].clone();
                del.emphasis = old_e;
                let mut ins = lines[p].clone();
                ins.emphasis = new_e;
                proof {
                    assert(now[d as int] == lines@[d as int]@);
                }
                lines.set(d, del);
                lines.set(p, ins);
                assert(diff_lines_view(lines@) =~= paired(now, d as int, p as int));
                found = true;
            } else {
                p += 1;
            }
        }
        if found {
            next_ins = p + 1;
        }
        d += 1;
    }
}

/// Mark the changed words of each change block.
fn compute_emphasis(lines: &mut Vec<DiffLine>)
    ensures
        diff_lines_view(final(lines)@) == emphasized(diff_lines_view(old(lines)@), 0),
{
    let ghost want = emphasized(diff_lines_view(lines@), 0);
    let mut i: usize = 0;
    while i < lines.len()
        invariant
            i <= lines@.len(),
            emphasized(diff_lines_view(lines@), i as int) == want,
        decreases lines@.len() - i,
    {
        let ghost now = diff_lines_view(lines@);
        let start = i;
        while i < lines.len() && lines[i].is_deletion()
            invariant
                start <= i <= lines@.len(),
                now == diff_lines_view(lines@),
                run_end(now, i as int, true) == run_end(now, start as int, true),
            decreases lines@.len() - i,
        {
            assert(now[i as int] == lines@[i as int]@);
            i += 1;
        }
        proof {
            if i < lines@.len() {
                assert(now[i as int] == lines@[i as int]@);
            }
        }
        let mid = i;
        while i < lines.len() && lines[i].is_insertion()
            invariant
                mid <= i <= lines@.len(),
                now == diff_lines_view(lines@),
                run_end(now, i as int, false) == run_end(now, mid as int, false),
            decreases lines@.len() - i,
        {
            assert(now[i as int] == lines@[i as int]@);
            i += 1;
        }
        proof {
            if i < lines@.len() {
                assert(now[i as int] == lines@[i as int]@);
            }
        }
        pair_homologs(lines, start, mid, i);
        if start == i {
            i += 1;
        }
    }
}

// ---- folding ---------------------------------------------------------------

/// Line `i` is within `margin` lines of a change.
pub open spec fn kept(lines: Seq<DiffLineView>, margin: nat, i: int) -> bool {
    exists|j: int|
        0 <= j < lines.len() && !(#[trigger] lines[j]).is_context() && j - margin <= i <= j + margin
}

/// The first kept line at or behind `i`; the end where there is none.
pub open spec fn gap_end(lines: Seq<DiffLineView>, margin: nat, i: int) -> int
    decreases lines.len() - i,
{
    if 0 <= i < lines.len() && !kept(lines, margin, i) {
        gap_end(lines, margin, i + 1)
    } else {
        i
    }
}

pub proof fn lemma_gap_end(lines: Seq<DiffLineView>, margin: nat, i: int)
    requires
        0 <= i <= lines.len(),
    ensures
        i <= gap_end(lines, margin, i) <= lines.len(),
        forall|k: int| i <= k < gap_end(lines, margin, i) ==> !#[trigger] kept(lines, margin, k),
    decreases lines.len() - i,
{
    if i < lines.len() && !kept(lines, margin, i) {
        lemma_gap_end(lines, margin, i + 1);
    }
}

/// The rows of the lines from `i` on: lines near a change as they are, longer
/// runs of others folded.
pub open spec fn folded(lines: Seq<DiffLineView>, margin: nat, i: int) -> Seq<RowView>
    decreases lines.len() - i,
{
    if i < 0 || i >= lines.len() {
        Seq::empty()
    } else if kept(lines, margin, i) {
        seq![RowView::Line(lines[i])] + folded(lines, margin, i + 1)
    } else {
        let e = gap_end(lines, margin, i);
        proof {
            lemma_gap_end(lines, margin, i + 1);
        }
        seq![
            if e - i > 1 {
                RowView::Fold(lines.subrange(i, e))
            } else {
                RowView::Line(lines[i])
            },
        ] + folded(lines, margin, e)
    }
}

/// The lines of a row.
pub open spec fn row_lines(r: RowView) -> Seq<DiffLineView> {
    match r {
        RowView::Line(l) => seq![l],
        RowView::Fold(v) => v,
    }
}

/// All lines of the rows, folded or not.
pub open spec fn flat(rows: Seq<RowView>) -> Seq<DiffLineView>
    decreases rows.len(),
{
    if rows.len() == 0 {
        Seq::empty()
    } else {
        row_lines(rows[0]) + flat(rows.drop_first())
    }
}

/// Folding loses no line.
pub proof fn law_folding_keeps_every_line(lines: Seq<DiffLineView>, margin: nat)
    ensures
        flat(folded(lines, margin, 0)) == lines,
{
    lemma_folded_flat(lines, margin, 0);
    assert(lines.skip(0) =~= lines);
}

proof fn lemma_folded_flat(lines: Seq<DiffLineView>, margin: nat, i: int)
    requires
        0 <= i <= lines.len(),
    ensures
        flat(folded(lines, margin, i)) == lines.skip(i),
    decreases lines.len() - i,
{
    if i < lines.len() {
        let rows = folded(lines, margin, i);
        if kept(lines, margin, i) {
            lemma_folded_flat(lines, margin, i + 1);
            assert(rows.drop_first() =~= folded(lines, margin, i + 1));
            assert(seq![lines[i]] + lines.skip(i + 1) =~= lines.skip(i));
        } else {
            let e = gap_end(lines, margin, i);
            lemma_gap_end(lines, margin, i + 1);
            lemma_folded_flat(lines, margin, e);
            assert(rows.drop_first() =~= folded(lines, margin, e));
            if e - i > 1 {
                assert(lines.subrange(i, e) + lines.skip(e) =~= lines.skip(i));
            } else {
                assert(seq![lines[i]] + lines.skip(e) =~= lines.skip(i));
            }
        }
    } else {
        assert(lines.skip(i) =~= Seq::<DiffLineView>::empty());
    }
}

/// Only context is ever folded.
pub proof fn law_changes_are_never_folded(lines: Seq<DiffLineView>, margin: nat, k: int)
    requires
        0 <= k < folded(lines, margin, 0).len(),
    ensures
        folded(lines, margin, 0)[k] matches RowView::Fold(v) ==> forall|j: int|
            0 <= j < v.len() ==> (#[trigger] v[j]).is_context(),
{
    lemma_folds_context(lines, margin, 0, k);
}

proof fn lemma_kept_is_shown(lines: Seq<DiffLineView>, margin: nat, from: int, i: int) -> (k: int)
    requires
        0 <= from <= i < lines.len(),
        kept(lines, margin, i),
    ensures
        0 <= k < folded(lines, margin, from).len(),
        folded(lines, margin, from)[k] == RowView::Line(lines[i]),
    decreases lines.len() - from,
{
    let rows = folded(lines, margin, from);
    if kept(lines, margin, from) {
        if from == i {
            assert(rows[0] == RowView::Line(lines[i]));
            0
        } else {
            let k = lemma_kept_is_shown(lines, margin, from + 1, i);
            assert(rows[k + 1] == folded(lines, margin, from + 1)[k]);
            k + 1
        }
    } else {
        let e = gap_end(lines, margin, from);
        lemma_gap_end(lines, margin, from);
        lemma_gap_end(lines, margin, from + 1);
        let k = lemma_kept_is_shown(lines, margin, e, i);
        assert(rows[k + 1] == folded(lines, margin, e)[k]);
        k + 1
    }
}

/// The lines around a change are shown: a line within `margin` lines of one is
/// in no fold.
pub proof fn law_the_context_of_a_change_is_shown(
    lines: Seq<DiffLineView>,
    margin: nat,
    change: int,
    i: int,
)
    requires
        0 <= change < lines.len(),
        !lines[change].is_context(),
        0 <= i < lines.len(),
        change - margin <= i <= change + margin,
    ensures
        folded(lines, margin, 0).contains(RowView::Line(lines[i])),
{
    assert(kept(lines, margin, i));
    let k = lemma_kept_is_shown(lines, margin, 0, i);
    assert(folded(lines, margin, 0)[k] == RowView::Line(lines[i]));
}

proof fn lemma_folds_context(lines: Seq<DiffLineView>, margin: nat, i: int, k: int)
    requires
        0 <= i <= lines.len(),
        0 <= k < folded(lines, margin, i).len(),
    ensures
        folded(lines, margin, i)[k] matches RowView::Fold(v) ==> forall|j: int|
            0 <= j < v.len() ==> (#[trigger] v[j]).is_context(),
    decreases lines.len() - i,
{
    if i < lines.len() {
        if kept(lines, margin, i) {
            if k > 0 {
                lemma_folds_context(lines, margin, i + 1, k - 1);
            }
        } else {
            let e = gap_end(lines, margin, i);
            lemma_gap_end(lines, margin, i);
            lemma_gap_end(lines, margin, i + 1);
            if k > 0 {
                lemma_folds_context(lines, margin, e, k - 1);
            } else if e - i > 1 {
                let v = lines.subrange(i, e);
                assert forall|j: int| 0 <= j < v.len() implies (#[trigger] v[j]).is_context() by {
                    assert(!kept(lines, margin, i + j));
                    assert(v[j] == lines[i + j]);
                }
            }
        }
    }
}

/// Which lines are within `margin` lines of a change.
fn keep_flags(lines: &Vec<DiffLine>, margin: usize) -> (r: Vec<bool>)
    ensures
        r@.len() == lines@.len(),
        forall|i: int|
            0 <= i < r@.len() ==> #[trigger] r@[i] == kept(
                diff_lines_view(lines@),
                margin as nat,
                i,
            ),
{
    let ghost v = diff_lines_view(lines@);
    let n = lines.len();
    let mut keep: Vec<bool> = Vec::new();
    let mut i: usize = 0;
    while i < n
        invariant
            i <= n,
            keep@.len() == i,
            forall|k: int| 0 <= k < i ==> !#[trigger] keep@[k],
        decreases n - i,
    {
        keep.push(false);
        i += 1;
    }
    i = 0;
    while i < n
        invariant
            i <= n == lines@.len(),
            keep@.len() == n,
            v == diff_lines_view(lines@),
            forall|k: int|
                0 <= k < n ==> (#[trigger] keep@[k] <==> near(v, margin as nat, k, i as int)),
        decreases n - i,
    {
        assert(v[i as int] == lines@[i as int]@);
        if !lines[i].is_context() {
            let lo: usize = if i >= margin {
                i - margin
            } else {
                0
            };
            let hi: usize = if margin < n - i {
                i + margin
            } else {
                n - 1
            };
            let mut k: usize = lo;
            while k <= hi
                invariant
                    lo <= k <= hi + 1,
                    hi < n,
                    keep@.len() == n,
                    forall|m: int|
                        0 <= m < n ==> (#[trigger] keep@[m] <==> (near(
                            v,
                            margin as nat,
                            m,
                            i as int,
                        ) || lo <= m < k)),
                decreases hi + 1 - k,
            {
                keep.set(k, true);
                k += 1;
            }
            assert forall|m: int| 0 <= m < n implies (#[trigger] keep@[m] <==> near(
                v,
                margin as nat,
                m,
                i + 1,
            )) by {
                if lo <= m <= hi {
                    assert(!v[i as int].is_context());
                }
                lemma_near_next(v, margin as nat, m, i as int);
            }
        } else {
            assert forall|m: int| 0 <= m < n implies (#[trigger] keep@[m] <==> near(
                v,
                margin as nat,
                m,
                i + 1,
            )) by {
                lemma_near_next(v, margin as nat, m, i as int);
            }
        }
        i += 1;
    }
    assert forall|k: int| 0 <= k < n implies #[trigger] keep@[k] == kept(v, margin as nat, k) by {
        if kept(v, margin as nat, k) {
            let j = choose|j: int|
                0 <= j < v.len() && !(#[trigger] v[j]).is_context() && j - margin <= k <= j
                    + margin;
            assert(near(v, margin as nat, k, n as int));
        }
        if near(v, margin as nat, k, n as int) {
            let j = choose|j: int|
                0 <= j < n && !(#[trigger] v[j]).is_context() && j - margin <= k <= j + margin;
            assert(!v[j].is_context());
        }
    }
    keep
}

/// Line `k` is within `margin` lines of a change among the first `n` lines.
spec fn near(v: Seq<DiffLineView>, margin: nat, k: int, n: int) -> bool {
    exists|j: int| 0 <= j < n && !(#[trigger] v[j]).is_context() && j - margin <= k <= j + margin
}

proof fn lemma_near_next(v: Seq<DiffLineView>, margin: nat, k: int, n: int)
    requires
        0 <= n < v.len(),
    ensures
        near(v, margin, k, n + 1) <==> near(v, margin, k, n) || (!v[n].is_context() && n - margin
            <= k <= n + margin),
{
    if near(v, margin, k, n) {
        let j = choose|j: int|
            0 <= j < n && !(#[trigger] v[j]).is_context() && j - margin <= k <= j + margin;
        assert(!v[j].is_context());
    }
    if near(v, margin, k, n + 1) {
        let j = choose|j: int|
            0 <= j < n + 1 && !(#[trigger] v[j]).is_context() && j - margin <= k <= j + margin;
        assert(!v[j].is_context());
    }
}

/// Collapse runs of unchanged context beyond `margin` lines around each change.
fn collapse_context(lines: &Vec<DiffLine>, margin: usize) -> (r: Vec<Row>)
    ensures
        rows_view(r@) == folded(diff_lines_view(lines@), margin as nat, 0),
{
    let ghost v = diff_lines_view(lines@);
    let ghost m = margin as nat;
    let keep = keep_flags(lines, margin);
    let n = lines.len();
    let mut out: Vec<Row> = Vec::new();
    let mut i: usize = 0;
    assert(rows_view(out@) + folded(v, m, 0) =~= folded(v, m, 0));
    while i < n
        invariant
            i <= n == lines@.len(),
            v == diff_lines_view(lines@),
            m == margin as nat,
            keep@.len() == n,
            forall|k: int| 0 <= k < n ==> #[trigger] keep@[k] == kept(v, m, k),
            rows_view(out@) + folded(v, m, i as int) == folded(v, m, 0),
        decreases n - i,
    {
        let ghost done = rows_view(out@);
        let ghost at = i as int;
        assert(v[at] == lines@[at]@);
        let row: Row;
        if keep[i] {
            row = Row::Line(lines[i].clone());
            i += 1;
        } else {
            let start = i;
            while i < n && !keep[i]
                invariant
                    start <= i <= n,
                    keep@.len() == n,
                    v.len() == n,
                    forall|k: int| 0 <= k < n ==> #[trigger] keep@[k] == kept(v, m, k),
                    gap_end(v, m, i as int) == gap_end(v, m, start as int),
                decreases n - i,
            {
                i += 1;
            }
            proof {
                lemma_gap_end(v, m, start as int);
                lemma_gap_end(v, m, start + 1);
            }
            if i - start > 1 {
                let mut hidden: Vec<DiffLine> = Vec::new();
                let mut k: usize = start;
                while k < i
                    invariant
                        start <= k <= i <= lines@.len(),
                        v == diff_lines_view(lines@),
                        hidden@.len() == k - start,
                        forall|j: int|
                            0 <= j < hidden@.len() ==> (#[trigger] hidden@[j])@ == v[start + j],
                    decreases i - k,
                {
                    hidden.push(lines[k].clone());
                    k += 1;
                }
                assert(diff_lines_view(hidden@) =~= v.subrange(start as int, i as int));
                row = Row::Fold(hidden);
            } else {
                row = Row::Line(lines[start].clone());
            }
        }
        proof {
            assert(folded(v, m, at) == seq![row@] + folded(v, m, i as int));
            lemma_rows_push(out@, row);
            assert(done + (seq![row@] + folded(v, m, i as int)) =~= done.push(row@) + folded(
                v,
                m,
                i as int,
            ));
        }
        out.push(row);
    }
    assert(rows_view(out@) + Seq::<RowView>::empty() =~= rows_view(out@));
    out
}

// ---- painting --------------------------------------------------------------

/// Colours of the diff's chrome, light or dark to match the syntax theme.
#[derive(Debug, Clone, Copy)]
pub struct Palette {
    pub ins_bg: Rgb,
    pub del_bg: Rgb,
    pub ins_emph_bg: Rgb,
    pub del_emph_bg: Rgb,
    pub gutter: Rgb,
}

pub open spec fn palette(theme: Theme) -> Palette {
    if theme.light() {
        Palette {
            ins_bg: (0xe6, 0xff, 0xec),
            del_bg: (0xff, 0xeb, 0xe9),
            ins_emph_bg: (0xab, 0xf2, 0xbc),
            del_emph_bg: (0xff, 0xc0, 0xc0),
            gutter: (0x9a, 0xa0, 0xa6),
        }
    } else {
        Palette {
            ins_bg: (0x1f, 0x3a, 0x2a),
            del_bg: (0x45, 0x23, 0x2f),
            ins_emph_bg: (0x30, 0x55, 0x3f),
            del_emph_bg: (0x6e, 0x34, 0x46),
            gutter: (0x6c, 0x70, 0x86),
        }
    }
}

impl Palette {
    pub fn new(theme: Theme) -> (r: Palette)
        ensures
            r == palette(theme),
    {
        if theme.is_light() {
            Palette {
                ins_bg: (0xe6, 0xff, 0xec),
                del_bg: (0xff, 0xeb, 0xe9),
                ins_emph_bg: (0xab, 0xf2, 0xbc),
                del_emph_bg: (0xff, 0xc0, 0xc0),
                gutter: (0x9a, 0xa0, 0xa6),
            }
        } else {
            Palette {
                ins_bg: (0x1f, 0x3a, 0x2a),
                del_bg: (0x45, 0x23, 0x2f),
                ins_emph_bg: (0x30, 0x55, 0x3f),
                del_emph_bg: (0x6e, 0x34, 0x46),
                gutter: (0x6c, 0x70, 0x86),
            }
        }
    }
}

/// Characters of gutter and marker before the content of a changed line: nine
/// for the number and its column, two for the marker.
pub const GUTTER_CHARS: usize = 11;

/// `n` right-aligned in four columns.
pub open spec fn pad4(n: u32) -> Seq<char> {
    let d = dec(n as nat);
    repeated(' ', if d.len() < 4 { (4 - d.len()) as nat } else { 0 }) + d
}

/// A line's runs as spans, on a background where there is one.
pub open spec fn painted(runs: Seq<RunView>, bg: Option<Rgb>) -> Seq<SpanView> {
    runs.map_values(
        |r: RunView|
            span(
                r.text,
                Style {
                    fg: Some(rgb_color(r.color)),
                    bg: match bg {
                        Some(c) => Some(rgb_color(c)),
                        None => None,
                    },
                    ..plain()
                },
            ),
    )
}

/// Whether character `pos` of a line is in one of the ranges of its content,
/// which starts behind `prefix` characters.
pub open spec fn emphatic(ranges: Seq<(int, int)>, prefix: int, pos: int) -> bool {
    pos >= prefix && exists|i: int|
        0 <= i < ranges.len() && (#[trigger] ranges[i]).0 <= pos - prefix < ranges[i].1
}

/// Where the run of equal emphasis that starts at character `from` of a span
/// ends; the span starts at character `start` of the line.
pub open spec fn emphasis_end(
    ranges: Seq<(int, int)>,
    prefix: int,
    start: int,
    from: int,
    at: int,
    len: int,
) -> int
    decreases len - at,
{
    if at < len && emphatic(ranges, prefix, start + at) == emphatic(ranges, prefix, start + from) {
        emphasis_end(ranges, prefix, start, from, at + 1, len)
    } else {
        at
    }
}

pub proof fn lemma_emphasis_end(
    ranges: Seq<(int, int)>,
    prefix: int,
    start: int,
    from: int,
    at: int,
    len: int,
)
    requires
        at <= len,
    ensures
        at <= emphasis_end(ranges, prefix, start, from, at, len) <= len,
    decreases len - at,
{
    if at < len && emphatic(ranges, prefix, start + at) == emphatic(ranges, prefix, start + from) {
        lemma_emphasis_end(ranges, prefix, start, from, at + 1, len);
    }
}

/// A span from character `from` on, cut where its emphasis changes.
pub open spec fn split_span(
    sp: SpanView,
    ranges: Seq<(int, int)>,
    prefix: int,
    start: int,
    from: int,
    bg: Rgb,
) -> Seq<SpanView>
    decreases sp.text.len() - from,
{
    let len = sp.text.len() as int;
    if from < 0 || from >= len {
        Seq::empty()
    } else {
        let end = emphasis_end(ranges, prefix, start, from, from + 1, len);
        proof {
            lemma_emphasis_end(ranges, prefix, start, from, from + 1, len);
        }
        seq![
            span(
                sp.text.subrange(from, end),
                if emphatic(ranges, prefix, start + from) {
                    Style { bg: Some(rgb_color(bg)), ..sp.style }
                } else {
                    sp.style
                },
            ),
        ] + split_span(sp, ranges, prefix, start, end, bg)
    }
}

/// The first `n` spans with the ranges on a stronger background.
pub open spec fn repainted_spans(
    spans: Seq<SpanView>,
    ranges: Seq<(int, int)>,
    prefix: int,
    bg: Rgb,
    n: int,
) -> Seq<SpanView>
    decreases n,
{
    if n <= 0 {
        Seq::empty()
    } else {
        repainted_spans(spans, ranges, prefix, bg, n - 1) + split_span(
            spans[n - 1],
            ranges,
            prefix,
            spans_text(spans.take(n - 1)).len() as int,
            0,
            bg,
        )
    }
}

/// A line with its emphasized ranges on a stronger background.
pub open spec fn repainted(line: LineView, ranges: Seq<(int, int)>, bg: Rgb) -> LineView {
    LineView {
        spans: repainted_spans(
            line.spans,
            ranges,
            GUTTER_CHARS as int,
            bg,
            line.spans.len() as int,
        ),
        style: line.style,
    }
}

/// A changed line before emphasis: number, marker and content on its background.
pub open spec fn tinted(
    gutter: Seq<char>,
    marker: Seq<char>,
    color: Color,
    runs: Seq<RunView>,
    bg: Rgb,
    p: Palette,
) -> LineView {
    LineView {
        spans: seq![
            span(gutter, fg_style(rgb_color(p.gutter))),
            span(marker, Style { fg: Some(color), bg: Some(rgb_color(bg)), ..plain() }),
        ] + painted(runs, Some(bg)),
        style: Style { bg: Some(rgb_color(bg)), ..plain() },
    }
}

/// How a line of the diff is drawn: its numbers, its marker on a changed line,
/// then its content in syntax colours.
pub open spec fn diff_line(l: DiffLineView, p: Palette) -> LineView {
    if l.is_context() {
        line_of(
            seq![
                span(
                    pad4(l.old_no->0) + " "@ + pad4(l.new_no->0) + "   "@,
                    fg_style(rgb_color(p.gutter)),
                ),
            ] + painted(l.runs, None),
        )
    } else if l.is_deletion() {
        let line = tinted(pad4(l.old_no->0) + "     "@, "- "@, Color::Red, l.runs, p.del_bg, p);
        if l.emphasis.len() > 0 {
            repainted(line, l.emphasis, p.del_emph_bg)
        } else {
            line
        }
    } else if l.is_insertion() {
        let line = tinted("     "@ + pad4(l.new_no->0), "+ "@, Color::Green, l.runs, p.ins_bg, p);
        if l.emphasis.len() > 0 {
            repainted(line, l.emphasis, p.ins_emph_bg)
        } else {
            line
        }
    } else {
        line_of(Seq::empty())
    }
}

/// How a row is drawn; a fold says how many lines it hides.
pub open spec fn row_line(r: RowView, p: Palette) -> LineView {
    match r {
        RowView::Line(l) => diff_line(l, p),
        RowView::Fold(v) => line_of(
            seq![
                span(
                    "      ▸ ⋯ "@ + dec(v.len()) + " unchanged lines — click to expand"@,
                    fg_style(rgb_color(p.gutter)),
                ),
            ],
        ),
    }
}

/// The drawn rows, one line each.
pub open spec fn rendered(rows: Seq<RowView>, theme: Theme) -> Seq<LineView> {
    rows.map_values(|r: RowView| row_line(r, palette(theme)))
}

fn padded(n: u32) -> (r: String)
    ensures
        r@ == pad4(n),
{
    let d = decimal(n as u64);
    let len = d.as_str().unicode_len();
    let mut s = repeat_char(
        ' ',
        if len < 4 {
            4 - len
        } else {
            0
        },
    );
    append(&mut s, d.as_str());
    s
}

fn paint(runs: &Vec<Run>, bg: Option<Rgb>, spans: &mut Vec<Span>)
    ensures
        spans_view(final(spans)@) == spans_view(old(spans)@) + painted(runs_view(runs@), bg),
{
    let ghost before = spans_view(spans@);
    let ghost want = painted(runs_view(runs@), bg);
    let mut i: usize = 0;
    assert(before + want.take(0) =~= before);
    while i < runs.len()
        invariant
            i <= runs@.len(),
            want == painted(runs_view(runs@), bg),
            spans_view(spans@) == before + want.take(i as int),
        decreases runs@.len() - i,
    {
        let mut style = Style::new().fg(rgb(runs[i].color));
        if let Some(c) = bg {
            style = style.bg(rgb(c));
        }
        let sp = styled(copy(runs[i].text.as_str()), style);
        proof {
            assert(runs_view(runs@)[i as int] == runs@[i as int]@);
            assert(want[i as int] == sp@);
            lemma_spans_push(spans@, sp);
            assert((before + want.take(i as int)).push(sp@) =~= before + want.take(i + 1));
        }
        spans.push(sp);
        i += 1;
    }
    assert(want.take(i as int) =~= want);
}

fn in_ranges(ranges: &Vec<(usize, usize)>, prefix: u128, pos: u128) -> (r: bool)
    ensures
        r == emphatic(pairs(ranges@), prefix as int, pos as int),
{
    if pos < prefix {
        return false;
    }
    let at = pos - prefix;
    let mut i: usize = 0;
    while i < ranges.len()
        invariant
            i <= ranges@.len(),
            pos >= prefix,
            at == pos - prefix,
            forall|k: int|
                0 <= k < i ==> !((#[trigger] pairs(ranges@)[k]).0 <= pos - prefix < pairs(
                    ranges@,
                )[k].1),
        decreases ranges@.len() - i,
    {
        assert(pairs(ranges@)[i as int] == (
            ranges@[i as int].0 as int,
            ranges@[i as int].1 as int,
        ));
        if ranges[i].0 as u128 <= at && at < ranges[i].1 as u128 {
            return true;
        }
        i += 1;
    }
    false
}

/// Give the emphasized ranges of a changed line a stronger background.
fn repaint_emphasis(line: Line, ranges: &Vec<(usize, usize)>, emph_bg: Rgb) -> (r: Line)
    ensures
        r@ == repainted(line@, pairs(ranges@), emph_bg),
{
    let prefix: u128 = GUTTER_CHARS as u128;
    let ghost rs = pairs(ranges@);
    let ghost all = spans_view(line.spans@);
    let mut out: Vec<Span> = Vec::new();
    let mut pos: u128 = 0;
    let mut i: usize = 0;
    assert(spans_view(out@) =~= Seq::<SpanView>::empty());
    assert(all.take(0) =~= Seq::<SpanView>::empty());
    while i < line.spans.len()
        invariant
            i <= line.spans@.len(),
            prefix == GUTTER_CHARS,
            rs == pairs(ranges@),
            all == spans_view(line.spans@),
            line@.spans == all,
            pos == spans_text(all.take(i as int)).len(),
            pos <= i * 0x1_0000_0000_0000_0000,
            spans_view(out@) == repainted_spans(all, rs, prefix as int, emph_bg, i as int),
        decreases line.spans@.len() - i,
    {
        let ghost done = spans_view(out@);
        let ghost sp = all[i as int];
        assert(sp == line.spans@[i as int]@);
        let cs = chars_of(line.spans[i].text.as_str());
        let style = line.spans[i].style;
        let len = cs.len();
        proof {
            assert(all.take(i + 1).drop_last() =~= all.take(i as int));
            assert(all.take(i + 1).last() == sp);
        }
        let mut cursor: usize = 0;
        assert(done + split_span(sp, rs, prefix as int, pos as int, 0, emph_bg) == repainted_spans(
            all,
            rs,
            prefix as int,
            emph_bg,
            i + 1,
        ));
        while cursor < len
            invariant
                cursor <= len == cs@.len(),
                pos + len <= u128::MAX,
                cs@ == sp.text,
                style == sp.style,
                rs == pairs(ranges@),
                spans_view(out@) + split_span(
                    sp,
                    rs,
                    prefix as int,
                    pos as int,
                    cursor as int,
                    emph_bg,
                ) == done + split_span(sp, rs, prefix as int, pos as int, 0, emph_bg),
            decreases len - cursor,
        {
            let ghost cut = spans_view(out@);
            let emph = in_ranges(ranges, prefix, pos + cursor as u128);
            let mut end: usize = cursor + 1;
            while end < len && in_ranges(ranges, prefix, pos + end as u128) == emph
                invariant
                    cursor < end <= len,
                    pos + len <= u128::MAX,
                    rs == pairs(ranges@),
                    emph == emphatic(rs, prefix as int, pos + cursor),
                    emphasis_end(
                        rs,
                        prefix as int,
                        pos as int,
                        cursor as int,
                        end as int,
                        len as int,
                    ) == emphasis_end(
                        rs,
                        prefix as int,
                        pos as int,
                        cursor as int,
                        cursor + 1,
                        len as int,
                    ),
                decreases len - end,
            {
                end += 1;
            }
            let piece = styled(
                string_of(&cs, cursor, end),
                if emph {
                    style.bg(rgb(emph_bg))
                } else {
                    style
                },
            );
            proof {
                let rest = split_span(sp, rs, prefix as int, pos as int, end as int, emph_bg);
                assert(split_span(sp, rs, prefix as int, pos as int, cursor as int, emph_bg)
                    == seq![piece@] + rest);
                lemma_spans_push(out@, piece);
                assert(cut + (seq![piece@] + rest) =~= cut.push(piece@) + rest);
            }
            out.push(piece);
            cursor = end;
        }
        assert(spans_view(out@) + Seq::<SpanView>::empty() =~= spans_view(out@));
        pos += len as u128;
        i += 1;
    }
    assert(all.take(i as int) =~= all);
    Line { spans: out, style: line.style }
}

/// Emphasis changes backgrounds, never a character.
pub proof fn law_emphasis_keeps_the_text(line: LineView, ranges: Seq<(int, int)>, bg: Rgb)
    ensures
        line_text(repainted(line, ranges, bg)) == line_text(line),
{
    lemma_repainted_text(line.spans, ranges, GUTTER_CHARS as int, bg, line.spans.len() as int);
    assert(line.spans.take(line.spans.len() as int) =~= line.spans);
}

pub proof fn lemma_repainted_text(
    spans: Seq<SpanView>,
    ranges: Seq<(int, int)>,
    prefix: int,
    bg: Rgb,
    n: int,
)
    requires
        0 <= n <= spans.len(),
    ensures
        spans_text(repainted_spans(spans, ranges, prefix, bg, n)) == spans_text(spans.take(n)),
    decreases n,
{
    if n > 0 {
        lemma_repainted_text(spans, ranges, prefix, bg, n - 1);
        let start = spans_text(spans.take(n - 1)).len() as int;
        let cut = split_span(spans[n - 1], ranges, prefix, start, 0, bg);
        lemma_spans_text_concat(repainted_spans(spans, ranges, prefix, bg, n - 1), cut);
        lemma_split_text(spans[n - 1], ranges, prefix, start, 0, bg);
        assert(spans.take(n).drop_last() =~= spans.take(n - 1));
        assert(spans[n - 1].text.skip(0) =~= spans[n - 1].text);
    }
}

pub proof fn lemma_split_text(
    sp: SpanView,
    ranges: Seq<(int, int)>,
    prefix: int,
    start: int,
    from: int,
    bg: Rgb,
)
    requires
        0 <= from <= sp.text.len(),
    ensures
        spans_text(split_span(sp, ranges, prefix, start, from, bg)) == sp.text.skip(from),
    decreases sp.text.len() - from,
{
    let len = sp.text.len() as int;
    if from < len {
        let end = emphasis_end(ranges, prefix, start, from, from + 1, len);
        lemma_emphasis_end(ranges, prefix, start, from, from + 1, len);
        lemma_split_text(sp, ranges, prefix, start, end, bg);
        let all = split_span(sp, ranges, prefix, start, from, bg);
        let rest = split_span(sp, ranges, prefix, start, end, bg);
        let first = seq![all[0]];
        assert(all =~= first + rest);
        lemma_spans_text_concat(first, rest);
        assert(first.drop_last() =~= Seq::<SpanView>::empty());
        assert(spans_text(first) =~= all[0].text) by {
            assert(spans_text(first.drop_last()) =~= Seq::<char>::empty());
        }
        assert(sp.text.subrange(from, end) + sp.text.skip(end) =~= sp.text.skip(from));
    } else {
        assert(sp.text.skip(from) =~= Seq::<char>::empty());
    }
}

fn tint_line(
    gutter: String,
    marker: &str,
    color: Color,
    runs: &Vec<Run>,
    bg: Rgb,
    p: &Palette,
) -> (r: Line)
    ensures
        r@ == tinted(gutter@, marker@, color, runs_view(runs@), bg, *p),
{
    broadcast use lemma_spans_push;

    let mut spans: Vec<Span> = Vec::new();
    assert(spans_view(spans@) =~= Seq::<SpanView>::empty());
    spans.push(styled(gutter, Style::new().fg(rgb(p.gutter))));
    spans.push(styled(copy(marker), Style::new().fg(color).bg(rgb(bg))));
    let ghost head = spans_view(spans@);
    assert(head =~= seq![
        span(gutter@, fg_style(rgb_color(p.gutter))),
        span(marker@, Style { fg: Some(color), bg: Some(rgb_color(bg)), ..plain() }),
    ]);
    paint(runs, Some(bg), &mut spans);
    Line { spans, style: Style::new().bg(rgb(bg)) }
}

/// One line of the diff, drawn.
fn draw_line(l: &DiffLine, p: &Palette) -> (r: Line)
    ensures
        r@ == diff_line(l@, *p),
{
    broadcast use lemma_spans_push;

    match (l.old_no, l.new_no) {
        (Some(old_no), Some(new_no)) => {
            let mut gutter = padded(old_no);
            append(&mut gutter, " ");
            let second = padded(new_no);
            append(&mut gutter, second.as_str());
            append(&mut gutter, "   ");
            let mut spans: Vec<Span> = Vec::new();
            assert(spans_view(spans@) =~= Seq::<SpanView>::empty());
            spans.push(styled(gutter, Style::new().fg(rgb(p.gutter))));
            paint(&l.runs, None, &mut spans);
            Line { spans, style: Style::new() }
        },
        (Some(old_no), None) => {
            let mut gutter = padded(old_no);
            append(&mut gutter, "     ");
            let line = tint_line(gutter, "- ", Color::Red, &l.runs, p.del_bg, p);
            if l.emphasis.len() > 0 {
                repaint_emphasis(line, &l.emphasis, p.del_emph_bg)
            } else {
                line
            }
        },
        (None, Some(new_no)) => {
            let mut gutter = copy("     ");
            let n = padded(new_no);
            append(&mut gutter, n.as_str());
            let line = tint_line(gutter, "+ ", Color::Green, &l.runs, p.ins_bg, p);
            if l.emphasis.len() > 0 {
                repaint_emphasis(line, &l.emphasis, p.ins_emph_bg)
            } else {
                line
            }
        },
        (None, None) => {
            let spans: Vec<Span> = Vec::new();
            assert(spans_view(spans@) =~= Seq::<SpanView>::empty());
            Line { spans, style: Style::new() }
        },
    }
}

/// The rows, drawn: one line each.
fn to_text(rows: &Vec<Row>, theme: Theme) -> (r: Vec<Line>)
    ensures
        lines_view(r@) == rendered(rows_view(rows@), theme),
        r@.len() == rows@.len(),
{
    broadcast use {lemma_spans_push, lemma_lines_push};

    let p = Palette::new(theme);
    let ghost want = rendered(rows_view(rows@), theme);
    let mut out: Vec<Line> = Vec::new();
    let mut i: usize = 0;
    assert(lines_view(out@) =~= want.take(0));
    while i < rows.len()
        invariant
            i <= rows@.len(),
            out@.len() == i,
            p == palette(theme),
            want == rendered(rows_view(rows@), theme),
            lines_view(out@) == want.take(i as int),
        decreases rows@.len() - i,
    {
        let line = match &rows[i] {
            Row::Line(l) => draw_line(l, &p),
            Row::Fold(hidden) => {
                let mut text = copy("      ▸ ⋯ ");
                append_dec(&mut text, hidden.len() as u64);
                append(&mut text, " unchanged lines — click to expand");
                let mut spans: Vec<Span> = Vec::new();
                assert(spans_view(spans@) =~= Seq::<SpanView>::empty());
                spans.push(styled(text, Style::new().fg(rgb(p.gutter))));
                Line { spans, style: Style::new() }
            },
        };
        proof {
            assert(rows_view(rows@)[i as int] == rows@[i as int]@);
            assert(line@ =~= want[i as int]);
            assert(want.take(i + 1) =~= want.take(i as int).push(want[i as int]));
        }
        out.push(line);
        i += 1;
    }
    assert(want.take(i as int) =~= want);
    out
}

// ---- the document ----------------------------------------------------------

/// The built document. Folds can be expanded in place.
pub struct DiffDoc {
    rows: Vec<Row>,
    theme: Theme,
    text: Vec<Line>,
    first_change: Option<u32>,
    is_empty: bool,
    binary: bool,
}

/// What a document holds.
#[verifier::ext_equal]
pub struct DocView {
    pub rows: Seq<RowView>,
    pub theme: Theme,
    /// First inserted line's new number (for the editor jump).
    pub first_change: Option<u32>,
    pub is_empty: bool,
    pub binary: bool,
}

impl View for DiffDoc {
    type V = DocView;

    closed spec fn view(&self) -> DocView {
        DocView {
            rows: rows_view(self.rows@),
            theme: self.theme,
            first_change: self.first_change,
            is_empty: self.is_empty,
            binary: self.binary,
        }
    }
}

/// The new number of the first insertion at or behind line `i`.
pub open spec fn first_insertion(lines: Seq<DiffLineView>, i: int) -> Option<u32>
    decreases lines.len() - i,
{
    if i < 0 || i >= lines.len() {
        None
    } else if lines[i].is_insertion() {
        lines[i].new_no
    } else {
        first_insertion(lines, i + 1)
    }
}

/// Whether any line is deleted or inserted.
pub open spec fn has_change(lines: Seq<DiffLineView>) -> bool {
    exists|i: int| 0 <= i < lines.len() && !(#[trigger] lines[i]).is_context()
}

/// The document of a diff: its lines emphasized, and context beyond `margin`
/// lines folded.
pub open spec fn document(
    changes: Seq<LineChange>,
    old_lines: Seq<Seq<RunView>>,
    new_lines: Seq<Seq<RunView>>,
    theme: Theme,
    margin: nat,
) -> DocView {
    let lines = changed_lines(changes, old_lines, new_lines);
    DocView {
        rows: folded(emphasized(lines, 0), margin, 0),
        theme,
        first_change: first_insertion(lines, 0),
        is_empty: !has_change(lines),
        binary: false,
    }
}

pub open spec fn binary_document(theme: Theme) -> DocView {
    DocView { rows: Seq::empty(), theme, first_change: None, is_empty: false, binary: true }
}

/// The rows with the fold at `i` expanded.
pub open spec fn unfolded(rows: Seq<RowView>, i: int) -> Seq<RowView> {
    rows.take(i) + row_lines(rows[i]).map_values(|l: DiffLineView| RowView::Line(l)) + rows.skip(
        i + 1,
    )
}

impl DocView {
    /// The drawn rows.
    pub open spec fn lines(self) -> Seq<LineView> {
        rendered(self.rows, self.theme)
    }

    pub open spec fn is_fold(self, i: int) -> bool {
        0 <= i < self.rows.len() && self.rows[i] is Fold
    }

    /// The old and new number of a drawn line; none of a fold.
    pub open spec fn numbers(self, i: int) -> Option<(Option<u32>, Option<u32>)> {
        if 0 <= i < self.rows.len() {
            match self.rows[i] {
                RowView::Line(l) => Some((l.old_no, l.new_no)),
                RowView::Fold(_) => None,
            }
        } else {
            None
        }
    }

    /// The text of a drawn line with its marker; none of a fold.
    pub open spec fn marked_text(self, i: int) -> Option<Seq<char>> {
        if 0 <= i < self.rows.len() {
            match self.rows[i] {
                RowView::Line(l) => Some(seq![l.marker()] + l.text()),
                RowView::Fold(_) => None,
            }
        } else {
            None
        }
    }

    pub open spec fn shows_new(self, i: int, n: u32) -> bool {
        self.numbers(i) matches Some(p) && p.1 == Some(n)
    }

    /// The first drawn line at or behind `i` with new number `n`.
    pub open spec fn line_of_new(self, n: u32, i: int) -> Option<int>
        decreases self.rows.len() - i,
    {
        if i < 0 || i >= self.rows.len() {
            None
        } else if self.shows_new(i, n) {
            Some(i)
        } else {
            self.line_of_new(n, i + 1)
        }
    }
}

/// Expanding a fold shows its lines and changes no other.
pub proof fn law_unfolding_keeps_every_line(rows: Seq<RowView>, i: int)
    requires
        0 <= i < rows.len(),
    ensures
        flat(unfolded(rows, i)) == flat(rows),
{
    let own = row_lines(rows[i]);
    let lines = own.map_values(|l: DiffLineView| RowView::Line(l));
    lemma_flat_concat(rows.take(i) + lines, rows.skip(i + 1));
    lemma_flat_concat(rows.take(i), lines);
    lemma_flat_lines(own);
    assert(rows =~= rows.take(i) + seq![rows[i]] + rows.skip(i + 1));
    lemma_flat_concat(rows.take(i) + seq![rows[i]], rows.skip(i + 1));
    lemma_flat_concat(rows.take(i), seq![rows[i]]);
    assert(seq![rows[i]].drop_first() =~= Seq::<RowView>::empty());
    assert(flat(seq![rows[i]]) =~= own) by {
        assert(flat(seq![rows[i]].drop_first()) =~= Seq::<DiffLineView>::empty());
    }
}

proof fn lemma_flat_concat(a: Seq<RowView>, b: Seq<RowView>)
    ensures
        flat(a + b) == flat(a) + flat(b),
    decreases a.len(),
{
    if a.len() == 0 {
        assert(a + b =~= b);
        assert(flat(a) + flat(b) =~= flat(b));
    } else {
        assert((a + b).drop_first() =~= a.drop_first() + b);
        lemma_flat_concat(a.drop_first(), b);
        assert(row_lines(a[0]) + (flat(a.drop_first()) + flat(b)) =~= (row_lines(a[0]) + flat(
            a.drop_first(),
        )) + flat(b));
    }
}

proof fn lemma_flat_lines(own: Seq<DiffLineView>)
    ensures
        flat(own.map_values(|l: DiffLineView| RowView::Line(l))) == own,
    decreases own.len(),
{
    let lines = own.map_values(|l: DiffLineView| RowView::Line(l));
    if own.len() > 0 {
        assert(lines.drop_first() =~= own.drop_first().map_values(
            |l: DiffLineView| RowView::Line(l),
        ));
        lemma_flat_lines(own.drop_first());
        assert(seq![own[0]] + own.drop_first() =~= own);
    } else {
        assert(flat(lines) =~= own);
    }
}

impl DiffDoc {
    #[verifier::type_invariant]
    closed spec fn inv(self) -> bool {
        &&& lines_view(self.text@) == rendered(rows_view(self.rows@), self.theme)
        &&& self.text@.len() == self.rows@.len()
    }

    /// The drawn lines.
    pub fn text(&self) -> (r: &Vec<Line>)
        ensures
            lines_view(r@) == self@.lines(),
            r@.len() == self@.rows.len(),
    {
        proof {
            use_type_invariant(self);
        }
        &self.text
    }

    /// First inserted line's new number (for the editor jump).
    pub fn first_change(&self) -> (r: Option<u32>)
        ensures
            r == self@.first_change,
    {
        self.first_change
    }

    /// Whether nothing changed.
    pub fn is_empty(&self) -> (r: bool)
        ensures
            r == self@.is_empty,
    {
        self.is_empty
    }

    /// Whether either side is binary.
    pub fn binary(&self) -> (r: bool)
        ensures
            r == self@.binary,
    {
        self.binary
    }

    /// Expand the fold at drawn line `line`, if that line is a fold. Returns
    /// true when something unfolded.
    pub fn unfold_at(&mut self, line: usize) -> (r: bool)
        ensures
            r == old(self)@.is_fold(line as int),
            !r ==> final(self)@ == old(self)@,
            r ==> final(self)@ == (DocView {
                rows: unfolded(old(self)@.rows, line as int),
                ..old(self)@
            }),
    {
        let ghost before = rows_view(self.rows@);
        if line >= self.rows.len() {
            return false;
        }
        assert(before[line as int] == self.rows@[line as int]@);
        match &self.rows[line] {
            Row::Line(_) => false,
            Row::Fold(hidden) => {
                let mut rows: Vec<Row> = Vec::new();
                copy_rows(&self.rows, 0, line, &mut rows);
                let ghost head = rows_view(rows@);
                assert(head =~= before.take(line as int));
                let ghost own = diff_lines_view(hidden@);
                let ghost inner = own.map_values(|l: DiffLineView| RowView::Line(l));
                let mut i: usize = 0;
                assert(head + inner.take(0) =~= head);
                while i < hidden.len()
                    invariant
                        i <= hidden@.len(),
                        own == diff_lines_view(hidden@),
                        inner == own.map_values(|l: DiffLineView| RowView::Line(l)),
                        rows_view(rows@) == head + inner.take(i as int),
                    decreases hidden@.len() - i,
                {
                    let row = Row::Line(hidden[i].clone());
                    proof {
                        assert(own[i as int] == hidden@[i as int]@);
                        assert(row@ == inner[i as int]);
                        lemma_rows_push(rows@, row);
                        assert((head + inner.take(i as int)).push(row@) =~= head + inner.take(
                            i + 1,
                        ));
                    }
                    rows.push(row);
                    i += 1;
                }
                assert(inner.take(i as int) =~= inner);
                copy_rows(&self.rows, line + 1, self.rows.len(), &mut rows);
                assert(rows_view(rows@) =~= unfolded(before, line as int));
                let text = to_text(&rows, self.theme);
                *self = DiffDoc {
                    rows,
                    theme: self.theme,
                    text,
                    first_change: self.first_change,
                    is_empty: self.is_empty,
                    binary: self.binary,
                };
                true
            },
        }
    }

    /// The old and new number of a drawn line; `None` of a fold.
    pub fn numbers_of_line(&self, line: usize) -> (r: Option<(Option<u32>, Option<u32>)>)
        ensures
            r == self@.numbers(line as int),
    {
        if line >= self.rows.len() {
            return None;
        }
        assert(rows_view(self.rows@)[line as int] == self.rows@[line as int]@);
        match &self.rows[line] {
            Row::Line(l) => Some((l.old_no, l.new_no)),
            Row::Fold(_) => None,
        }
    }

    /// The text of a drawn line, with `-`, `+` or a space in front; `None` of a fold.
    pub fn marker_text_of_line(&self, line: usize) -> (r: Option<String>)
        ensures
            crate::text::opt_str(r) == self@.marked_text(line as int),
    {
        if line >= self.rows.len() {
            return None;
        }
        assert(rows_view(self.rows@)[line as int] == self.rows@[line as int]@);
        match &self.rows[line] {
            Row::Line(l) => {
                let mut s = String::new();
                s.push(
                    if l.is_deletion() {
                        '-'
                    } else if l.is_insertion() {
                        '+'
                    } else {
                        ' '
                    },
                );
                let t = l.text();
                append(&mut s, t.as_str());
                assert(s@ =~= seq![l@.marker()] + l@.text());
                Some(s)
            },
            Row::Fold(_) => None,
        }
    }

    /// The drawn line that shows line `n` of the new file; `None` where it is
    /// gone or hidden in a fold.
    pub fn line_for_new(&self, n: u32) -> (r: Option<usize>)
        ensures
            r is None <==> self@.line_of_new(n, 0) is None,
            r is Some ==> self@.line_of_new(n, 0) == Some(r->0 as int) && r->0 < self@.rows.len(),
    {
        let mut i: usize = 0;
        while i < self.rows.len()
            invariant
                i <= self.rows@.len(),
                self@.line_of_new(n, i as int) == self@.line_of_new(n, 0),
            decreases self.rows@.len() - i,
        {
            if let Some((_, Some(k))) = self.numbers_of_line(i) {
                if k == n {
                    return Some(i);
                }
            }
            i += 1;
        }
        None
    }
}

fn copy_rows(rows: &Vec<Row>, from: usize, to: usize, out: &mut Vec<Row>)
    requires
        from <= to <= rows@.len(),
    ensures
        rows_view(final(out)@) == rows_view(old(out)@) + rows_view(rows@).subrange(
            from as int,
            to as int,
        ),
{
    let ghost before = rows_view(out@);
    let ghost all = rows_view(rows@);
    let mut i: usize = from;
    assert(before + all.subrange(from as int, from as int) =~= before);
    while i < to
        invariant
            from <= i <= to <= rows@.len(),
            all == rows_view(rows@),
            rows_view(out@) == before + all.subrange(from as int, i as int),
        decreases to - i,
    {
        let row = match &rows[i] {
            Row::Line(l) => Row::Line(l.clone()),
            Row::Fold(v) => {
                let mut lines: Vec<DiffLine> = Vec::new();
                let mut k: usize = 0;
                while k < v.len()
                    invariant
                        k <= v@.len(),
                        lines@.len() == k,
                        forall|j: int| 0 <= j < k ==> (#[trigger] lines@[j])@ == v@[j]@,
                    decreases v@.len() - k,
                {
                    lines.push(v[k].clone());
                    k += 1;
                }
                assert(diff_lines_view(lines@) =~= diff_lines_view(v@));
                Row::Fold(lines)
            },
        };
        proof {
            assert(all[i as int] == rows@[i as int]@);
            lemma_rows_push(out@, row);
            assert((before + all.subrange(from as int, i as int)).push(row@) =~= before
                + all.subrange(from as int, i + 1));
        }
        out.push(row);
        i += 1;
    }
}

/// Build the document of a diff from its changes and the runs of both sides.
pub fn assemble(
    changes: &Vec<LineChange>,
    old_lines: &Vec<Vec<Run>>,
    new_lines: &Vec<Vec<Run>>,
    theme: Theme,
    margin: usize,
) -> (r: DiffDoc)
    requires
        indexed(changes@),
    ensures
        r@ == document(
            changes@,
            run_lines_view(old_lines@),
            run_lines_view(new_lines@),
            theme,
            margin as nat,
        ),
{
    let mut lines = lines_for(changes, old_lines, new_lines);
    let ghost v = diff_lines_view(lines@);
    let mut is_empty = true;
    let mut first_change: Option<u32> = None;
    let mut i: usize = 0;
    while i < lines.len()
        invariant
            i <= lines@.len(),
            v == diff_lines_view(lines@),
            is_empty == !exists|k: int| 0 <= k < i && !(#[trigger] v[k]).is_context(),
            first_change is None ==> first_insertion(v, 0) == first_insertion(v, i as int),
            first_change is Some ==> first_change == first_insertion(v, 0),
        decreases lines@.len() - i,
    {
        assert(v[i as int] == lines@[i as int]@);
        if !lines[i].is_context() {
            is_empty = false;
        }
        if first_change.is_none() && lines[i].is_insertion() {
            first_change = lines[i].new_no;
        }
        i += 1;
    }
    compute_emphasis(&mut lines);
    let rows = collapse_context(&lines, margin);
    let text = to_text(&rows, theme);
    DiffDoc { rows, theme, text, first_change, is_empty, binary: false }
}

/// A document is empty exactly when the two texts are equal, where the changes
/// make up both texts and equal texts have none.
pub proof fn law_a_document_is_empty_for_equal_texts(
    changes: Seq<LineChange>,
    old_text: Seq<char>,
    new_text: Seq<char>,
    old_lines: Seq<Seq<RunView>>,
    new_lines: Seq<Seq<RunView>>,
    theme: Theme,
    margin: nat,
)
    requires
        rebuilds_lines(changes, old_text, new_text),
        old_text == new_text ==> all_equal(changes),
    ensures
        document(changes, old_lines, new_lines, theme, margin).is_empty <==> old_text == new_text,
{
    let lines = changed_lines(changes, old_lines, new_lines);
    assert forall|i: int| 0 <= i < changes.len() implies ((#[trigger] changes[i]).tag
        == ChangeTag::Equal <==> lines[i].is_context()) by {
        assert(lines[i] == changed_line(changes[i], old_lines, new_lines));
    }
    if !has_change(lines) {
        assert(all_equal(changes)) by {
            assert forall|i: int| 0 <= i < changes.len() implies (#[trigger] changes[i]).tag
                == ChangeTag::Equal by {
                assert(lines[i].is_context());
            }
        }
        lemma_all_equal(changes, old_text, new_text);
    }
    if old_text == new_text && has_change(lines) {
        let i = choose|i: int| 0 <= i < lines.len() && !(#[trigger] lines[i]).is_context();
        assert(changes[i].tag == ChangeTag::Equal);
    }
}

/// Build the full document from old and new file content.
pub fn build(
    path: &str,
    old_text: &str,
    new_text: &str,
    hl: &Highlighter,
    theme: Theme,
    margin: usize,
) -> (r: DiffDoc)
    ensures
        old_text@.contains('\0') || new_text@.contains('\0') ==> r@ == binary_document(theme),
        !old_text@.contains('\0') && !new_text@.contains('\0') ==> r@ == document(
            line_diff(old_text@, new_text@),
            highlighted(hl.embedded(), old_text@, extension(path@)),
            highlighted(hl.embedded(), new_text@, extension(path@)),
            theme,
            margin as nat,
        ),
        !old_text@.contains('\0') && !new_text@.contains('\0') ==> (r@.is_empty <==> old_text@
            == new_text@),
        !old_text@.contains('\0') && !new_text@.contains('\0') && numbered(old_text@) && numbered(
            new_text@,
        ) ==> stands_for(
            flat(r@.rows),
            with_endings(old_text@),
            with_endings(new_text@),
            highlighted(hl.embedded(), old_text@, extension(path@)),
            highlighted(hl.embedded(), new_text@, extension(path@)),
        ),
{
    if has_char(old_text, '\0') || has_char(new_text, '\0') {
        let rows: Vec<Row> = Vec::new();
        let text: Vec<Line> = Vec::new();
        assert(rows_view(rows@) =~= Seq::<RowView>::empty());
        assert(lines_view(text@) =~= rendered(rows_view(rows@), theme));
        return DiffDoc { rows, theme, text, first_change: None, is_empty: false, binary: true };
    }
    let ext = extension_of(path);
    let ext_ref: Option<&str> = match &ext {
        Some(e) => Some(e.as_str()),
        None => None,
    };
    let old_lines = hl.highlight(old_text, ext_ref);
    let new_lines = hl.highlight(new_text, ext_ref);
    let changes = line_changes(old_text, new_text);
    proof {
        law_a_document_is_empty_for_equal_texts(
            changes@,
            old_text@,
            new_text@,
            run_lines_view(old_lines@),
            run_lines_view(new_lines@),
            theme,
            margin as nat,
        );
        if numbered(old_text@) && numbered(new_text@) {
            law_a_diff_leads_over(changes@, old_text@, new_text@);
            law_every_line_is_highlighted(hl.embedded(), old_text@, extension(path@));
            law_every_line_is_highlighted(hl.embedded(), new_text@, extension(path@));
            law_rows_stand_for_all_lines(
                changes@,
                with_endings(old_text@),
                with_endings(new_text@),
                run_lines_view(old_lines@),
                run_lines_view(new_lines@),
                theme,
                margin as nat,
            );
        }
    }
    assemble(&changes, &old_lines, &new_lines, theme, margin)
}

// ---- what is folded --------------------------------------------------------------

proof fn lemma_far_is_folded(lines: Seq<DiffLineView>, margin: nat, from: int, i: int)
    requires
        0 <= from <= i,
        i + 1 < lines.len(),
        !kept(lines, margin, i),
        !kept(lines, margin, i + 1),
        from == 0 || from == i + 1 || kept(lines, margin, from) || kept(lines, margin, from - 1),
    ensures
        exists|k: int, a: int, b: int|
            0 <= k < folded(lines, margin, from).len() && a <= i < b && #[trigger] folded(
                lines,
                margin,
                from,
            )[k] == RowView::Fold(#[trigger] lines.subrange(a, b)),
    decreases lines.len() - from,
{
    let rows = folded(lines, margin, from);
    if kept(lines, margin, from) {
        lemma_far_is_folded(lines, margin, from + 1, i);
        let rest = folded(lines, margin, from + 1);
        let (k, a, b) = choose|k: int, a: int, b: int|
            0 <= k < rest.len() && a <= i < b && #[trigger] rest[k] == RowView::Fold(
                #[trigger] lines.subrange(a, b),
            );
        assert(rows[k + 1] == RowView::Fold(lines.subrange(a, b)));
    } else {
        let e = gap_end(lines, margin, from);
        lemma_gap_end(lines, margin, from);
        lemma_gap_end(lines, margin, from + 1);
        lemma_gap_stops(lines, margin, from);
        if i < e {
            if e == i + 1 {
                assert(kept(lines, margin, e));
            }
            assert(rows[0] == RowView::Fold(lines.subrange(from, e)));
        } else {
            lemma_far_is_folded(lines, margin, e, i);
            let rest = folded(lines, margin, e);
            let (k, a, b) = choose|k: int, a: int, b: int|
                0 <= k < rest.len() && a <= i < b && #[trigger] rest[k] == RowView::Fold(
                    #[trigger] lines.subrange(a, b),
                );
            assert(rows[k + 1] == RowView::Fold(lines.subrange(a, b)));
        }
    }
}

proof fn lemma_gap_stops(lines: Seq<DiffLineView>, margin: nat, i: int)
    requires
        0 <= i <= lines.len(),
    ensures
        gap_end(lines, margin, i) < lines.len() ==> kept(lines, margin, gap_end(lines, margin, i)),
    decreases lines.len() - i,
{
    if i < lines.len() && !kept(lines, margin, i) {
        lemma_gap_stops(lines, margin, i + 1);
    }
}

/// What is far from every change is folded: of two lines next to each other that
/// are both more than `margin` lines from any change, the first is in a fold.
pub proof fn law_far_lines_are_folded(lines: Seq<DiffLineView>, margin: nat, i: int)
    requires
        0 <= i,
        i + 1 < lines.len(),
        forall|j: int|
            0 <= j < lines.len() && !(#[trigger] lines[j]).is_context() ==> j + margin < i || j
                - margin > i + 1,
    ensures
        exists|k: int, a: int, b: int|
            0 <= k < folded(lines, margin, 0).len() && a <= i < b && #[trigger] folded(
                lines,
                margin,
                0,
            )[k] == RowView::Fold(#[trigger] lines.subrange(a, b)),
{
    lemma_far_is_folded(lines, margin, 0, i);
}

/// An opened fold shows its lines in its place, and the other rows stay.
pub proof fn law_an_opened_fold_shows_its_lines(rows: Seq<RowView>, i: int)
    requires
        0 <= i < rows.len(),
        rows[i] is Fold,
    ensures
        ({
            let hidden = rows[i]->Fold_0;
            let now = unfolded(rows, i);
            &&& now.len() == rows.len() - 1 + hidden.len()
            &&& forall|k: int| 0 <= k < i ==> #[trigger] now[k] == rows[k]
            &&& forall|k: int|
                0 <= k < hidden.len() ==> now[i + k] == RowView::Line(#[trigger] hidden[k])
            &&& forall|k: int|
                i < k < rows.len() ==> now[k - 1 + hidden.len()] == #[trigger] rows[k]
        }),
{
    let hidden = rows[i]->Fold_0;
    let now = unfolded(rows, i);
    assert forall|k: int| i < k < rows.len() implies now[k - 1 + hidden.len()] == #[trigger] rows[k] by {
        assert(rows.skip(i + 1)[k - i - 1] == rows[k]);
    }
}

} // verus!
