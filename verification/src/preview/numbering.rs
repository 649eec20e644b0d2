//! What the rows of a diff stand for: every line of both texts once, in order,
//! under its own number.
use crate::preview::emphasis::{
    covered, cut_at_line_ends, ended, in_step, line_by_line, lines_before, rebuilds_lines,
    side_pieces, side_text, with_texts, ChangeTag, LineChange,
};
use crate::preview::highlight::{
    colored, embedded_foreground, fallback_fg, highlighted, joined_runs,
    law_highlighting_adds_no_text, lemma_endings_are_lines, one_line, plain_lines, starts_lines,
    token_runs, trim_feeds, with_endings, Embedded, RunView,
};
use crate::preview::render::{
    changed_line, changed_lines, diff_line, document, emphasis_end, emphasized, emphatic,
    first_homolog, first_insertion, flat, law_emphasis_keeps_the_text,
    law_folding_keeps_every_line, lemma_emphasis_end, lemma_first_homolog, lemma_pair_block_len,
    lemma_repainted_text, lemma_run_end, lemma_split_text, line_no, pad4, pair_block, paired,
    painted, palette, repainted, repainted_spans, run_end, runs_text, split_span, tinted,
    DiffLineView, DocView, Palette, RowView, GUTTER_CHARS,
};
use crate::style::{
    lemma_spans_text_concat, line_text, plain, rgb_color, spans_text, Color, Rgb, SpanView, Style,
    Theme,
};
use crate::text::{chop_cr, dec, law_joining_undoes_splitting, lines, split};
use vstd::prelude::*;

verus! {

// ---- the lines of a text ---------------------------------------------------

/// Whether the lines of a text can be told by their numbers: no carriage return
/// stands alone, and there are no more lines than numbers.
pub open spec fn numbered(text: Seq<char>) -> bool {
    no_lone_return(text) && with_endings(text).len() <= u32::MAX
}

/// The pieces one behind the other.
pub open spec fn joined_lines(pieces: Seq<Seq<char>>) -> Seq<char>
    decreases pieces.len(),
{
    if pieces.len() == 0 {
        Seq::empty()
    } else {
        joined_lines(pieces.drop_last()) + pieces.last()
    }
}

/// Every carriage return but one at the very end stands before a line feed.
pub open spec fn no_lone_return(s: Seq<char>) -> bool {
    forall|i: int, next: int|
        #![trigger s[i], s[next]]
        0 <= i && next == i + 1 && next < s.len() && s[i] == '\r' ==> s[next] == '\n'
}

proof fn lemma_one_more_line(s: Seq<char>, piece: Seq<char>)
    requires
        piece.len() > 0,
        one_line(piece),
        with_endings(s).len() == 0 || with_endings(s).last().last() == '\n',
    ensures
        with_endings(s + piece) == with_endings(s).push(piece),
    decreases piece.len(),
{
    let rest = piece.drop_last();
    let done = with_endings(s);
    assert((s + piece).drop_last() =~= s + rest);
    assert((s + piece).last() == piece.last());
    if rest.len() == 0 {
        assert(s + rest =~= s);
        assert(seq![piece.last()] =~= piece);
    } else {
        assert forall|j: int| 0 <= j < rest.len() - 1 implies #[trigger] rest[j] != '\n' by {
            assert(piece[j] == rest[j]);
        }
        lemma_one_more_line(s, rest);
        assert(rest.last() == piece[rest.len() - 1]);
        assert(done.push(rest).drop_last() =~= done);
        assert(rest.push(piece.last()) =~= piece);
    }
}

/// Lines put together are cut apart again.
pub proof fn law_lines_are_cut_apart_again(pieces: Seq<Seq<char>>)
    requires
        cut_at_line_ends(pieces),
        no_lone_return(joined_lines(pieces)),
    ensures
        with_endings(joined_lines(pieces)) == pieces,
    decreases pieces.len(),
{
    let whole = joined_lines(pieces);
    if pieces.len() == 0 {
        assert(with_endings(whole) =~= pieces);
    } else {
        let init = pieces.drop_last();
        let head = joined_lines(init);
        let last = pieces.last();
        assert forall|k: int| 0 <= k < init.len() implies (#[trigger] init[k]).len() > 0
            && one_line(init[k]) by {
            assert(init[k] == pieces[k]);
        }
        assert forall|k: int| 0 <= k < init.len() - 1 implies #[trigger] ended(
            init[k],
            init[k + 1][0],
        ) by {
            assert(ended(pieces[k], pieces[k + 1][0]));
        }
        assert(cut_at_line_ends(init));
        assert forall|i: int, next: int|
            #![trigger head[i], head[next]]
            0 <= i && next == i + 1 && next < head.len() && head[i] == '\r' implies head[next]
            == '\n' by {
            assert(whole[i] == head[i] && whole[next] == head[next]);
        }
        law_lines_are_cut_apart_again(init);
        assert(last == pieces[pieces.len() - 1]);
        if init.len() > 0 {
            let k = init.len() - 1;
            assert(init.last() == pieces[k]);
            assert(ended(pieces[k], pieces[k + 1][0]));
            assert(head.last() == init.last().last());
            assert(whole[head.len() - 1] == head.last());
            assert(whole[head.len() as int] == last[0]);
        }
        lemma_one_more_line(head, last);
        assert(init.push(last) =~= pieces);
    }
}

/// A line without what ends it: a line feed, and a carriage return before one.
pub open spec fn bare(line: Seq<char>) -> Seq<char> {
    if line.len() > 0 && line.last() == '\n' {
        chop_cr(line.drop_last())
    } else {
        line
    }
}

proof fn lemma_endings_of_pieces(s: Seq<char>)
    ensures
        ({
            let p = split(s, '\n');
            let ended = p.drop_last().map_values(|l: Seq<char>| l.push('\n'));
            with_endings(s) == if p.last().len() == 0 {
                ended
            } else {
                ended.push(p.last())
            }
        }),
    decreases s.len(),
{
    let p = split(s, '\n');
    let ended = p.drop_last().map_values(|l: Seq<char>| l.push('\n'));
    let want = if p.last().len() == 0 {
        ended
    } else {
        ended.push(p.last())
    };
    if s.len() == 0 {
        assert(with_endings(s) =~= want);
    } else {
        let t = s.drop_last();
        let q = split(t, '\n');
        let done = q.drop_last().map_values(|l: Seq<char>| l.push('\n'));
        lemma_endings_of_pieces(t);
        law_joining_undoes_splitting(t, '\n');
        let before = with_endings(t);
        let open = q.last();
        assert(!q[q.len() - 1].contains('\n'));
        if open.len() == 0 {
            if before.len() > 0 {
                assert(before.last() == q[before.len() - 1].push('\n'));
            }
            assert(open.push(s.last()) =~= seq![s.last()]);
        } else {
            assert(open[open.len() - 1] == open.last());
            assert(open.contains(open.last()));
            assert(before.drop_last() =~= done);
        }
        if s.last() == '\n' {
            assert(p.drop_last() =~= q);
            assert(q.map_values(|l: Seq<char>| l.push('\n')) =~= done.push(open.push('\n')));
        } else {
            assert(p.drop_last() =~= q.drop_last());
            assert(p.last() == open.push(s.last()));
        }
        assert(with_endings(s) =~= want);
    }
}

/// The lines of a text are its pieces behind each line feed, without what ends them.
pub proof fn law_lines_and_endings_agree(s: Seq<char>)
    ensures
        lines(s) == with_endings(s).map_values(|l: Seq<char>| bare(l)),
{
    let p = split(s, '\n');
    let ended = p.drop_last().map_values(|l: Seq<char>| l.push('\n'));
    let e = with_endings(s);
    lemma_endings_of_pieces(s);
    law_joining_undoes_splitting(s, '\n');
    assert forall|k: int| 0 <= k < e.len() implies bare(#[trigger] e[k]) == lines(s)[k] by {
        if k < ended.len() {
            assert(e[k] == p[k].push('\n'));
            assert(p[k].push('\n').drop_last() =~= p[k]);
        } else {
            let last = p.last();
            assert(!p[p.len() - 1].contains('\n'));
            assert(last[last.len() - 1] == last.last());
            assert(last.contains(last.last()));
        }
    }
    assert(lines(s) =~= e.map_values(|l: Seq<char>| bare(l)));
}

// ---- the changes of two texts ----------------------------------------------

/// The changes lead from the lines `old` to the lines `new`: they go through
/// both in order, and what is unchanged is the same line on both sides.
pub open spec fn leads_over(c: Seq<LineChange>, old: Seq<Seq<char>>, new: Seq<Seq<char>>) -> bool {
    &&& in_step(c)
    &&& lines_before(c, ChangeTag::Insert, c.len() as int) == old.len()
    &&& lines_before(c, ChangeTag::Delete, c.len() as int) == new.len()
    &&& forall|i: int|
        0 <= i < c.len() && (#[trigger] c[i]).tag == ChangeTag::Equal
            ==> old[c[i].old_index->0 as int] == new[c[i].new_index->0 as int]
}

proof fn lemma_side(c: Seq<LineChange>, texts: Seq<Seq<char>>, other: ChangeTag, n: int)
    requires
        0 <= n <= c.len(),
        texts.len() == c.len(),
    ensures
        ({
            let w = with_texts(c, texts);
            let p = side_pieces(w, other, n);
            &&& joined_lines(p) == side_text(w, other, n)
            &&& p.len() == lines_before(c, other, n)
            &&& forall|i: int|
                0 <= i < n && (#[trigger] c[i]).tag != other ==> lines_before(c, other, i) < p.len()
                    && p[lines_before(c, other, i) as int] == texts[i]
        }),
    decreases n,
{
    if n > 0 {
        lemma_side(c, texts, other, n - 1);
        let w = with_texts(c, texts);
        let before = side_pieces(w, other, n - 1);
        let p = side_pieces(w, other, n);
        if c[n - 1].tag != other {
            assert(p.drop_last() =~= before);
        }
    }
}

/// What was found between two texts leads from the lines of the one to the
/// lines of the other.
pub proof fn law_a_diff_leads_over(c: Seq<LineChange>, old_text: Seq<char>, new_text: Seq<char>)
    requires
        in_step(c),
        rebuilds_lines(c, old_text, new_text),
        no_lone_return(old_text),
        no_lone_return(new_text),
    ensures
        leads_over(c, with_endings(old_text), with_endings(new_text)),
{
    let texts = choose|texts: Seq<Seq<char>>|
        texts.len() == c.len() && line_by_line(#[trigger] with_texts(c, texts), old_text, new_text);
    let n = c.len() as int;
    let w = with_texts(c, texts);
    lemma_side(c, texts, ChangeTag::Insert, n);
    lemma_side(c, texts, ChangeTag::Delete, n);
    law_lines_are_cut_apart_again(side_pieces(w, ChangeTag::Insert, n));
    law_lines_are_cut_apart_again(side_pieces(w, ChangeTag::Delete, n));
    assert forall|i: int| 0 <= i < c.len() && (#[trigger] c[i]).tag == ChangeTag::Equal implies
        with_endings(old_text)[c[i].old_index->0 as int] == with_endings(
        new_text,
    )[c[i].new_index->0 as int] by {
        assert(c[i].old_index->0 == lines_before(c, ChangeTag::Insert, i));
        assert(c[i].new_index->0 == lines_before(c, ChangeTag::Delete, i));
    }
}

// ---- the numbers -----------------------------------------------------------

/// The numbers on the old side of the lines that have one, in order.
pub open spec fn old_numbers(ls: Seq<DiffLineView>) -> Seq<u32>
    decreases ls.len(),
{
    if ls.len() == 0 {
        Seq::empty()
    } else {
        match ls.last().old_no {
            Some(n) => old_numbers(ls.drop_last()).push(n),
            None => old_numbers(ls.drop_last()),
        }
    }
}

/// The numbers on the new side of the lines that have one, in order.
pub open spec fn new_numbers(ls: Seq<DiffLineView>) -> Seq<u32>
    decreases ls.len(),
{
    if ls.len() == 0 {
        Seq::empty()
    } else {
        match ls.last().new_no {
            Some(n) => new_numbers(ls.drop_last()).push(n),
            None => new_numbers(ls.drop_last()),
        }
    }
}

/// One, two, and so on up to `n`.
pub open spec fn counts_up_to(numbers: Seq<u32>, n: nat) -> bool {
    &&& numbers.len() == n
    &&& forall|k: int| 0 <= k < n ==> #[trigger] numbers[k] == k + 1
}

/// A line has the runs of the one whose number it has; with both numbers it is
/// the same line in both texts.
pub open spec fn stands_for_one(
    l: DiffLineView,
    old: Seq<Seq<char>>,
    new: Seq<Seq<char>>,
    old_runs: Seq<Seq<RunView>>,
    new_runs: Seq<Seq<RunView>>,
) -> bool {
    match (l.old_no, l.new_no) {
        (Some(n), Some(m)) => {
            &&& 1 <= n <= old.len()
            &&& 1 <= m <= new.len()
            &&& old[n - 1] == new[m - 1]
            &&& l.runs == new_runs[m - 1]
        },
        (Some(n), None) => 1 <= n <= old.len() && l.runs == old_runs[n - 1],
        (None, Some(m)) => 1 <= m <= new.len() && l.runs == new_runs[m - 1],
        (None, None) => false,
    }
}

/// The lines stand for all lines of `old` and `new`: each side is counted up
/// from one to its last line, and each line is the one whose number it has.
pub open spec fn stands_for(
    ls: Seq<DiffLineView>,
    old: Seq<Seq<char>>,
    new: Seq<Seq<char>>,
    old_runs: Seq<Seq<RunView>>,
    new_runs: Seq<Seq<RunView>>,
) -> bool {
    &&& counts_up_to(old_numbers(ls), old.len())
    &&& counts_up_to(new_numbers(ls), new.len())
    &&& forall|i: int|
        0 <= i < ls.len() ==> stands_for_one(#[trigger] ls[i], old, new, old_runs, new_runs)
}

/// `b` differs from `a` in emphasis alone.
pub open spec fn same_lines(a: Seq<DiffLineView>, b: Seq<DiffLineView>) -> bool {
    &&& a.len() == b.len()
    &&& forall|i: int|
        0 <= i < a.len() ==> (#[trigger] a[i]).old_no == b[i].old_no && a[i].new_no == b[i].new_no
            && a[i].runs == b[i].runs
}

proof fn lemma_pairing_keeps_lines(
    ls: Seq<DiffLineView>,
    d: int,
    d_end: int,
    p: int,
    end: int,
)
    requires
        0 <= d <= d_end <= p <= end <= ls.len(),
    ensures
        same_lines(ls, pair_block(ls, d, d_end, p, end)),
    decreases d_end - d,
{
    if d < d_end {
        let h = first_homolog(ls, d, p, end);
        lemma_first_homolog(ls, d, p, end);
        if h < end {
            let next = paired(ls, d, h);
            lemma_pairing_keeps_lines(next, d + 1, d_end, h + 1, end);
            let got = pair_block(next, d + 1, d_end, h + 1, end);
            assert forall|i: int| 0 <= i < ls.len() implies (#[trigger] ls[i]).old_no
                == got[i].old_no && ls[i].new_no == got[i].new_no && ls[i].runs == got[i].runs by {
                assert(next[i].old_no == got[i].old_no);
            }
        } else {
            lemma_pairing_keeps_lines(ls, d + 1, d_end, p, end);
        }
    }
}

/// Emphasis changes neither the numbers of a line nor its runs.
pub proof fn law_emphasis_keeps_the_lines(ls: Seq<DiffLineView>, i: int)
    requires
        0 <= i,
    ensures
        same_lines(ls, emphasized(ls, i)),
    decreases ls.len() - i,
{
    if i < ls.len() {
        let mid = run_end(ls, i, true);
        lemma_run_end(ls, i, true);
        let end = run_end(ls, mid, false);
        lemma_run_end(ls, mid, false);
        let next = pair_block(ls, i, mid, mid, end);
        lemma_pair_block_len(ls, i, mid, mid, end);
        lemma_pairing_keeps_lines(ls, i, mid, mid, end);
        let from = if end == i {
            i + 1
        } else {
            end
        };
        law_emphasis_keeps_the_lines(next, from);
        let got = emphasized(next, from);
        assert forall|k: int| 0 <= k < ls.len() implies (#[trigger] ls[k]).old_no == got[k].old_no
            && ls[k].new_no == got[k].new_no && ls[k].runs == got[k].runs by {
            assert(next[k].old_no == got[k].old_no);
        }
    }
}

proof fn lemma_same_numbers(a: Seq<DiffLineView>, b: Seq<DiffLineView>)
    requires
        same_lines(a, b),
    ensures
        old_numbers(a) == old_numbers(b),
        new_numbers(a) == new_numbers(b),
    decreases a.len(),
{
    if a.len() > 0 {
        let x = a.drop_last();
        let y = b.drop_last();
        assert forall|i: int| 0 <= i < x.len() implies (#[trigger] x[i]).old_no == y[i].old_no
            && x[i].new_no == y[i].new_no && x[i].runs == y[i].runs by {
            assert(x[i] == a[i] && y[i] == b[i]);
        }
        lemma_same_numbers(x, y);
        assert(a[a.len() - 1].old_no == b[b.len() - 1].old_no);
    }
}

proof fn lemma_before_mono(c: Seq<LineChange>, other: ChangeTag, i: int, n: int)
    requires
        0 <= i <= n <= c.len(),
    ensures
        lines_before(c, other, i) <= lines_before(c, other, n),
        i < n && c[i].tag != other ==> lines_before(c, other, i) < lines_before(c, other, n),
    decreases n - i,
{
    if i < n {
        lemma_before_mono(c, other, i + 1, n);
    }
}

proof fn lemma_numbers_count(
    c: Seq<LineChange>,
    old_runs: Seq<Seq<RunView>>,
    new_runs: Seq<Seq<RunView>>,
    n: int,
)
    requires
        in_step(c),
        0 <= n <= c.len(),
        lines_before(c, ChangeTag::Insert, n) <= u32::MAX,
        lines_before(c, ChangeTag::Delete, n) <= u32::MAX,
    ensures
        ({
            let ls = changed_lines(c, old_runs, new_runs).take(n);
            &&& counts_up_to(old_numbers(ls), lines_before(c, ChangeTag::Insert, n))
            &&& counts_up_to(new_numbers(ls), lines_before(c, ChangeTag::Delete, n))
        }),
    decreases n,
{
    let all = changed_lines(c, old_runs, new_runs);
    let ls = all.take(n);
    if n > 0 {
        lemma_numbers_count(c, old_runs, new_runs, n - 1);
        assert(ls.drop_last() =~= all.take(n - 1));
        assert(ls.last() == changed_line(c[n - 1], old_runs, new_runs));
    }
}

proof fn lemma_line_no(i: usize)
    requires
        i < u32::MAX,
    ensures
        line_no(i) == i + 1,
{
}

/// The indices of a change are those of lines, and of equal ones where nothing
/// was changed.
spec fn on_lines(c: LineChange, old: Seq<Seq<char>>, new: Seq<Seq<char>>) -> bool {
    &&& c.tag != ChangeTag::Insert ==> c.old_index is Some && c.old_index->0 < old.len()
    &&& c.tag != ChangeTag::Delete ==> c.new_index is Some && c.new_index->0 < new.len()
    &&& c.tag == ChangeTag::Equal ==> old[c.old_index->0 as int] == new[c.new_index->0 as int]
}

proof fn lemma_on_lines(c: Seq<LineChange>, old: Seq<Seq<char>>, new: Seq<Seq<char>>, i: int)
    requires
        leads_over(c, old, new),
        0 <= i < c.len(),
    ensures
        on_lines(c[i], old, new),
{
    lemma_before_mono(c, ChangeTag::Insert, i, c.len() as int);
    lemma_before_mono(c, ChangeTag::Delete, i, c.len() as int);
}

proof fn lemma_change_stands(
    c: LineChange,
    old: Seq<Seq<char>>,
    new: Seq<Seq<char>>,
    old_runs: Seq<Seq<RunView>>,
    new_runs: Seq<Seq<RunView>>,
)
    requires
        on_lines(c, old, new),
        old.len() <= u32::MAX,
        new.len() <= u32::MAX,
        old_runs.len() == old.len(),
        new_runs.len() == new.len(),
    ensures
        stands_for_one(changed_line(c, old_runs, new_runs), old, new, old_runs, new_runs),
{
    if c.tag != ChangeTag::Insert {
        lemma_line_no(c.old_index->0);
    }
    if c.tag != ChangeTag::Delete {
        lemma_line_no(c.new_index->0);
    }
}

proof fn lemma_each_stands(
    changes: Seq<LineChange>,
    old: Seq<Seq<char>>,
    new: Seq<Seq<char>>,
    old_runs: Seq<Seq<RunView>>,
    new_runs: Seq<Seq<RunView>>,
    ls: Seq<DiffLineView>,
)
    requires
        forall|i: int| 0 <= i < changes.len() ==> on_lines(#[trigger] changes[i], old, new),
        old.len() <= u32::MAX,
        new.len() <= u32::MAX,
        old_runs.len() == old.len(),
        new_runs.len() == new.len(),
        same_lines(changed_lines(changes, old_runs, new_runs), ls),
    ensures
        forall|i: int|
            0 <= i < ls.len() ==> stands_for_one(#[trigger] ls[i], old, new, old_runs, new_runs),
{
    let plain = changed_lines(changes, old_runs, new_runs);
    assert forall|i: int| 0 <= i < ls.len() implies stands_for_one(
        #[trigger] ls[i],
        old,
        new,
        old_runs,
        new_runs,
    ) by {
        lemma_change_stands(changes[i], old, new, old_runs, new_runs);
        assert(plain[i] == changed_line(changes[i], old_runs, new_runs));
        assert(plain[i].old_no == ls[i].old_no);
    }
}

/// The rows of a diff stand for every line of both texts, folds opened: the old
/// numbers run from one to the last old line without a gap or a repetition,
/// the new numbers to the last new line, and each row has the runs of the line
/// whose number it has. Texts have fewer lines than numbers go.
pub proof fn law_rows_stand_for_all_lines(
    changes: Seq<LineChange>,
    old: Seq<Seq<char>>,
    new: Seq<Seq<char>>,
    old_runs: Seq<Seq<RunView>>,
    new_runs: Seq<Seq<RunView>>,
    theme: Theme,
    margin: nat,
)
    requires
        leads_over(changes, old, new),
        old.len() <= u32::MAX,
        new.len() <= u32::MAX,
        old_runs.len() == old.len(),
        new_runs.len() == new.len(),
    ensures
        stands_for(
            flat(document(changes, old_runs, new_runs, theme, margin).rows),
            old,
            new,
            old_runs,
            new_runs,
        ),
{
    let n = changes.len() as int;
    let plain = changed_lines(changes, old_runs, new_runs);
    let ls = emphasized(plain, 0);
    law_folding_keeps_every_line(ls, margin);
    law_emphasis_keeps_the_lines(plain, 0);
    lemma_same_numbers(plain, ls);
    lemma_numbers_count(changes, old_runs, new_runs, n);
    assert(plain.take(n) =~= plain);
    assert forall|i: int| 0 <= i < changes.len() implies on_lines(
        #[trigger] changes[i],
        old,
        new,
    ) by {
        lemma_on_lines(changes, old, new, i);
    }
    lemma_each_stands(changes, old, new, old_runs, new_runs, ls);
}

// ---- the texts -------------------------------------------------------------

proof fn lemma_runs_joined(runs: Seq<RunView>, n: int)
    requires
        0 <= n <= runs.len(),
    ensures
        runs_text(runs.take(n)) == joined_runs(runs, n),
    decreases n,
{
    if n > 0 {
        lemma_runs_joined(runs, n - 1);
        assert(runs.take(n).drop_last() =~= runs.take(n - 1));
    }
}

/// The text of a line's runs: it begins the line, and is the line without what
/// ends it where nothing was coloured.
pub open spec fn shows_line(
    runs: Seq<RunView>,
    line: Seq<char>,
    tokens: Option<Seq<Option<Seq<(Seq<char>, Rgb)>>>>,
) -> bool {
    &&& runs_text(runs).is_prefix_of(trim_feeds(line))
    &&& tokens is None ==> runs_text(runs) == bare(line)
}

proof fn lemma_bare_is_a_beginning(line: Seq<char>)
    requires
        one_line(line),
    ensures
        bare(line).is_prefix_of(trim_feeds(line)),
{
    if line.len() > 0 && line.last() == '\n' {
        let t = line.drop_last();
        if t.len() > 0 {
            assert(t.last() == line[line.len() - 2]);
        }
        assert(trim_feeds(line) == trim_feeds(t));
        assert(trim_feeds(t) == t);
    }
}

proof fn lemma_colored_shows(
    content: Seq<char>,
    tokens: Option<Seq<Option<Seq<(Seq<char>, Rgb)>>>>,
    fg: Rgb,
    k: int,
)
    requires
        tokens is Some ==> starts_lines(tokens->0, with_endings(content)),
        0 <= k < with_endings(content).len(),
    ensures
        shows_line(colored(content, tokens, fg)[k], with_endings(content)[k], tokens),
{
    let runs = colored(content, tokens, fg)[k];
    let line = with_endings(content)[k];
    assert(runs.take(runs.len() as int) =~= runs);
    lemma_runs_joined(runs, runs.len() as int);
    if tokens is Some {
        law_highlighting_adds_no_text(content, tokens->0, fg, k);
    } else {
        law_lines_and_endings_agree(content);
        assert(runs == plain_lines(content, fg)[k]);
        assert(joined_runs(runs, 0) =~= Seq::<char>::empty());
        assert(joined_runs(runs, 1) =~= bare(line));
        lemma_endings_are_lines(content, k);
        lemma_bare_is_a_beginning(line);
    }
}

/// Each side has one line of runs per line of text.
pub proof fn law_every_line_is_colored(
    content: Seq<char>,
    tokens: Option<Seq<Option<Seq<(Seq<char>, Rgb)>>>>,
    fg: Rgb,
)
    ensures
        colored(content, tokens, fg).len() == with_endings(content).len(),
{
    law_lines_and_endings_agree(content);
}

/// A highlighted text has one line of runs per line of text.
pub proof fn law_every_line_is_highlighted(
    theme: Embedded,
    content: Seq<char>,
    extension: Option<Seq<char>>,
)
    ensures
        highlighted(theme, content, extension).len() == with_endings(content).len(),
{
    let fg = fallback_fg(embedded_foreground(theme));
    law_every_line_is_colored(content, None, fg);
    if extension is Some {
        law_every_line_is_colored(
            content,
            token_runs(theme, extension->0, with_endings(content)),
            fg,
        );
    }
}

/// A row with an old number shows that line of the old text, and a row with a
/// new number that line of the new text.
pub proof fn law_rows_show_their_lines(
    ls: Seq<DiffLineView>,
    old_text: Seq<char>,
    new_text: Seq<char>,
    old_tokens: Option<Seq<Option<Seq<(Seq<char>, Rgb)>>>>,
    new_tokens: Option<Seq<Option<Seq<(Seq<char>, Rgb)>>>>,
    fg: Rgb,
    i: int,
)
    requires
        0 <= i < ls.len(),
        old_tokens is Some ==> starts_lines(old_tokens->0, with_endings(old_text)),
        new_tokens is Some ==> starts_lines(new_tokens->0, with_endings(new_text)),
        old_tokens is Some <==> new_tokens is Some,
        stands_for(
            ls,
            with_endings(old_text),
            with_endings(new_text),
            colored(old_text, old_tokens, fg),
            colored(new_text, new_tokens, fg),
        ),
    ensures
        ls[i].old_no matches Some(n) ==> shows_line(
            ls[i].runs,
            with_endings(old_text)[n - 1],
            old_tokens,
        ),
        ls[i].new_no matches Some(m) ==> shows_line(
            ls[i].runs,
            with_endings(new_text)[m - 1],
            new_tokens,
        ),
{
    let l = ls[i];
    assert(stands_for_one(
        l,
        with_endings(old_text),
        with_endings(new_text),
        colored(old_text, old_tokens, fg),
        colored(new_text, new_tokens, fg),
    ));
    if l.new_no is Some {
        lemma_colored_shows(new_text, new_tokens, fg, l.new_no->0 - 1);
    } else {
        lemma_colored_shows(old_text, old_tokens, fg, l.old_no->0 - 1);
    }
}

// ---- what is drawn ---------------------------------------------------------

proof fn lemma_painted_text(runs: Seq<RunView>, bg: Option<Rgb>)
    ensures
        spans_text(painted(runs, bg)) == runs_text(runs),
    decreases runs.len(),
{
    if runs.len() > 0 {
        assert(painted(runs, bg).drop_last() =~= painted(runs.drop_last(), bg));
        lemma_painted_text(runs.drop_last(), bg);
    }
}

proof fn lemma_one_span(sp: SpanView)
    ensures
        spans_text(seq![sp]) == sp.text,
{
    assert(seq![sp].drop_last() =~= Seq::<SpanView>::empty());
    assert(spans_text(seq![sp].drop_last()) =~= Seq::<char>::empty());
    assert(spans_text(seq![sp]) =~= sp.text);
}

/// A number takes four columns, or as many as it has digits, and stands at the
/// right end of them behind blanks.
pub proof fn law_numbers_stand_to_the_right(n: u32)
    ensures
        pad4(n).len() == if dec(n as nat).len() < 4 {
            4
        } else {
            dec(n as nat).len()
        },
        pad4(n).skip(pad4(n).len() - dec(n as nat).len()) == dec(n as nat),
        forall|k: int| 0 <= k < pad4(n).len() - dec(n as nat).len() ==> #[trigger] pad4(n)[k] == ' ',
{
    let d = dec(n as nat);
    assert(pad4(n).skip(pad4(n).len() - d.len()) =~= d);
}

/// The text of a drawn line is its numbers, its marker and its content: both
/// numbers of an unchanged line, the old one and a minus sign of a deleted line,
/// the new one and a plus sign of an inserted line.
pub proof fn law_a_drawn_line_shows_its_numbers(l: DiffLineView, theme: Theme)
    ensures
        ({
            let text = line_text(diff_line(l, palette(theme)));
            match (l.old_no, l.new_no) {
                (Some(n), Some(m)) => text == pad4(n) + " "@ + pad4(m) + "   "@ + l.text(),
                (Some(n), None) => text == pad4(n) + "     - "@ + l.text(),
                (None, Some(m)) => text == "     "@ + pad4(m) + "+ "@ + l.text(),
                (None, None) => text.len() == 0,
            }
        }),
{
    let p = palette(theme);
    reveal_strlit("     ");
    reveal_strlit("- ");
    reveal_strlit("     - ");
    let drawn = diff_line(l, p);
    lemma_painted_text(l.runs, None);
    lemma_painted_text(l.runs, Some(p.del_bg));
    lemma_painted_text(l.runs, Some(p.ins_bg));
    match (l.old_no, l.new_no) {
        (Some(n), Some(m)) => {
            let head = drawn.spans[0];
            lemma_one_span(head);
            lemma_spans_text_concat(seq![head], painted(l.runs, None));
        },
        (Some(n), None) => {
            let line = tinted(pad4(n) + "     "@, "- "@, Color::Red, l.runs, p.del_bg, p);
            lemma_tinted_text(pad4(n) + "     "@, "- "@, Color::Red, l.runs, p.del_bg, p);
            law_emphasis_keeps_the_text(line, l.emphasis, p.del_emph_bg);
            assert(line_text(line) =~= pad4(n) + "     - "@ + l.text());
        },
        (None, Some(m)) => {
            let line = tinted("     "@ + pad4(m), "+ "@, Color::Green, l.runs, p.ins_bg, p);
            lemma_tinted_text("     "@ + pad4(m), "+ "@, Color::Green, l.runs, p.ins_bg, p);
            law_emphasis_keeps_the_text(line, l.emphasis, p.ins_emph_bg);
        },
        (None, None) => {},
    }
}

proof fn lemma_tinted_text(
    gutter: Seq<char>,
    marker: Seq<char>,
    color: Color,
    runs: Seq<RunView>,
    bg: Rgb,
    p: Palette,
)
    ensures
        line_text(tinted(gutter, marker, color, runs, bg, p)) == gutter + marker + runs_text(runs),
{
    let spans = tinted(gutter, marker, color, runs, bg, p).spans;
    let head = seq![spans[0], spans[1]];
    lemma_painted_text(runs, Some(bg));
    assert(spans =~= head + painted(runs, Some(bg)));
    lemma_spans_text_concat(head, painted(runs, Some(bg)));
    assert(head.drop_last() =~= seq![spans[0]]);
    lemma_one_span(spans[0]);
    assert(spans_text(head) == gutter + marker);
}

/// The line to jump to is the first inserted one, and there is none where
/// nothing was inserted.
pub proof fn law_the_jump_goes_to_the_first_insertion(ls: Seq<DiffLineView>, i: int)
    requires
        0 <= i <= ls.len(),
    ensures
        first_insertion(ls, i) is None <==> forall|k: int|
            i <= k < ls.len() ==> !(#[trigger] ls[k]).is_insertion(),
        first_insertion(ls, i) is Some ==> exists|k: int|
            i <= k < ls.len() && (#[trigger] ls[k]).is_insertion() && ls[k].new_no
                == first_insertion(ls, i) && forall|j: int|
                i <= j < k ==> !(#[trigger] ls[j]).is_insertion(),
    decreases ls.len() - i,
{
    if i < ls.len() && !ls[i].is_insertion() {
        law_the_jump_goes_to_the_first_insertion(ls, i + 1);
        if first_insertion(ls, i) is Some {
            let k = choose|k: int|
                i + 1 <= k < ls.len() && (#[trigger] ls[k]).is_insertion() && ls[k].new_no
                    == first_insertion(ls, i + 1) && forall|j: int|
                    i + 1 <= j < k ==> !(#[trigger] ls[j]).is_insertion();
            assert(ls[k].is_insertion());
        }
    } else if i < ls.len() {
        assert(ls[i].is_insertion());
    }
}

/// A line of the new text is found where its number is drawn, and not found
/// where no drawn line has it.
pub proof fn law_a_new_line_is_found_by_its_number(doc: DocView, n: u32, i: int)
    requires
        0 <= i <= doc.rows.len(),
    ensures
        match doc.line_of_new(n, i) {
            Some(k) => i <= k < doc.rows.len() && (doc.rows[k] matches RowView::Line(l)
                && l.new_no == Some(n)),
            None => forall|k: int|
                i <= k < doc.rows.len() ==> !(#[trigger] doc.rows[k] matches RowView::Line(l)
                    && l.new_no == Some(n)),
        },
    decreases doc.rows.len() - i,
{
    if i < doc.rows.len() && !doc.shows_new(i, n) {
        law_a_new_line_is_found_by_its_number(doc, n, i + 1);
    }
}

// ---- what is emphasized --------------------------------------------------------

/// The style of character `p` of the spans' text.
pub open spec fn style_at(spans: Seq<SpanView>, p: int) -> Style
    decreases spans.len(),
{
    if spans.len() == 0 {
        plain()
    } else if p >= spans_text(spans.drop_last()).len() {
        spans.last().style
    } else {
        style_at(spans.drop_last(), p)
    }
}

proof fn lemma_style_concat(a: Seq<SpanView>, b: Seq<SpanView>, p: int)
    requires
        0 <= p < spans_text(a + b).len(),
    ensures
        style_at(a + b, p) == if p < spans_text(a).len() {
            style_at(a, p)
        } else {
            style_at(b, p - spans_text(a).len())
        },
    decreases b.len(),
{
    if b.len() == 0 {
        assert(a + b =~= a);
    } else {
        let init = b.drop_last();
        assert((a + b).drop_last() =~= a + init);
        assert((a + b).last() == b.last());
        lemma_spans_text_concat(a, init);
        lemma_spans_text_concat(a, b);
        if p < spans_text(a + init).len() {
            lemma_style_concat(a, init, p);
        }
    }
}

proof fn lemma_same_emphasis(
    ranges: Seq<(int, int)>,
    prefix: int,
    start: int,
    from: int,
    at: int,
    len: int,
    k: int,
)
    requires
        from < at <= len,
        forall|j: int|
            from <= j < at ==> #[trigger] emphatic(ranges, prefix, start + j) == emphatic(
                ranges,
                prefix,
                start + from,
            ),
        from <= k < emphasis_end(ranges, prefix, start, from, at, len),
    ensures
        emphatic(ranges, prefix, start + k) == emphatic(ranges, prefix, start + from),
    decreases len - at,
{
    if at < len && emphatic(ranges, prefix, start + at) == emphatic(ranges, prefix, start + from) {
        lemma_same_emphasis(ranges, prefix, start, from, at + 1, len, k);
    } else {
        assert(emphatic(ranges, prefix, start + k) == emphatic(ranges, prefix, start + from));
    }
}

/// The style that an emphasized character has, or any other.
spec fn emphasis_style(style: Style, on: bool, bg: Rgb) -> Style {
    if on {
        Style { bg: Some(rgb_color(bg)), ..style }
    } else {
        style
    }
}

proof fn lemma_split_style(
    sp: SpanView,
    ranges: Seq<(int, int)>,
    prefix: int,
    start: int,
    from: int,
    bg: Rgb,
    q: int,
)
    requires
        0 <= from,
        0 <= q,
        from + q < sp.text.len(),
    ensures
        style_at(split_span(sp, ranges, prefix, start, from, bg), q) == emphasis_style(
            sp.style,
            emphatic(ranges, prefix, start + from + q),
            bg,
        ),
    decreases sp.text.len() - from,
{
    let len = sp.text.len() as int;
    let end = emphasis_end(ranges, prefix, start, from, from + 1, len);
    lemma_emphasis_end(ranges, prefix, start, from, from + 1, len);
    let all = split_span(sp, ranges, prefix, start, from, bg);
    let rest = split_span(sp, ranges, prefix, start, end, bg);
    let first = seq![all[0]];
    assert(all =~= first + rest);
    lemma_one_span(all[0]);
    lemma_split_text(sp, ranges, prefix, start, from, bg);
    lemma_style_concat(first, rest, q);
    if from + q < end {
        lemma_same_emphasis(ranges, prefix, start, from, from + 1, len, from + q);
        assert(first.drop_last() =~= Seq::<SpanView>::empty());
        assert(spans_text(first.drop_last()).len() == 0);
    } else {
        lemma_split_style(sp, ranges, prefix, start, end, bg, from + q - end);
    }
}

proof fn lemma_repainted_style(
    spans: Seq<SpanView>,
    ranges: Seq<(int, int)>,
    prefix: int,
    bg: Rgb,
    n: int,
    p: int,
)
    requires
        0 <= n <= spans.len(),
        0 <= p < spans_text(spans.take(n)).len(),
    ensures
        style_at(repainted_spans(spans, ranges, prefix, bg, n), p) == emphasis_style(
            style_at(spans.take(n), p),
            emphatic(ranges, prefix, p),
            bg,
        ),
    decreases n,
{
    if n > 0 {
        let head = spans.take(n - 1);
        let sp = spans[n - 1];
        let start = spans_text(head).len() as int;
        let before = repainted_spans(spans, ranges, prefix, bg, n - 1);
        let cut = split_span(sp, ranges, prefix, start, 0, bg);
        assert(spans.take(n).drop_last() =~= head);
        assert(spans.take(n).last() == sp);
        lemma_repainted_text(spans, ranges, prefix, bg, n - 1);
        lemma_repainted_text(spans, ranges, prefix, bg, n);
        lemma_style_concat(before, cut, p);
        if p < start {
            lemma_repainted_style(spans, ranges, prefix, bg, n - 1, p);
        } else {
            lemma_split_style(sp, ranges, prefix, start, 0, bg, p - start);
        }
    }
}

proof fn lemma_painted_style(runs: Seq<RunView>, bg: Rgb, p: int)
    requires
        0 <= p < runs_text(runs).len(),
    ensures
        style_at(painted(runs, Some(bg)), p).bg == Some(rgb_color(bg)),
    decreases runs.len(),
{
    if runs.len() > 0 {
        let spans = painted(runs, Some(bg));
        assert(spans.drop_last() =~= painted(runs.drop_last(), Some(bg)));
        lemma_painted_text(runs.drop_last(), Some(bg));
        lemma_painted_text(runs, Some(bg));
        if p < runs_text(runs.drop_last()).len() {
            lemma_painted_style(runs.drop_last(), bg, p);
        } else {
            assert(spans.last() == painted(runs, Some(bg))[runs.len() - 1]);
        }
    }
}

proof fn lemma_changed_style(
    gutter: Seq<char>,
    marker: Seq<char>,
    color: Color,
    runs: Seq<RunView>,
    ranges: Seq<(int, int)>,
    bg: Rgb,
    emph: Rgb,
    p: Palette,
    k: int,
)
    requires
        gutter.len() + marker.len() == GUTTER_CHARS,
        0 <= k < runs_text(runs).len(),
    ensures
        ({
            let line = tinted(gutter, marker, color, runs, bg, p);
            let drawn = if ranges.len() > 0 {
                repainted(line, ranges, emph)
            } else {
                line
            };
            style_at(drawn.spans, GUTTER_CHARS + k).bg == Some(
                rgb_color(
                    if covered(ranges, k) {
                        emph
                    } else {
                        bg
                    },
                ),
            )
        }),
{
    let line = tinted(gutter, marker, color, runs, bg, p);
    let spans = line.spans;
    let at = GUTTER_CHARS + k;
    let head = seq![spans[0], spans[1]];
    lemma_tinted_text(gutter, marker, color, runs, bg, p);
    lemma_painted_text(runs, Some(bg));
    assert(spans =~= head + painted(runs, Some(bg)));
    assert(head.drop_last() =~= seq![spans[0]]);
    lemma_one_span(spans[0]);
    assert(spans_text(head) == gutter + marker);
    lemma_style_concat(head, painted(runs, Some(bg)), at);
    lemma_painted_style(runs, bg, k);
    if ranges.len() > 0 {
        let n = spans.len() as int;
        assert(spans.take(n) =~= spans);
        lemma_repainted_style(spans, ranges, GUTTER_CHARS as int, emph, n, at);
        assert(emphatic(ranges, GUTTER_CHARS as int, at) <==> covered(ranges, k)) by {
            if covered(ranges, k) {
                let i = choose|i: int|
                    0 <= i < ranges.len() && (#[trigger] ranges[i]).0 <= k < ranges[i].1;
                assert(ranges[i].0 <= at - GUTTER_CHARS < ranges[i].1);
            }
            if emphatic(ranges, GUTTER_CHARS as int, at) {
                let i = choose|i: int|
                    0 <= i < ranges.len() && (#[trigger] ranges[i]).0 <= at - GUTTER_CHARS
                        < ranges[i].1;
                assert(ranges[i].0 <= k < ranges[i].1);
            }
        }
    } else {
        assert(!covered(ranges, k));
    }
}

/// On a changed line, the characters that changed stand on the stronger
/// background and all others of the line on the weaker one: green where the line
/// was inserted, red where it was deleted. The content starts behind eleven
/// characters, as long as the number has no more than four digits.
pub proof fn law_changed_characters_stand_out(l: DiffLineView, theme: Theme, k: int)
    requires
        l.is_deletion() || l.is_insertion(),
        l.is_deletion() ==> dec(l.old_no->0 as nat).len() <= 4,
        l.is_insertion() ==> dec(l.new_no->0 as nat).len() <= 4,
        0 <= k < l.text().len(),
    ensures
        ({
            let p = palette(theme);
            let drawn = diff_line(l, p);
            &&& line_text(drawn)[11 + k] == l.text()[k]
            &&& style_at(drawn.spans, 11 + k).bg == Some(
                rgb_color(
                    match (l.is_insertion(), covered(l.emphasis, k)) {
                        (true, true) => p.ins_emph_bg,
                        (true, false) => p.ins_bg,
                        (false, true) => p.del_emph_bg,
                        (false, false) => p.del_bg,
                    },
                ),
            )
        }),
{
    let p = palette(theme);
    reveal_strlit("     ");
    reveal_strlit("     - ");
    reveal_strlit("- ");
    reveal_strlit("+ ");
    law_a_drawn_line_shows_its_numbers(l, theme);
    if l.is_deletion() {
        law_numbers_stand_to_the_right(l.old_no->0);
        let gutter = pad4(l.old_no->0) + "     "@;
        lemma_changed_style(
            gutter,
            "- "@,
            Color::Red,
            l.runs,
            l.emphasis,
            p.del_bg,
            p.del_emph_bg,
            p,
            k,
        );
    } else {
        law_numbers_stand_to_the_right(l.new_no->0);
        let gutter = "     "@ + pad4(l.new_no->0);
        lemma_changed_style(
            gutter,
            "+ "@,
            Color::Green,
            l.runs,
            l.emphasis,
            p.ins_bg,
            p.ins_emph_bg,
            p,
            k,
        );
    }
}

proof fn lemma_pairing_keeps_plain(
    ls: Seq<DiffLineView>,
    d: int,
    d_end: int,
    p: int,
    end: int,
    i: int,
)
    requires
        0 <= d <= d_end <= p <= end <= ls.len(),
        0 <= i < d || end <= i < ls.len(),
    ensures
        pair_block(ls, d, d_end, p, end)[i] == ls[i],
    decreases d_end - d,
{
    if d < d_end {
        let h = first_homolog(ls, d, p, end);
        lemma_first_homolog(ls, d, p, end);
        if h < end {
            lemma_pairing_keeps_plain(paired(ls, d, h), d + 1, d_end, h + 1, end, i);
        } else {
            lemma_pairing_keeps_plain(ls, d + 1, d_end, p, end, i);
        }
    }
}

/// Unchanged lines are never emphasized.
pub proof fn law_context_is_never_emphasized(ls: Seq<DiffLineView>, from: int, i: int)
    requires
        0 <= from,
        0 <= i < ls.len(),
        ls[i].is_context(),
    ensures
        emphasized(ls, from)[i] == ls[i],
    decreases ls.len() - from,
{
    if from < ls.len() {
        let mid = run_end(ls, from, true);
        lemma_run_end(ls, from, true);
        let end = run_end(ls, mid, false);
        lemma_run_end(ls, mid, false);
        lemma_pair_block_len(ls, from, mid, mid, end);
        if from <= i < end {
            if i < mid {
                assert(ls[i].is_deletion());
            } else {
                assert(ls[i].is_insertion());
            }
        } else {
            lemma_pairing_keeps_plain(ls, from, mid, mid, end, i);
        }
        law_context_is_never_emphasized(
            pair_block(ls, from, mid, mid, end),
            if end == from {
                from + 1
            } else {
                end
            },
            i,
        );
    }
}

} // verus!
