//! A small wrapping text area: the editing model behind the note composer.
//!
//! Pure state, the text and a caret, with a soft-wrap layout. The rows of
//! [`TextArea::layout`] partition the text: they cover it contiguously except
//! for the line feeds, which belong to no row. That makes the caret
//! unambiguous at a hard line end (it stays on that line), while a caret at a
//! soft wrap moves to the start of the next row.
use crate::text::{
    append, byte_len, char_len, chars_of, find_char, find_from, is_space, is_whitespace,
    lemma_byte_len_mono, lemma_strs_push, len_bytes, string_of, strs, trim_end, trimmed_end,
};
use crate::width::{
    cols, columns, exceeds, fit, fitting, lemma_fit, lemma_sum_cols_concat, str_columns, str_width,
    sum_cols,
};
use std::ops::Range;
use vstd::prelude::*;

verus! {

// ---- the soft-wrap model ---------------------------------------------------

/// Where wrapping one logical line stands after some of its characters: the
/// rows already ended, the row that is open, and the word that is open and may
/// still move to the next row as a unit.
pub struct Wrap {
    pub rows: Seq<(int, int)>,
    pub row_start: int,
    pub row_w: int,
    pub word_start: int,
    pub word_w: int,
}

/// Character `c` at position `i` is placed into rows of `width` columns.
pub open spec fn wrap_step(st: Wrap, i: int, c: char, width: int) -> Wrap {
    let cw = cols(c) as int;
    if is_space(c) {
        // White space ends the word. A space that no longer fits stays at the
        // end of this row rather than indenting the next one.
        if st.row_w + st.word_w + cw > width {
            Wrap {
                rows: st.rows.push((st.row_start, i + 1)),
                row_start: i + 1,
                row_w: 0,
                word_start: i + 1,
                word_w: 0,
            }
        } else {
            Wrap { row_w: st.row_w + st.word_w + cw, word_start: i + 1, word_w: 0, ..st }
        }
    } else if st.word_w + cw > width {
        // The word alone exceeds a row: it breaks here.
        Wrap {
            rows: st.rows.push((st.row_start, i)),
            row_start: i,
            row_w: 0,
            word_start: i,
            word_w: cw,
        }
    } else if st.row_w + st.word_w + cw > width {
        // The word does not fit behind what is on the row: it moves down.
        Wrap {
            rows: st.rows.push((st.row_start, st.word_start)),
            row_start: st.word_start,
            row_w: 0,
            word_w: st.word_w + cw,
            ..st
        }
    } else {
        Wrap { word_w: st.word_w + cw, ..st }
    }
}

/// The state after `s[from..to]`.
pub open spec fn wrap_upto(s: Seq<char>, from: int, to: int, width: int) -> Wrap
    decreases to - from,
{
    if to <= from {
        Wrap { rows: Seq::empty(), row_start: from, row_w: 0, word_start: from, word_w: 0 }
    } else {
        wrap_step(wrap_upto(s, from, to - 1, width), to - 1, s[to - 1], width)
    }
}

/// The rows of the logical line `s[from..to]`.
pub open spec fn wrap_rows(s: Seq<char>, from: int, to: int, width: int) -> Seq<(int, int)> {
    let st = wrap_upto(s, from, to, width);
    st.rows.push((st.row_start, to))
}

/// The rows of all logical lines from `from` on.
pub open spec fn layout_from(s: Seq<char>, from: int, width: int) -> Seq<(int, int)>
    decreases s.len() - from,
{
    let end = find_from(s, '\n', from);
    if from < 0 || end >= s.len() || end < from {
        wrap_rows(s, from, s.len() as int, width)
    } else {
        wrap_rows(s, from, end, width) + layout_from(s, end + 1, width)
    }
}

/// The rows of `s` at `width` columns (at least one), as character ranges.
pub open spec fn layout_rows(s: Seq<char>, width: nat) -> Seq<(int, int)> {
    layout_from(s, 0, if width == 0 { 1 } else { width as int })
}

/// `rows` cover `s[from..to]` without a gap.
pub open spec fn contiguous(rows: Seq<(int, int)>, from: int, to: int) -> bool {
    &&& rows.len() > 0
    &&& rows[0].0 == from
    &&& rows.last().1 == to
    &&& forall|k: int| 0 <= k < rows.len() ==> (#[trigger] rows[k]).0 <= rows[k].1
    &&& forall|k: int| 0 < k < rows.len() ==> (#[trigger] rows[k]).0 == rows[k - 1].1
}

/// `rows` cover `s[from..]` without a gap but for the line feeds: a row starts
/// where the one before it ends, or behind the line feed that ends it, and no
/// row holds a line feed.
pub open spec fn partition(s: Seq<char>, rows: Seq<(int, int)>, from: int) -> bool {
    &&& rows.len() > 0
    &&& rows[0].0 == from
    &&& rows.last().1 == s.len()
    &&& forall|k: int|
        0 <= k < rows.len() ==> from <= (#[trigger] rows[k]).0 <= rows[k].1 <= s.len()
    &&& forall|k: int|
        0 < k < rows.len() ==> {
            ||| (#[trigger] rows[k]).0 == rows[k - 1].1
            ||| rows[k].0 == rows[k - 1].1 + 1 && s[rows[k - 1].1] == '\n'
        }
    &&& forall|k: int, i: int|
        0 <= k < rows.len() && (#[trigger] rows[k]).0 <= i < rows[k].1 ==> #[trigger] s[i] != '\n'
}

proof fn lemma_wrap_shape(s: Seq<char>, from: int, to: int, width: int)
    requires
        0 <= from <= to <= s.len(),
    ensures
        ({
            let st = wrap_upto(s, from, to, width);
            &&& from <= st.row_start <= st.word_start <= to
            &&& st.rows.len() > 0 ==> contiguous(st.rows, from, st.row_start)
            &&& st.rows.len() == 0 ==> st.row_start == from
        }),
    decreases to - from,
{
    if from < to {
        lemma_wrap_shape(s, from, to - 1, width);
    }
}

proof fn lemma_wrap_rows_contiguous(s: Seq<char>, from: int, to: int, width: int)
    requires
        0 <= from <= to <= s.len(),
    ensures
        contiguous(wrap_rows(s, from, to, width), from, to),
{
    lemma_wrap_shape(s, from, to, width);
}

proof fn lemma_contiguous_bounds(rows: Seq<(int, int)>, from: int, to: int, k: int)
    requires
        contiguous(rows, from, to),
        0 <= k < rows.len(),
    ensures
        from <= rows[k].0,
        rows[k].1 <= to,
    decreases rows.len(),
{
    lemma_contiguous_low(rows, from, to, k);
    lemma_contiguous_high(rows, from, to, k);
}

proof fn lemma_contiguous_low(rows: Seq<(int, int)>, from: int, to: int, k: int)
    requires
        contiguous(rows, from, to),
        0 <= k < rows.len(),
    ensures
        from <= rows[k].0,
    decreases k,
{
    if k > 0 {
        lemma_contiguous_low(rows, from, to, k - 1);
    }
}

proof fn lemma_contiguous_high(rows: Seq<(int, int)>, from: int, to: int, k: int)
    requires
        contiguous(rows, from, to),
        0 <= k < rows.len(),
    ensures
        rows[k].1 <= to,
    decreases rows.len() - k,
{
    if k + 1 < rows.len() {
        lemma_contiguous_high(rows, from, to, k + 1);
        assert(rows[k + 1].0 == rows[k].1);
    }
}

proof fn lemma_find_from(s: Seq<char>, c: char, from: int)
    requires
        0 <= from <= s.len(),
    ensures
        from <= find_from(s, c, from) <= s.len(),
        find_from(s, c, from) < s.len() ==> s[find_from(s, c, from)] == c,
        forall|k: int| from <= k < find_from(s, c, from) ==> s[k] != c,
    decreases s.len() - from,
{
    if from < s.len() && s[from] != c {
        lemma_find_from(s, c, from + 1);
    }
}

proof fn lemma_layout_partition(s: Seq<char>, from: int, width: int)
    requires
        0 <= from <= s.len(),
    ensures
        partition(s, layout_from(s, from, width), from),
    decreases s.len() - from,
{
    lemma_find_from(s, '\n', from);
    let end = find_from(s, '\n', from);
    let here = wrap_rows(s, from, end, width);
    lemma_wrap_rows_contiguous(s, from, end, width);
    assert forall|k: int| 0 <= k < here.len() implies from <= (#[trigger] here[k]).0
        && here[k].1 <= end by {
        lemma_contiguous_bounds(here, from, end, k);
    }
    if end < s.len() {
        let rest = layout_from(s, end + 1, width);
        lemma_layout_partition(s, end + 1, width);
        let rows = here + rest;
        assert forall|k: int| 0 < k < rows.len() implies {
            ||| (#[trigger] rows[k]).0 == rows[k - 1].1
            ||| rows[k].0 == rows[k - 1].1 + 1 && s[rows[k - 1].1] == '\n'
        } by {
            if k < here.len() {
                assert(rows[k] == here[k] && rows[k - 1] == here[k - 1]);
            } else if k == here.len() {
                assert(rows[k] == rest[0] && rows[k - 1] == here.last());
            } else {
                assert(rows[k] == rest[k - here.len()] && rows[k - 1] == rest[k - 1 - here.len()]);
            }
        }
        assert forall|k: int, i: int|
            0 <= k < rows.len() && (#[trigger] rows[k]).0 <= i < rows[k].1 implies #[trigger] s[i]
            != '\n' by {
            if k < here.len() {
                assert(rows[k] == here[k]);
            } else {
                assert(rows[k] == rest[k - here.len()]);
            }
        }
        assert(rows.last() == rest.last());
    }
}

/// The rows of a layout partition the text: they cover it contiguously except
/// for the line feeds, which belong to no row, and there is at least one row.
pub proof fn law_rows_partition_the_text(s: Seq<char>, width: nat)
    ensures
        partition(s, layout_rows(s, width), 0),
{
    lemma_layout_partition(s, 0, if width == 0 { 1 } else { width as int });
}

// ---- no row is wider than the area -----------------------------------------

proof fn lemma_trim_end_prefix(s: Seq<char>)
    ensures
        trim_end(s).len() <= s.len(),
        sum_cols(trim_end(s)) <= sum_cols(s),
    decreases s.len(),
{
    if s.len() > 0 && is_space(s.last()) {
        lemma_trim_end_prefix(s.drop_last());
    }
}

proof fn lemma_sum_cols_split(s: Seq<char>, a: int, b: int, c: int)
    requires
        0 <= a <= b <= c <= s.len(),
    ensures
        sum_cols(s.subrange(a, c)) == sum_cols(s.subrange(a, b)) + sum_cols(s.subrange(b, c)),
{
    assert(s.subrange(a, c) =~= s.subrange(a, b) + s.subrange(b, c));
    lemma_sum_cols_concat(s.subrange(a, b), s.subrange(b, c));
}

proof fn lemma_sum_cols_next(s: Seq<char>, a: int, i: int)
    requires
        0 <= a <= i < s.len(),
    ensures
        sum_cols(s.subrange(a, i + 1)) == sum_cols(s.subrange(a, i)) + cols(s[i]),
{
    assert(s.subrange(a, i + 1).drop_last() =~= s.subrange(a, i));
}

/// Each row's text, without the white space at its end, takes at most `width` columns.
pub open spec fn rows_fit(s: Seq<char>, rows: Seq<(int, int)>, width: int) -> bool {
    forall|k: int|
        0 <= k < rows.len() ==> sum_cols(
            trim_end(s.subrange((#[trigger] rows[k]).0, rows[k].1)),
        ) <= width
}

proof fn lemma_wrap_fits(s: Seq<char>, from: int, to: int, width: int)
    requires
        0 <= from <= to <= s.len(),
        width >= 0,
        forall|i: int| from <= i < to ==> cols(#[trigger] s[i]) <= width,
    ensures
        ({
            let st = wrap_upto(s, from, to, width);
            &&& st.row_w == sum_cols(s.subrange(st.row_start, st.word_start))
            &&& st.word_w == sum_cols(s.subrange(st.word_start, to))
            &&& st.row_w + st.word_w <= width
            &&& rows_fit(s, st.rows, width)
        }),
    decreases to - from,
{
    lemma_wrap_shape(s, from, to, width);
    if from < to {
        let i = to - 1;
        lemma_wrap_fits(s, from, i, width);
        lemma_wrap_shape(s, from, i, width);
        let st = wrap_upto(s, from, i, width);
        let next = wrap_upto(s, from, to, width);
        let c = s[i];
        lemma_sum_cols_split(s, st.row_start, st.word_start, i);
        lemma_sum_cols_next(s, st.word_start, i);
        lemma_sum_cols_next(s, st.row_start, i);
        assert(s.subrange(to, to) =~= Seq::<char>::empty());
        assert(s.subrange(i, i) =~= Seq::<char>::empty());
        lemma_sum_cols_next(s, i, i);
        assert(s.subrange(st.word_start, st.word_start) =~= Seq::<char>::empty());
        lemma_trim_end_prefix(s.subrange(st.row_start, i));
        lemma_trim_end_prefix(s.subrange(st.row_start, st.word_start));
        if is_space(c) {
            let row = s.subrange(st.row_start, i + 1);
            assert(row.drop_last() =~= s.subrange(st.row_start, i));
            assert(row.last() == c);
            assert(trim_end(row) == trim_end(s.subrange(st.row_start, i)));
        }
        assert forall|k: int| 0 <= k < next.rows.len() implies sum_cols(
            trim_end(s.subrange((#[trigger] next.rows[k]).0, next.rows[k].1)),
        ) <= width by {
            if k < st.rows.len() {
                assert(next.rows[k] == st.rows[k]);
            }
        }
    } else {
        assert(s.subrange(from, from) =~= Seq::<char>::empty());
    }
}

proof fn lemma_layout_fits(s: Seq<char>, from: int, width: int)
    requires
        0 <= from <= s.len(),
        width >= 0,
        forall|i: int| 0 <= i < s.len() ==> cols(#[trigger] s[i]) <= width,
    ensures
        rows_fit(s, layout_from(s, from, width), width),
    decreases s.len() - from,
{
    lemma_find_from(s, '\n', from);
    let end = find_from(s, '\n', from);
    lemma_wrap_fits(s, from, end, width);
    lemma_wrap_shape(s, from, end, width);
    let st = wrap_upto(s, from, end, width);
    lemma_sum_cols_split(s, st.row_start, st.word_start, end);
    lemma_trim_end_prefix(s.subrange(st.row_start, end));
    let here = wrap_rows(s, from, end, width);
    assert(rows_fit(s, here, width));
    if end < s.len() {
        lemma_layout_fits(s, end + 1, width);
        let rest = layout_from(s, end + 1, width);
        assert forall|k: int| 0 <= k < (here + rest).len() implies sum_cols(
            trim_end(s.subrange((#[trigger] (here + rest)[k]).0, (here + rest)[k].1)),
        ) <= width by {
            if k < here.len() {
                assert((here + rest)[k] == here[k]);
            } else {
                assert((here + rest)[k] == rest[k - here.len()]);
            }
        }
    }
}

/// No row's content is wider than the area: trailing spaces may sit at the
/// edge, the content does not. It holds as long as no single character is
/// wider than a row.
pub proof fn law_no_row_content_exceeds_the_width(s: Seq<char>, width: nat)
    requires
        width >= 1,
        forall|i: int| 0 <= i < s.len() ==> cols(#[trigger] s[i]) <= width,
    ensures
        rows_fit(s, layout_rows(s, width), width as int),
{
    lemma_layout_fits(s, 0, width as int);
}

// ---- a row wraps only where it has to --------------------------------------

/// Where the word at `at` ends: the first white space from there on.
pub open spec fn word_end(s: Seq<char>, at: int) -> int
    decreases s.len() - at,
{
    if 0 <= at < s.len() && !is_space(s[at]) {
        word_end(s, at + 1)
    } else {
        at
    }
}

/// The row `row` could not end later: with the word behind it, it is wider than
/// the area. It ends behind white space, or inside a word that up to the next
/// character is by itself wider than the area.
pub open spec fn wraps_late(s: Seq<char>, row: (int, int), width: int) -> bool {
    &&& sum_cols(s.subrange(row.0, word_end(s, row.1))) > width
    &&& {
        ||| 0 < row.1 <= s.len() && is_space(s[row.1 - 1])
        ||| row.1 < s.len() && sum_cols(
            s.subrange(back_over(s, row.1, false), row.1 + 1),
        ) > width
    }
}

proof fn lemma_word_end(s: Seq<char>, at: int, e: int)
    requires
        0 <= at <= e <= s.len(),
        forall|i: int| at <= i < e ==> !is_space(#[trigger] s[i]),
    ensures
        e <= word_end(s, at) <= s.len(),
    decreases s.len() - at,
{
    if at < s.len() && !is_space(s[at]) {
        if at < e {
            lemma_word_end(s, at + 1, e);
        } else {
            lemma_word_end(s, at + 1, at + 1);
        }
    }
}

proof fn lemma_word_begin(s: Seq<char>, w: int, at: int)
    requires
        0 <= w <= at <= s.len(),
        forall|i: int| w <= i < at ==> !is_space(#[trigger] s[i]),
    ensures
        0 <= back_over(s, at, false) <= w,
    decreases at,
{
    lemma_back_over(s, at, false);
    if w < at {
        assert(!is_space(s[at - 1]));
        lemma_word_begin(s, w, at - 1);
    }
}

/// A longer stretch is not narrower.
proof fn lemma_wider(s: Seq<char>, a: int, b: int, c: int, d: int)
    requires
        0 <= a <= b <= c <= d <= s.len(),
    ensures
        sum_cols(s.subrange(b, c)) <= sum_cols(s.subrange(a, d)),
{
    lemma_sum_cols_split(s, a, b, d);
    lemma_sum_cols_split(s, b, c, d);
}

proof fn lemma_wrap_late(s: Seq<char>, from: int, to: int, width: int)
    requires
        0 <= from <= to <= s.len(),
        width >= 0,
    ensures
        ({
            let st = wrap_upto(s, from, to, width);
            &&& st.row_w == sum_cols(s.subrange(st.row_start, st.word_start))
            &&& st.word_w == sum_cols(s.subrange(st.word_start, to))
            &&& forall|i: int| st.word_start <= i < to ==> !is_space(#[trigger] s[i])
            &&& st.row_start < st.word_start ==> is_space(s[st.word_start - 1])
            &&& forall|k: int| 0 <= k < st.rows.len() ==> wraps_late(s, #[trigger] st.rows[k], width)
        }),
    decreases to - from,
{
    lemma_wrap_shape(s, from, to, width);
    if from < to {
        let i = to - 1;
        lemma_wrap_late(s, from, i, width);
        lemma_wrap_shape(s, from, i, width);
        let st = wrap_upto(s, from, i, width);
        let next = wrap_upto(s, from, to, width);
        let c = s[i];
        lemma_sum_cols_split(s, st.row_start, st.word_start, i);
        lemma_sum_cols_next(s, st.word_start, i);
        lemma_sum_cols_next(s, st.row_start, i);
        assert(s.subrange(to, to) =~= Seq::<char>::empty());
        assert(s.subrange(i, i) =~= Seq::<char>::empty());
        lemma_sum_cols_next(s, i, i);
        assert(s.subrange(st.word_start, st.word_start) =~= Seq::<char>::empty());
        if next.rows.len() > st.rows.len() {
            let row = next.rows.last();
            assert(sum_cols(s.subrange(st.row_start, to)) > width);
            if is_space(c) {
                lemma_word_end(s, to, to);
                lemma_wider(s, row.0, row.0, to, word_end(s, to));
            } else {
                lemma_word_end(s, row.1, to);
                lemma_wider(s, row.0, row.0, to, word_end(s, row.1));
                if st.word_w + cols(c) > width {
                    lemma_word_begin(s, st.word_start, i);
                    lemma_wider(s, back_over(s, i, false), st.word_start, to, to);
                }
            }
        }
        assert forall|k: int| 0 <= k < next.rows.len() implies wraps_late(
            s,
            #[trigger] next.rows[k],
            width,
        ) by {
            if k < st.rows.len() {
                assert(next.rows[k] == st.rows[k]);
            }
        }
    } else {
        assert(s.subrange(from, from) =~= Seq::<char>::empty());
    }
}

spec fn rows_wrap_late(s: Seq<char>, rows: Seq<(int, int)>, width: int) -> bool {
    forall|k: int|
        0 <= k < rows.len() && wraps(rows, k) ==> wraps_late(s, #[trigger] rows[k], width)
}

proof fn lemma_layout_late(s: Seq<char>, from: int, width: int)
    requires
        0 <= from <= s.len(),
        width >= 0,
    ensures
        rows_wrap_late(s, layout_from(s, from, width), width),
    decreases s.len() - from,
{
    lemma_find_from(s, '\n', from);
    let end = find_from(s, '\n', from);
    lemma_wrap_late(s, from, end, width);
    let st = wrap_upto(s, from, end, width);
    let here = wrap_rows(s, from, end, width);
    assert forall|k: int| 0 <= k < here.len() && wraps(here, k) implies wraps_late(
        s,
        #[trigger] here[k],
        width,
    ) by {
        assert(here[k] == st.rows[k]);
    }
    if end < s.len() {
        lemma_layout_late(s, end + 1, width);
        lemma_layout_partition(s, end + 1, width);
        let rest = layout_from(s, end + 1, width);
        let rows = here + rest;
        assert forall|k: int| 0 <= k < rows.len() && wraps(rows, k) implies wraps_late(
            s,
            #[trigger] rows[k],
            width,
        ) by {
            if k < here.len() - 1 {
                assert(rows[k] == here[k] && rows[k + 1] == here[k + 1]);
                assert(wraps(here, k));
            } else if k == here.len() - 1 {
                assert(rows[k] == here.last() && rows[k + 1] == rest[0]);
            } else {
                assert(rows[k] == rest[k - here.len()] && rows[k + 1] == rest[k + 1 - here.len()]);
                assert(wraps(rest, k - here.len()));
            }
        }
    }
}

/// A row wraps only where the next word did not fit, and breaks a word only
/// where that word is by itself wider than the area.
pub proof fn law_a_row_wraps_only_where_the_next_word_did_not_fit(s: Seq<char>, width: nat, k: int)
    requires
        width >= 1,
        0 <= k < layout_rows(s, width).len(),
        wraps(layout_rows(s, width), k),
    ensures
        wraps_late(s, layout_rows(s, width)[k], width as int),
{
    lemma_layout_late(s, 0, width as int);
}

// ---- the caret's row -------------------------------------------------------

/// The last of `rows[..n]` that holds position `at`, ends counted in; 0 where none does.
pub open spec fn row_of(rows: Seq<(int, int)>, at: int, n: int) -> int
    decreases n,
{
    if n <= 0 {
        0
    } else if rows[n - 1].0 <= at <= rows[n - 1].1 {
        n - 1
    } else {
        row_of(rows, at, n - 1)
    }
}

proof fn lemma_row_of(rows: Seq<(int, int)>, at: int, n: int, k: int)
    requires
        0 <= k < n <= rows.len(),
        rows[k].0 <= at <= rows[k].1,
    ensures
        k <= row_of(rows, at, n) < n,
        rows[row_of(rows, at, n)].0 <= at <= rows[row_of(rows, at, n)].1,
    decreases n,
{
    if !(rows[n - 1].0 <= at <= rows[n - 1].1) {
        lemma_row_of(rows, at, n - 1, k);
    }
}

proof fn lemma_partition_covers(s: Seq<char>, rows: Seq<(int, int)>, at: int, k: int)
    requires
        partition(s, rows, 0),
        0 <= at <= s.len(),
        0 <= k < rows.len(),
        rows[k].0 <= at,
    ensures
        exists|j: int| 0 <= j < rows.len() && (#[trigger] rows[j]).0 <= at <= rows[j].1,
    decreases rows.len() - k,
{
    if rows[k].1 < at {
        assert(k + 1 < rows.len());
        assert(rows[k + 1].0 <= at);
        lemma_partition_covers(s, rows, at, k + 1);
    }
}

/// Wherever the caret is, its row holds it: the row's start is at or before
/// the caret and its end at or behind it. It is the last such row, so a caret
/// at a soft wrap shows at the start of the next row.
pub proof fn law_the_caret_is_on_its_row(s: Seq<char>, at: int, width: nat)
    requires
        0 <= at <= s.len(),
    ensures
        ({
            let rows = layout_rows(s, width);
            let row = row_of(rows, at, rows.len() as int);
            &&& 0 <= row < rows.len()
            &&& rows[row].0 <= at <= rows[row].1
            &&& forall|k: int| row < k < rows.len() ==> !((#[trigger] rows[k]).0 <= at <= rows[k].1)
        }),
{
    let rows = layout_rows(s, width);
    law_rows_partition_the_text(s, width);
    lemma_partition_covers(s, rows, at, 0);
    let j = choose|j: int| 0 <= j < rows.len() && (#[trigger] rows[j]).0 <= at <= rows[j].1;
    lemma_row_of(rows, at, rows.len() as int, j);
    assert forall|k: int| row_of(rows, at, rows.len() as int) < k < rows.len() implies !((
    #[trigger] rows[k]).0 <= at <= rows[k].1) by {
        if rows[k].0 <= at <= rows[k].1 {
            lemma_row_of(rows, at, rows.len() as int, k);
        }
    }
}

/// Whether row `k` ends in a soft wrap: the next row starts where it ends.
pub open spec fn wraps(rows: Seq<(int, int)>, k: int) -> bool {
    k + 1 < rows.len() && rows[k + 1].0 == rows[k].1
}

/// The last position that is still on row `k`: its end, or the position before
/// it where the end shows at the start of the next row.
pub open spec fn last_on(rows: Seq<(int, int)>, k: int) -> int {
    if wraps(rows, k) && rows[k].0 < rows[k].1 {
        rows[k].1 - 1
    } else {
        rows[k].1
    }
}

/// Whether the caret can be on row `k`. An empty row that ends in a soft wrap,
/// in front of a character wider than the area, has no position of its own.
pub open spec fn holds_caret(rows: Seq<(int, int)>, k: int) -> bool {
    rows[k].0 < rows[k].1 || !wraps(rows, k)
}

proof fn lemma_rows_ascend(s: Seq<char>, rows: Seq<(int, int)>, j: int, k: int)
    requires
        partition(s, rows, 0),
        0 <= j < k < rows.len(),
    ensures
        rows[j + 1].0 <= rows[k].0,
    decreases k,
{
    if j + 1 < k {
        lemma_rows_ascend(s, rows, j, k - 1);
        assert(rows[k - 1].0 <= rows[k - 1].1);
        assert(rows[k].0 >= rows[k - 1].1);
    }
}

/// A position from the start of a row to the last one on it is on that row.
pub proof fn law_a_position_on_a_row_is_shown_there(s: Seq<char>, width: nat, k: int, at: int)
    requires
        0 <= k < layout_rows(s, width).len(),
        holds_caret(layout_rows(s, width), k),
        layout_rows(s, width)[k].0 <= at <= last_on(layout_rows(s, width), k),
    ensures
        row_of(layout_rows(s, width), at, layout_rows(s, width).len() as int) == k,
{
    let rows = layout_rows(s, width);
    let n = rows.len() as int;
    law_rows_partition_the_text(s, width);
    lemma_row_of(rows, at, n, k);
    let r = row_of(rows, at, n);
    if k < r {
        lemma_rows_ascend(s, rows, k, r);
        assert(rows[k + 1].0 == rows[k].1 || rows[k + 1].0 == rows[k].1 + 1);
    }
}

// ---- wrapping --------------------------------------------------------------

/// A list of ranges as pairs of positions.
pub open spec fn pairs(rows: Seq<(usize, usize)>) -> Seq<(int, int)> {
    rows.map_values(|r: (usize, usize)| (r.0 as int, r.1 as int))
}

pub proof fn lemma_pairs_push(rows: Seq<(usize, usize)>, r: (usize, usize))
    ensures
        pairs(rows.push(r)) == pairs(rows).push((r.0 as int, r.1 as int)),
{
    assert(pairs(rows.push(r)) =~= pairs(rows).push((r.0 as int, r.1 as int)));
}

/// Wrap the logical line `cs[from..to]` into `rows`, breaking before a word
/// that does not fit and inside a word that is longer than the whole width.
/// Adds at least one row, so empty lines survive.
fn wrap_line(cs: &Vec<char>, from: usize, to: usize, width: usize, rows: &mut Vec<(usize, usize)>)
    requires
        from <= to <= cs@.len(),
        width >= 1,
    ensures
        pairs(final(rows)@) == pairs(old(rows)@) + wrap_rows(
            cs@,
            from as int,
            to as int,
            width as int,
        ),
{
    let ghost before = pairs(rows@);
    let mut row_start: usize = from;
    let mut row_w: usize = 0;
    let mut word_start: usize = from;
    let mut word_w: usize = 0;
    let mut i: usize = from;
    assert(before + Seq::<(int, int)>::empty() =~= before);
    while i < to
        invariant
            from <= i <= to <= cs@.len(),
            width >= 1,
            row_w <= width,
            row_w + word_w <= width || (row_w == 0 && word_w <= 3),
            ({
                let st = wrap_upto(cs@, from as int, i as int, width as int);
                &&& st.row_start == row_start
                &&& st.row_w == row_w
                &&& st.word_start == word_start
                &&& st.word_w == word_w
                &&& pairs(rows@) == before + st.rows
            }),
        decreases to - i,
    {
        let ch = cs[i];
        let cw = columns(ch);
        let ghost st = wrap_upto(cs@, from as int, i as int, width as int);
        let used: usize = row_w + word_w;
        if is_whitespace(ch) {
            word_w = 0;
            word_start = i + 1;
            if exceeds(used, cw, width) {
                proof {
                    lemma_pairs_push(rows@, (row_start, word_start));
                    assert((before + st.rows).push((row_start as int, i + 1)) =~= before
                        + st.rows.push((row_start as int, i + 1)));
                }
                rows.push((row_start, word_start));
                row_start = word_start;
                row_w = 0;
            } else {
                row_w = used + cw;
            }
        } else if exceeds(word_w, cw, width) {
            proof {
                lemma_pairs_push(rows@, (row_start, i));
                assert((before + st.rows).push((row_start as int, i as int)) =~= before
                    + st.rows.push((row_start as int, i as int)));
            }
            rows.push((row_start, i));
            row_start = i;
            row_w = 0;
            word_start = i;
            word_w = cw;
        } else if exceeds(used, cw, width) {
            proof {
                lemma_pairs_push(rows@, (row_start, word_start));
                assert((before + st.rows).push((row_start as int, word_start as int)) =~= before
                    + st.rows.push((row_start as int, word_start as int)));
            }
            rows.push((row_start, word_start));
            row_start = word_start;
            row_w = 0;
            word_w += cw;
        } else {
            word_w += cw;
        }
        i += 1;
    }
    proof {
        let st = wrap_upto(cs@, from as int, to as int, width as int);
        lemma_pairs_push(rows@, (row_start, to));
        assert((before + st.rows).push((row_start as int, to as int)) =~= before + st.rows.push(
            (row_start as int, to as int),
        ));
    }
    rows.push((row_start, to));
}

/// The rows of `cs` at `width` columns, as character ranges.
fn rows_of(cs: &Vec<char>, width: usize) -> (rows: Vec<(usize, usize)>)
    ensures
        pairs(rows@) == layout_rows(cs@, width as nat),
        partition(cs@, pairs(rows@), 0),
{
    let w: usize = if width == 0 {
        1
    } else {
        width
    };
    let mut rows: Vec<(usize, usize)> = Vec::new();
    let mut from: usize = 0;
    assert(pairs(rows@) + layout_from(cs@, 0, w as int) =~= layout_from(cs@, 0, w as int));
    loop
        invariant_except_break
            from <= cs@.len(),
            w >= 1,
            pairs(rows@) + layout_from(cs@, from as int, w as int) == layout_from(
                cs@,
                0,
                w as int,
            ),
        ensures
            pairs(rows@) == layout_from(cs@, 0, w as int),
        decreases cs@.len() - from,
    {
        let end = find_char(cs, '\n', from);
        let ghost before = pairs(rows@);
        wrap_line(cs, from, end, w, &mut rows);
        if end == cs.len() {
            break;
        }
        proof {
            let here = wrap_rows(cs@, from as int, end as int, w as int);
            let rest = layout_from(cs@, end + 1, w as int);
            assert(before + (here + rest) =~= (before + here) + rest);
        }
        from = end + 1;
    }
    proof {
        law_rows_partition_the_text(cs@, width as nat);
    }
    rows
}

/// The row that holds position `at`, ends counted in: the last such row.
fn row_at(rows: &Vec<(usize, usize)>, at: usize) -> (r: usize)
    requires
        rows@.len() > 0,
    ensures
        r == row_of(pairs(rows@), at as int, rows@.len() as int),
        r < rows@.len(),
{
    let mut n: usize = rows.len();
    while n > 0
        invariant
            n <= rows@.len(),
            rows@.len() > 0,
            row_of(pairs(rows@), at as int, n as int) == row_of(
                pairs(rows@),
                at as int,
                rows@.len() as int,
            ),
        decreases n,
    {
        assert(pairs(rows@)[n - 1] == (rows@[n - 1].0 as int, rows@[n - 1].1 as int));
        if rows[n - 1].0 <= at && at <= rows[n - 1].1 {
            return n - 1;
        }
        n -= 1;
    }
    0
}

/// Byte offset of the first `n` characters.
fn byte_offset(s: &str, cs: &Vec<char>, n: usize) -> (r: usize)
    requires
        cs@ == s@,
        n <= cs@.len(),
    ensures
        r == byte_len(s@.take(n as int)),
{
    let total = len_bytes(s);
    let mut i: usize = 0;
    let mut at: usize = 0;
    assert(s@.take(0) =~= Seq::<char>::empty());
    while i < n
        invariant
            i <= n <= cs@.len(),
            cs@ == s@,
            at == byte_len(s@.take(i as int)),
            total == byte_len(s@),
        decreases n - i,
    {
        proof {
            lemma_byte_len_mono(s@, i + 1, i + 1);
            assert(s@.take(i + 1).drop_last() =~= s@.take(i as int));
        }
        at += char_len(cs[i]);
        i += 1;
    }
    at
}

// ---- the text area ---------------------------------------------------------

/// What a text area holds: the text, and the caret as a character position.
#[verifier::ext_equal]
pub struct Editing {
    pub text: Seq<char>,
    pub at: int,
}

/// An editable, soft-wrapping multi-line buffer.
#[derive(Debug)]
pub struct TextArea {
    text: String,
    /// Caret position, counted in characters.
    at: usize,
}

impl View for TextArea {
    type V = Editing;

    closed spec fn view(&self) -> Editing {
        Editing { text: self.text@, at: self.at as int }
    }
}

impl Clone for TextArea {
    fn clone(&self) -> (r: TextArea)
        ensures
            r@ == self@,
    {
        proof {
            use_type_invariant(self);
        }
        TextArea { text: self.text.clone(), at: self.at }
    }
}

/// Going left from `at` over characters that are (or are not) white space.
pub open spec fn back_over(s: Seq<char>, at: int, space: bool) -> int
    decreases at,
{
    if 0 < at <= s.len() && is_space(s[at - 1]) == space {
        back_over(s, at - 1, space)
    } else {
        at
    }
}

/// Where the word before `at` starts, the white space behind it skipped.
pub open spec fn word_start(s: Seq<char>, at: int) -> int {
    back_over(s, back_over(s, at, true), false)
}

proof fn lemma_back_over(s: Seq<char>, at: int, space: bool)
    requires
        0 <= at <= s.len(),
    ensures
        0 <= back_over(s, at, space) <= at,
    decreases at,
{
    if 0 < at && is_space(s[at - 1]) == space {
        lemma_back_over(s, at - 1, space);
    }
}

impl Editing {
    /// The caret is inside the text.
    pub open spec fn wf(self) -> bool {
        0 <= self.at <= self.text.len()
    }

    /// The caret's row at `width` columns.
    pub open spec fn row(self, width: nat) -> int {
        let rows = layout_rows(self.text, width);
        row_of(rows, self.at, rows.len() as int)
    }

    /// The text on the caret's row before the caret.
    pub open spec fn before_caret(self, width: nat) -> Seq<char> {
        self.text.subrange(layout_rows(self.text, width)[self.row(width)].0, self.at)
    }

    pub open spec fn inserted(self, ch: char) -> Editing {
        Editing { text: self.text.insert(self.at, ch), at: self.at + 1 }
    }

    pub open spec fn backspaced(self) -> Editing {
        if self.at > 0 {
            Editing { text: self.text.remove(self.at - 1), at: self.at - 1 }
        } else {
            self
        }
    }

    pub open spec fn deleted(self) -> Editing {
        if self.at < self.text.len() {
            Editing { text: self.text.remove(self.at), at: self.at }
        } else {
            self
        }
    }

    pub open spec fn word_deleted(self) -> Editing {
        let start = word_start(self.text, self.at);
        Editing { text: self.text.take(start) + self.text.skip(self.at), at: start }
    }

    pub open spec fn moved_left(self) -> Editing {
        Editing { at: if self.at > 0 { self.at - 1 } else { self.at }, ..self }
    }

    pub open spec fn moved_right(self) -> Editing {
        Editing { at: if self.at < self.text.len() { self.at + 1 } else { self.at }, ..self }
    }

    pub open spec fn moved_home(self, width: nat) -> Editing {
        Editing { at: layout_rows(self.text, width)[self.row(width)].0, ..self }
    }

    pub open spec fn moved_end(self, width: nat) -> Editing {
        Editing { at: layout_rows(self.text, width)[self.row(width)].1, ..self }
    }

    /// One visual row up (`-1`) or down (`1`), to the position on that row that
    /// is closest to the caret's column; at an edge nothing moves.
    pub open spec fn moved_vertically(self, width: nat, delta: int) -> Editing {
        let rows = layout_rows(self.text, width);
        let target = self.row(width) + delta;
        if target < 0 || target >= rows.len() {
            self
        } else {
            let col = str_columns(self.before_caret(width)) as nat;
            Editing { at: fit(self.text, rows[target].0, last_on(rows, target), 0, col), ..self }
        }
    }

    /// Whether there is a row in that direction for the caret to be on.
    pub open spec fn can_move(self, width: nat, delta: int) -> bool {
        let rows = layout_rows(self.text, width);
        let target = self.row(width) + delta;
        0 <= target < rows.len() && holds_caret(rows, target)
    }
}

impl TextArea {
    #[verifier::type_invariant]
    closed spec fn inv(self) -> bool {
        self.at <= self.text@.len()
    }

    /// Start with `text`, caret at the end (so editing an existing note
    /// continues where it left off).
    pub fn new(text: String) -> (r: TextArea)
        ensures
            r@ == (Editing { text: text@, at: text@.len() as int }),
            r@.wf(),
    {
        let at = text.as_str().unicode_len();
        TextArea { text, at }
    }

    pub fn text(&self) -> (r: &str)
        ensures
            r@ == self@.text,
            self@.wf(),
    {
        proof {
            use_type_invariant(self);
        }
        self.text.as_str()
    }

    pub fn is_empty(&self) -> (r: bool)
        ensures
            r == (self@.text.len() == 0),
    {
        self.text.as_str().is_empty()
    }

    /// Characters (not bytes): what an "N chars" counter should show.
    pub fn char_count(&self) -> (n: usize)
        ensures
            n == self@.text.len(),
    {
        self.text.as_str().unicode_len()
    }

    /// The caret as a byte index; always on a character boundary.
    pub fn caret(&self) -> (b: usize)
        ensures
            b == byte_len(self@.text.take(self@.at)),
            self@.wf(),
    {
        proof {
            use_type_invariant(self);
        }
        let cs = chars_of(self.text.as_str());
        byte_offset(self.text.as_str(), &cs, self.at)
    }

    // ---- editing ----------------------------------------------------------

    pub fn insert(&mut self, ch: char)
        ensures
            old(self)@.wf(),
            final(self)@ == old(self)@.inserted(ch),
            final(self)@.wf(),
    {
        proof {
            use_type_invariant(&*self);
        }
        let mut cs = chars_of(self.text.as_str());
        let at = self.at;
        cs.insert(at, ch);
        let text = string_of(&cs, 0, cs.len());
        assert(text@ =~= self@.text.insert(self@.at, ch));
        *self = TextArea { text, at: at + 1 };
    }

    pub fn insert_newline(&mut self)
        ensures
            old(self)@.wf(),
            final(self)@ == old(self)@.inserted('\n'),
            final(self)@.wf(),
    {
        self.insert('\n');
    }

    /// Delete the character before the caret.
    pub fn backspace(&mut self)
        ensures
            old(self)@.wf(),
            final(self)@ == old(self)@.backspaced(),
            final(self)@.wf(),
    {
        proof {
            use_type_invariant(&*self);
        }
        if self.at > 0 {
            let mut cs = chars_of(self.text.as_str());
            let at = self.at;
            let _ = cs.remove(at - 1);
            let text = string_of(&cs, 0, cs.len());
            assert(text@ =~= self@.text.remove(self@.at - 1));
            *self = TextArea { text, at: at - 1 };
        }
    }

    /// Delete the character after the caret.
    pub fn delete(&mut self)
        ensures
            old(self)@.wf(),
            final(self)@ == old(self)@.deleted(),
            final(self)@.wf(),
    {
        proof {
            use_type_invariant(&*self);
        }
        let mut cs = chars_of(self.text.as_str());
        let at = self.at;
        if at < cs.len() {
            let _ = cs.remove(at);
            let text = string_of(&cs, 0, cs.len());
            assert(text@ =~= self@.text.remove(self@.at));
            *self = TextArea { text, at };
        }
    }

    /// Delete the word before the caret, plus the white space behind it.
    pub fn delete_word(&mut self)
        ensures
            old(self)@.wf(),
            final(self)@ == old(self)@.word_deleted(),
            final(self)@.wf(),
    {
        proof {
            use_type_invariant(&*self);
        }
        let cs = chars_of(self.text.as_str());
        let caret = self.at;
        let gap = skip_back(&cs, caret, true);
        let start = skip_back(&cs, gap, false);
        let mut text = string_of(&cs, 0, start);
        let tail = string_of(&cs, caret, cs.len());
        append(&mut text, tail.as_str());
        assert(text@ =~= self@.text.take(start as int) + self@.text.skip(self@.at));
        *self = TextArea { text, at: start };
    }

    pub fn clear(&mut self)
        ensures
            final(self)@ == (Editing { text: Seq::empty(), at: 0 }),
    {
        let text = String::new();
        assert(text@ =~= Seq::<char>::empty());
        *self = TextArea { text, at: 0 };
    }

    // ---- caret movement ---------------------------------------------------

    pub fn move_left(&mut self)
        ensures
            old(self)@.wf(),
            final(self)@ == old(self)@.moved_left(),
            final(self)@.wf(),
    {
        proof {
            use_type_invariant(&*self);
        }
        if self.at > 0 {
            self.at = self.at - 1;
        }
    }

    pub fn move_right(&mut self)
        ensures
            old(self)@.wf(),
            final(self)@ == old(self)@.moved_right(),
            final(self)@.wf(),
    {
        proof {
            use_type_invariant(&*self);
        }
        if self.at < self.text.as_str().unicode_len() {
            self.at = self.at + 1;
        }
    }

    /// Move to the start of the caret's *visual* row.
    pub fn move_home(&mut self, width: usize)
        ensures
            old(self)@.wf(),
            final(self)@ == old(self)@.moved_home(width as nat),
            final(self)@.wf(),
    {
        proof {
            use_type_invariant(&*self);
            law_the_caret_is_on_its_row(self@.text, self@.at, width as nat);
        }
        let cs = chars_of(self.text.as_str());
        let rows = rows_of(&cs, width);
        let row = row_at(&rows, self.at);
        assert(pairs(rows@)[row as int] == (rows@[row as int].0 as int, rows@[row as int].1 as int));
        self.at = rows[row].0;
    }

    /// Move to the end of the caret's *visual* row.
    pub fn move_end(&mut self, width: usize)
        ensures
            old(self)@.wf(),
            final(self)@ == old(self)@.moved_end(width as nat),
            final(self)@.wf(),
    {
        proof {
            use_type_invariant(&*self);
        }
        let cs = chars_of(self.text.as_str());
        let rows = rows_of(&cs, width);
        let row = row_at(&rows, self.at);
        assert(pairs(rows@)[row as int] == (rows@[row as int].0 as int, rows@[row as int].1 as int));
        self.at = rows[row].1;
    }

    /// Move one visual row up, keeping the column where possible.
    pub fn move_up(&mut self, width: usize)
        ensures
            old(self)@.wf(),
            final(self)@ == old(self)@.moved_vertically(width as nat, -1),
            final(self)@.wf(),
            old(self)@.can_move(width as nat, -1) ==> final(self)@.row(width as nat) == old(
                self,
            )@.row(width as nat) - 1,
    {
        self.move_vertical(width, true);
    }

    /// Move one visual row down, keeping the column where possible.
    pub fn move_down(&mut self, width: usize)
        ensures
            old(self)@.wf(),
            final(self)@ == old(self)@.moved_vertically(width as nat, 1),
            final(self)@.wf(),
            old(self)@.can_move(width as nat, 1) ==> final(self)@.row(width as nat) == old(
                self,
            )@.row(width as nat) + 1,
    {
        self.move_vertical(width, false);
    }

    fn move_vertical(&mut self, width: usize, up: bool)
        ensures
            old(self)@.wf(),
            final(self)@ == old(self)@.moved_vertically(
                width as nat,
                if up {
                    -1
                } else {
                    1
                },
            ),
            final(self)@.wf(),
            old(self)@.can_move(
                width as nat,
                if up {
                    -1
                } else {
                    1
                },
            ) ==> final(self)@.row(width as nat) == old(self)@.row(width as nat) + if up {
                -1int
            } else {
                1
            },
    {
        proof {
            use_type_invariant(&*self);
            law_the_caret_is_on_its_row(self@.text, self@.at, width as nat);
        }
        let cs = chars_of(self.text.as_str());
        let rows = rows_of(&cs, width);
        let row = row_at(&rows, self.at);
        if (up && row == 0) || (!up && row + 1 == rows.len()) {
            return ;
        }
        let target: usize = if up {
            row - 1
        } else {
            row + 1
        };
        proof {
            assert(pairs(rows@)[row as int] == (
                rows@[row as int].0 as int,
                rows@[row as int].1 as int,
            ));
            assert(pairs(rows@)[target as int] == (
                rows@[target as int].0 as int,
                rows@[target as int].1 as int,
            ));
        }
        let before = string_of(&cs, rows[row].0, self.at);
        let col = str_width(before.as_str());
        let end = rows[target].1;
        let last: usize = if target + 1 < rows.len() && rows[target + 1].0 == end
            && rows[target].0 < end {
            end - 1
        } else {
            end
        };
        proof {
            if target + 1 < rows@.len() {
                assert(pairs(rows@)[target + 1] == (
                    rows@[target + 1].0 as int,
                    rows@[target + 1].1 as int,
                ));
            }
            assert(last == last_on(pairs(rows@), target as int));
        }
        self.at = fitting(&cs, rows[target].0, last, col);
        proof {
            if holds_caret(pairs(rows@), target as int) {
                law_a_position_on_a_row_is_shown_there(
                    self@.text,
                    width as nat,
                    target as int,
                    self@.at,
                );
            }
        }
    }

    // ---- layout -----------------------------------------------------------

    /// The caret as a character position.
    pub fn position(&self) -> (r: usize)
        ensures
            r == self@.at,
            self@.wf(),
    {
        proof {
            use_type_invariant(self);
        }
        self.at
    }

    /// Soft-wrap to `width` columns, as character ranges, with the caret's row.
    pub fn rows(&self, width: usize) -> (r: (Vec<(usize, usize)>, usize))
        ensures
            pairs(r.0@) == layout_rows(self@.text, width as nat),
            r.1 == self@.row(width as nat),
            r.1 < r.0@.len(),
            self@.wf(),
    {
        proof {
            use_type_invariant(self);
        }
        let cs = chars_of(self.text.as_str());
        let rows = rows_of(&cs, width);
        let row = row_at(&rows, self.at);
        (rows, row)
    }

    /// Soft-wrap to `width` columns, as byte ranges. Always returns at least one row.
    pub fn layout(&self, width: usize) -> (r: Vec<Range<usize>>)
        ensures
            byte_rows(self@.text, layout_rows(self@.text, width as nat), r@),
            r@.len() >= 1,
    {
        let s = self.text.as_str();
        let cs = chars_of(s);
        let rows = rows_of(&cs, width);
        let ghost spec_rows = layout_rows(s@, width as nat);
        let mut out: Vec<Range<usize>> = Vec::new();
        let mut i: usize = 0;
        while i < rows.len()
            invariant
                i <= rows@.len(),
                cs@ == s@,
                pairs(rows@) == spec_rows,
                partition(cs@, pairs(rows@), 0),
                byte_rows(s@, spec_rows.take(i as int), out@),
            decreases rows@.len() - i,
        {
            let ghost prev = out@;
            assert(spec_rows[i as int] == (rows@[i as int].0 as int, rows@[i as int].1 as int));
            let start = byte_offset(s, &cs, rows[i].0);
            let end = byte_offset(s, &cs, rows[i].1);
            out.push(Range { start, end });
            i += 1;
            proof {
                assert forall|k: int| 0 <= k < i implies (#[trigger] out@[k]).start == byte_len(
                    s@.take(spec_rows.take(i as int)[k].0),
                ) && out@[k].end == byte_len(s@.take(spec_rows.take(i as int)[k].1)) by {
                    if k < i - 1 {
                        assert(out@[k] == prev[k]);
                        assert(spec_rows.take(i as int)[k] == spec_rows.take(i - 1)[k]);
                    }
                }
            }
        }
        assert(spec_rows.take(i as int) =~= spec_rows);
        out
    }

    /// Which row the caret sits on: the *last* row that starts at or before
    /// it, so a caret at a soft wrap shows at the start of the next row.
    pub fn caret_row(&self, rows: &[Range<usize>]) -> (r: usize)
        ensures
            r == row_of(
                range_pairs(rows@),
                byte_len(self@.text.take(self@.at)) as int,
                rows@.len() as int,
            ),
    {
        let caret = self.caret();
        let mut n: usize = rows.len();
        while n > 0
            invariant
                n <= rows@.len(),
                caret == byte_len(self@.text.take(self@.at)),
                row_of(range_pairs(rows@), caret as int, n as int) == row_of(
                    range_pairs(rows@),
                    caret as int,
                    rows@.len() as int,
                ),
            decreases n,
        {
            assert(range_pairs(rows@)[n - 1] == (
                rows@[n - 1].start as int,
                rows@[n - 1].end as int,
            ));
            if rows[n - 1].start <= caret && caret <= rows[n - 1].end {
                return n - 1;
            }
            n -= 1;
        }
        0
    }

    /// The caret as `(row, column)` in display cells.
    pub fn caret_pos(&self, width: usize) -> (r: (usize, usize))
        ensures
            r.0 == self@.row(width as nat),
            r.1 == str_columns(self@.before_caret(width as nat)),
            self@.wf(),
    {
        proof {
            use_type_invariant(self);
            law_the_caret_is_on_its_row(self@.text, self@.at, width as nat);
        }
        let cs = chars_of(self.text.as_str());
        let rows = rows_of(&cs, width);
        let row = row_at(&rows, self.at);
        assert(pairs(rows@)[row as int] == (rows@[row as int].0 as int, rows@[row as int].1 as int));
        let before = string_of(&cs, rows[row].0, self.at);
        (row, str_width(before.as_str()))
    }
}

/// A list of byte ranges as pairs of positions.
pub open spec fn range_pairs(rows: Seq<Range<usize>>) -> Seq<(int, int)> {
    rows.map_values(|r: Range<usize>| (r.start as int, r.end as int))
}

/// `out` are the byte ranges of the character ranges `rows` of `s`.
pub open spec fn byte_rows(s: Seq<char>, rows: Seq<(int, int)>, out: Seq<Range<usize>>) -> bool {
    &&& out.len() == rows.len()
    &&& forall|k: int|
        0 <= k < rows.len() ==> (#[trigger] out[k]).start == byte_len(s.take(rows[k].0))
            && out[k].end == byte_len(s.take(rows[k].1))
}

fn skip_back(cs: &Vec<char>, from: usize, space: bool) -> (r: usize)
    requires
        from <= cs@.len(),
    ensures
        r == back_over(cs@, from as int, space),
        r <= from,
{
    let mut at: usize = from;
    while at > 0 && is_whitespace(cs[at - 1]) == space
        invariant
            at <= from <= cs@.len(),
            back_over(cs@, at as int, space) == back_over(cs@, from as int, space),
        decreases at,
    {
        at -= 1;
    }
    at
}

// ---- laws of editing -------------------------------------------------------

/// Backspace takes back what was typed.
pub proof fn law_backspace_undoes_insert(e: Editing, ch: char)
    requires
        e.wf(),
    ensures
        e.inserted(ch).backspaced() == e,
{
    assert(e.text.insert(e.at, ch).remove(e.at) =~= e.text);
}

/// Deleting the character after the caret, then typing it again and stepping
/// back, changes nothing.
pub proof fn law_insert_undoes_delete(e: Editing)
    requires
        e.wf(),
        e.at < e.text.len(),
    ensures
        e.deleted().inserted(e.text[e.at]).moved_left() == e,
{
    assert(e.text.remove(e.at).insert(e.at, e.text[e.at]) =~= e.text);
}

/// Moving changes no text, and the caret never leaves it.
pub proof fn law_moving_keeps_the_text(e: Editing, width: nat, delta: int)
    requires
        e.wf(),
        delta == 1 || delta == -1,
    ensures
        e.moved_left().text == e.text && e.moved_left().wf(),
        e.moved_right().text == e.text && e.moved_right().wf(),
        e.moved_home(width).text == e.text && e.moved_home(width).wf(),
        e.moved_end(width).text == e.text && e.moved_end(width).wf(),
        e.moved_vertically(width, delta).text == e.text && e.moved_vertically(width, delta).wf(),
{
    law_rows_partition_the_text(e.text, width);
    law_the_caret_is_on_its_row(e.text, e.at, width);
    let rows = layout_rows(e.text, width);
    let target = e.row(width) + delta;
    if 0 <= target < rows.len() {
        let col = str_columns(e.before_caret(width)) as nat;
        lemma_fit(e.text, rows[target].0, last_on(rows, target), 0, col);
    }
}

/// The row that the byte ranges of a layout give for the caret's byte index is
/// the caret's row.
pub proof fn law_byte_rows_agree_on_the_caret(e: Editing, width: nat, out: Seq<Range<usize>>)
    requires
        e.wf(),
        byte_rows(e.text, layout_rows(e.text, width), out),
    ensures
        row_of(range_pairs(out), byte_len(e.text.take(e.at)) as int, out.len() as int) == e.row(
            width,
        ),
{
    law_rows_partition_the_text(e.text, width);
    lemma_byte_rows_agree(e, layout_rows(e.text, width), out, out.len() as int);
}

proof fn lemma_byte_rows_agree(e: Editing, rows: Seq<(int, int)>, out: Seq<Range<usize>>, n: int)
    requires
        e.wf(),
        partition(e.text, rows, 0),
        byte_rows(e.text, rows, out),
        0 <= n <= rows.len(),
    ensures
        row_of(range_pairs(out), byte_len(e.text.take(e.at)) as int, n) == row_of(rows, e.at, n),
    decreases n,
{
    if n > 0 {
        let r = rows[n - 1];
        assert(range_pairs(out)[n - 1] == (out[n - 1].start as int, out[n - 1].end as int));
        lemma_offset_order(e.text, r.0, e.at);
        lemma_offset_order(e.text, e.at, r.1);
        lemma_byte_rows_agree(e, rows, out, n - 1);
    }
}

proof fn lemma_offset_order(s: Seq<char>, a: int, b: int)
    requires
        0 <= a <= s.len(),
        0 <= b <= s.len(),
    ensures
        a <= b <==> byte_len(s.take(a)) <= byte_len(s.take(b)),
{
    if a <= b {
        lemma_byte_len_mono(s, a, b);
    } else {
        lemma_byte_len_mono(s, b, a);
    }
}

// ---- fitting text into a fixed width ---------------------------------------

/// `s` cut to `max` columns, a cut marked with a trailing ellipsis.
pub open spec fn elided(s: Seq<char>, max: nat) -> Seq<char> {
    if str_columns(s) <= max {
        s
    } else if max == 0 {
        Seq::empty()
    } else {
        s.take(fit(s, 0, s.len() as int, 0, (max - 1) as nat)).push('…')
    }
}

/// Right-truncate `s` to `max` display columns, marking a cut with a trailing
/// ellipsis. Shared by every pane that has to fit text into a fixed width.
pub fn elide_tail(s: &str, max: usize) -> (r: String)
    ensures
        r@ == elided(s@, max as nat),
{
    if str_width(s) <= max {
        return s.to_owned();
    }
    if max == 0 {
        let none = String::new();
        assert(none@ =~= Seq::<char>::empty());
        return none;
    }
    let cs = chars_of(s);
    let keep = fitting(&cs, 0, cs.len(), max - 1);
    let mut kept = string_of(&cs, 0, keep);
    assert(kept@ =~= s@.take(keep as int));
    kept.push('…');
    kept
}

/// A cut text fits: what is kept leaves a column for the mark, and keeping one
/// character more would not.
pub proof fn law_elided_text_fits(s: Seq<char>, max: nat)
    requires
        str_columns(s) > max,
        max >= 1,
    ensures
        ({
            let kept = elided(s, max).drop_last();
            &&& elided(s, max).last() == '…'
            &&& kept == s.take(kept.len() as int)
            &&& sum_cols(kept) + 1 <= max
            &&& kept.len() < s.len() ==> sum_cols(s.take(kept.len() as int + 1)) + 1 > max
        }),
{
    let n = fit(s, 0, s.len() as int, 0, (max - 1) as nat);
    lemma_fit(s, 0, s.len() as int, 0, (max - 1) as nat);
    assert(elided(s, max).drop_last() =~= s.take(n));
    assert(s.subrange(0, n) =~= s.take(n));
    if n < s.len() {
        assert(s.subrange(0, n + 1) =~= s.take(n + 1));
    }
}

/// The wrapped lines of `s`, without the white space at their ends.
pub open spec fn wrapped(s: Seq<char>, width: nat) -> Seq<Seq<char>> {
    layout_rows(s, width).map_values(|r: (int, int)| trim_end(s.subrange(r.0, r.1)))
}

/// Word-wrap `text` to `width` columns, hard-breaking anything that cannot
/// fit. Always yields at least one (possibly empty) row.
pub fn wrap_plain(text: &str, width: usize) -> (r: Vec<String>)
    ensures
        strs(r@) == wrapped(text@, width as nat),
        r@.len() >= 1,
{
    let cs = chars_of(text);
    let rows = rows_of(&cs, width);
    let mut out: Vec<String> = Vec::new();
    let mut i: usize = 0;
    while i < rows.len()
        invariant
            i <= rows@.len(),
            cs@ == text@,
            pairs(rows@) == layout_rows(text@, width as nat),
            partition(cs@, pairs(rows@), 0),
            strs(out@) == wrapped(text@, width as nat).take(i as int),
        decreases rows@.len() - i,
    {
        assert(pairs(rows@)[i as int] == (rows@[i as int].0 as int, rows@[i as int].1 as int));
        let end = trimmed_end(&cs, rows[i].0, rows[i].1);
        let line = string_of(&cs, rows[i].0, end);
        proof {
            let all = wrapped(text@, width as nat);
            assert(all.take(i + 1) =~= all.take(i as int).push(line@));
            lemma_strs_push(out@, line);
        }
        out.push(line);
        i += 1;
    }
    assert(wrapped(text@, width as nat).take(i as int) =~= wrapped(text@, width as nat));
    out
}

/// A text that fits is left alone, and nothing is left of it in no columns.
pub proof fn law_fitting_text_is_whole(s: Seq<char>, max: nat)
    ensures
        str_columns(s) <= max ==> elided(s, max) == s,
        str_columns(s) > 0 ==> elided(s, 0).len() == 0,
{
}

// ---- what the editing keys do ------------------------------------------------

/// What is typed stands at the caret, in the order of typing, and the caret
/// goes behind it.
pub proof fn law_typed_text_stands_at_the_caret(before: Seq<char>, behind: Seq<char>, a: char, b: char)
    ensures
        ({
            let e = Editing { text: before + behind, at: before.len() as int };
            &&& e.inserted(a) == (Editing {
                text: before.push(a) + behind,
                at: before.len() as int + 1,
            })
            &&& e.inserted(a).inserted(b).text == before.push(a).push(b) + behind
        }),
{
    let e = Editing { text: before + behind, at: before.len() as int };
    assert(e.inserted(a).text =~= before.push(a) + behind);
    assert(e.inserted(a).inserted(b).text =~= before.push(a).push(b) + behind);
}

/// Backspace takes the character before the caret, delete the one behind it;
/// where there is none, nothing happens.
pub proof fn law_deleting_takes_one_character(before: Seq<char>, behind: Seq<char>, c: char)
    ensures
        (Editing { text: before.push(c) + behind, at: before.len() as int + 1 }).backspaced() == (
        Editing { text: before + behind, at: before.len() as int }),
        (Editing { text: before + seq![c] + behind, at: before.len() as int }).deleted() == (
        Editing { text: before + behind, at: before.len() as int }),
        (Editing { text: behind, at: 0 }).backspaced() == (Editing { text: behind, at: 0 }),
        (Editing { text: before, at: before.len() as int }).deleted() == (Editing {
            text: before,
            at: before.len() as int,
        }),
{
    let e = Editing { text: before.push(c) + behind, at: before.len() as int + 1 };
    assert(e.backspaced().text =~= before + behind);
    let d = Editing { text: before + seq![c] + behind, at: before.len() as int };
    assert(d.deleted().text =~= before + behind);
}

/// Left and right go one character, and undo each other.
pub proof fn law_left_and_right_undo_each_other(e: Editing)
    requires
        e.wf(),
    ensures
        e.at < e.text.len() ==> e.moved_right().at == e.at + 1 && e.moved_right().moved_left() == e,
        e.at > 0 ==> e.moved_left().at == e.at - 1 && e.moved_left().moved_right() == e,
        e.at == 0 ==> e.moved_left() == e,
        e.at == e.text.len() ==> e.moved_right() == e,
{
}

proof fn lemma_back_over_run(s: Seq<char>, from: int, at: int, space: bool)
    requires
        0 <= from <= at <= s.len(),
        forall|k: int| from <= k < at ==> is_space(#[trigger] s[k]) == space,
        from > 0 ==> is_space(s[from - 1]) != space,
    ensures
        back_over(s, at, space) == from,
    decreases at - from,
{
    if from < at {
        assert(is_space(s[at - 1]) == space);
        lemma_back_over_run(s, from, at - 1, space);
    }
}

/// Deleting a word takes the word before the caret with the white space between,
/// and nothing else.
pub proof fn law_deleting_a_word_takes_that_word(
    before: Seq<char>,
    word: Seq<char>,
    gap: Seq<char>,
    behind: Seq<char>,
)
    requires
        word.len() > 0,
        forall|k: int| 0 <= k < word.len() ==> !is_space(#[trigger] word[k]),
        forall|k: int| 0 <= k < gap.len() ==> is_space(#[trigger] gap[k]),
        before.len() > 0 ==> is_space(before.last()),
    ensures
        (Editing {
            text: before + word + gap + behind,
            at: (before.len() + word.len() + gap.len()) as int,
        }).word_deleted() == (Editing { text: before + behind, at: before.len() as int }),
{
    let s = before + word + gap + behind;
    let a = before.len() as int;
    let b = a + word.len() as int;
    let c = b + gap.len() as int;
    assert forall|k: int| b <= k < c implies is_space(#[trigger] s[k]) == true by {
        assert(s[k] == gap[k - b]);
    }
    assert forall|k: int| a <= k < b implies is_space(#[trigger] s[k]) == false by {
        assert(s[k] == word[k - a]);
    }
    assert(s[b - 1] == word[word.len() - 1]);
    lemma_back_over_run(s, b, c, true);
    lemma_back_over_run(s, a, b, false);
    assert(s.take(a) + s.skip(c) =~= before + behind);
}

/// Home and end go to the two ends of the row that the caret is on.
pub proof fn law_home_and_end_are_the_ends_of_the_row(e: Editing, width: nat)
    requires
        e.wf(),
    ensures
        e.moved_home(width).at <= e.at <= e.moved_end(width).at,
        layout_rows(e.text, width).contains((e.moved_home(width).at, e.moved_end(width).at)),
{
    law_the_caret_is_on_its_row(e.text, e.at, width);
    let rows = layout_rows(e.text, width);
    assert(rows[e.row(width)] == (e.moved_home(width).at, e.moved_end(width).at));
}

/// Going up or down goes to the next row in that direction, not further right
/// than the caret was, and as far as the row goes.
pub proof fn law_the_caret_goes_to_the_next_row(e: Editing, width: nat, delta: int)
    requires
        e.wf(),
        delta == 1 || delta == -1,
        e.can_move(width, delta),
    ensures
        ({
            let to = e.moved_vertically(width, delta);
            let rows = layout_rows(e.text, width);
            let start = rows[to.row(width)].0;
            &&& to.row(width) == e.row(width) + delta
            &&& sum_cols(e.text.subrange(start, to.at)) <= str_columns(e.before_caret(width))
            &&& to.at < last_on(rows, to.row(width)) ==> sum_cols(
                e.text.subrange(start, to.at + 1),
            ) > str_columns(e.before_caret(width))
        }),
{
    law_rows_partition_the_text(e.text, width);
    let rows = layout_rows(e.text, width);
    let target = e.row(width) + delta;
    let col = str_columns(e.before_caret(width)) as nat;
    lemma_fit(e.text, rows[target].0, last_on(rows, target), 0, col);
    law_a_position_on_a_row_is_shown_there(
        e.text,
        width,
        target,
        e.moved_vertically(width, delta).at,
    );
}

} // verus!
