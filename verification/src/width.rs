//! Display columns: how wide characters and strings are on a terminal.
use unicode_width::{UnicodeWidthChar, UnicodeWidthStr};
use vstd::prelude::*;

verus! {

/// What `unicode_width` gives as the width of one character: `None` for a
/// control character.
pub uninterp spec fn char_columns(c: char) -> Option<usize>;

/// What `unicode_width` gives as the width of a string. It is not the sum of
/// the characters' widths: sequences such as joined emoji are narrower.
pub uninterp spec fn str_columns(s: Seq<char>) -> usize;

/// Printable ASCII.
pub open spec fn is_plain(c: char) -> bool {
    0x20 <= c as u32 <= 0x7e
}

/// `UnicodeWidthChar::width`. No character is wider than three columns, a
/// printable ASCII character takes one, and the ASCII control characters have
/// no width.
#[verifier::external_body]
pub(crate) fn char_width(c: char) -> (w: Option<usize>)
    ensures
        w == char_columns(c),
        w is Some ==> w->0 <= 3,
        is_plain(c) ==> w == Some(1usize),
        (c as u32) < 0x20 || c as u32 == 0x7f ==> w is None,
{
    UnicodeWidthChar::width(c)
}

/// `UnicodeWidthStr::width`. A string of printable ASCII is as wide as it is
/// long.
#[verifier::external_body]
pub(crate) fn str_width(s: &str) -> (w: usize)
    ensures
        w == str_columns(s@),
        (forall|i: int| 0 <= i < s@.len() ==> is_plain(#[trigger] s@[i])) ==> w == s@.len(),
{
    UnicodeWidthStr::width(s)
}

/// Columns of one character, none for a control character.
pub open spec fn cols(c: char) -> nat {
    match char_columns(c) {
        Some(w) => w as nat,
        None => 0,
    }
}

/// The characters' columns, added up.
pub open spec fn sum_cols(s: Seq<char>) -> nat
    decreases s.len(),
{
    if s.len() == 0 {
        0
    } else {
        sum_cols(s.drop_last()) + cols(s.last())
    }
}

pub proof fn lemma_sum_cols_concat(a: Seq<char>, b: Seq<char>)
    ensures
        sum_cols(a + b) == sum_cols(a) + sum_cols(b),
    decreases b.len(),
{
    if b.len() == 0 {
        assert(a + b =~= a);
    } else {
        assert((a + b).drop_last() =~= a + b.drop_last());
        lemma_sum_cols_concat(a, b.drop_last());
    }
}

/// Columns of one character, none for a control character.
pub fn columns(c: char) -> (w: usize)
    ensures
        w == cols(c),
        w <= 3,
{
    match char_width(c) {
        Some(w) => w,
        None => 0,
    }
}

/// Whether `used + more` columns go past `limit`.
pub fn exceeds(used: usize, more: usize, limit: usize) -> (r: bool)
    ensures
        r == (used + more > limit),
{
    used > limit || more > limit - used
}

/// The first position in `s[i..to]` whose character no longer fits into
/// `limit` columns when `used` are taken already; `to` where all fit.
pub open spec fn fit(s: Seq<char>, i: int, to: int, used: nat, limit: nat) -> int
    decreases to - i,
{
    if i < to && used + cols(s[i]) <= limit {
        fit(s, i + 1, to, used + cols(s[i]), limit)
    } else {
        i
    }
}

/// What fits takes at most the limit, and the next character would go past it.
pub proof fn lemma_fit(s: Seq<char>, i: int, to: int, used: nat, limit: nat)
    requires
        0 <= i <= to <= s.len(),
        used <= limit,
    ensures
        i <= fit(s, i, to, used, limit) <= to,
        used + sum_cols(s.subrange(i, fit(s, i, to, used, limit))) <= limit,
        fit(s, i, to, used, limit) < to ==> used + sum_cols(
            s.subrange(i, fit(s, i, to, used, limit) + 1),
        ) > limit,
    decreases to - i,
{
    if i < to && used + cols(s[i]) <= limit {
        lemma_fit(s, i + 1, to, used + cols(s[i]), limit);
        let k = fit(s, i + 1, to, used + cols(s[i]), limit);
        lemma_one(s[i]);
        assert(s.subrange(i, k) =~= seq![s[i]] + s.subrange(i + 1, k));
        lemma_sum_cols_concat(seq![s[i]], s.subrange(i + 1, k));
        if k < to {
            assert(s.subrange(i, k + 1) =~= seq![s[i]] + s.subrange(i + 1, k + 1));
            lemma_sum_cols_concat(seq![s[i]], s.subrange(i + 1, k + 1));
        }
    } else {
        assert(s.subrange(i, i) =~= Seq::<char>::empty());
        if i < to {
            lemma_one(s[i]);
            assert(s.subrange(i, i + 1) =~= seq![s[i]]);
        }
    }
}

proof fn lemma_one(c: char)
    ensures
        sum_cols(seq![c]) == cols(c),
{
    assert(seq![c].drop_last() =~= Seq::<char>::empty());
    assert(sum_cols(seq![c].drop_last()) == 0);
}

/// The first position in `cs[from..to]` that no longer fits into `limit` columns.
pub fn fitting(cs: &Vec<char>, from: usize, to: usize, limit: usize) -> (r: usize)
    requires
        from <= to <= cs@.len(),
    ensures
        r == fit(cs@, from as int, to as int, 0, limit as nat),
        from <= r <= to,
{
    let mut i: usize = from;
    let mut used: usize = 0;
    while i < to
        invariant
            from <= i <= to <= cs@.len(),
            used <= limit,
            fit(cs@, i as int, to as int, used as nat, limit as nat) == fit(
                cs@,
                from as int,
                to as int,
                0,
                limit as nat,
            ),
        decreases to - i,
    {
        let cw = columns(cs[i]);
        if exceeds(used, cw, limit) {
            return i;
        }
        used += cw;
        i += 1;
    }
    i
}

} // verus!
