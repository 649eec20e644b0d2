//! Word-level emphasis: which words of an edited line changed.
use crate::preview::highlight::one_line;
use crate::text::{chars_of, is_space, is_whitespace};
use crate::textarea::{lemma_pairs_push, pairs};
use similar::TextDiff;
use vstd::prelude::*;

verus! {

broadcast use vstd::string::group_string_axioms;

/// What happened to a line or a word.
#[derive(Debug, Clone, Copy, PartialEq, Eq, Structural)]
pub enum ChangeTag {
    Equal,
    Delete,
    Insert,
}

/// One line of a diff: its indices on the side or sides it is on.
#[derive(Debug, Clone, Copy, PartialEq, Eq, Structural)]
pub struct LineChange {
    pub tag: ChangeTag,
    pub old_index: Option<usize>,
    pub new_index: Option<usize>,
}

/// One word, or one gap between words, of a diff.
#[derive(Debug)]
pub struct WordChange {
    pub tag: ChangeTag,
    pub text: String,
}

pub type WordView = (ChangeTag, Seq<char>);

pub open spec fn words_view(s: Seq<WordChange>) -> Seq<WordView> {
    s.map_values(|w: WordChange| (w.tag, w.text@))
}

/// How many of the first `n` changes are on the side that `other` changes are not on.
pub open spec fn lines_before(c: Seq<LineChange>, other: ChangeTag, n: int) -> nat
    decreases n,
{
    if n <= 0 {
        0
    } else {
        lines_before(c, other, n - 1) + if c[n - 1].tag != other {
            1nat
        } else {
            0
        }
    }
}

/// Both sides are counted up from zero without a gap: a deleted line has no
/// new index, an inserted one no old index, any other has both.
pub open spec fn in_step(c: Seq<LineChange>) -> bool {
    forall|i: int|
        0 <= i < c.len() ==> {
            let x = #[trigger] c[i];
            &&& if x.tag == ChangeTag::Insert {
                x.old_index is None
            } else {
                x.old_index is Some && x.old_index->0 == lines_before(c, ChangeTag::Insert, i)
            }
            &&& if x.tag == ChangeTag::Delete {
                x.new_index is None
            } else {
                x.new_index is Some && x.new_index->0 == lines_before(c, ChangeTag::Delete, i)
            }
        }
}

/// The text of the words that are not `other`.
pub open spec fn side_text(c: Seq<WordView>, other: ChangeTag, n: int) -> Seq<char>
    decreases n,
{
    if n <= 0 {
        Seq::empty()
    } else if c[n - 1].0 != other {
        side_text(c, other, n - 1) + c[n - 1].1
    } else {
        side_text(c, other, n - 1)
    }
}

/// The words that were not inserted make up the old text, those that were not
/// deleted the new one.
pub open spec fn rebuilds(c: Seq<WordView>, old_text: Seq<char>, new_text: Seq<char>) -> bool {
    &&& side_text(c, ChangeTag::Insert, c.len() as int) == old_text
    &&& side_text(c, ChangeTag::Delete, c.len() as int) == new_text
}

/// The changes with the text of each.
pub open spec fn with_texts(c: Seq<LineChange>, texts: Seq<Seq<char>>) -> Seq<WordView> {
    Seq::new(c.len(), |i: int| (c[i].tag, texts[i]))
}

/// The pieces of the side that `other` changes are not on, of the first `n` changes.
pub open spec fn side_pieces(c: Seq<WordView>, other: ChangeTag, n: int) -> Seq<Seq<char>>
    decreases n,
{
    if n <= 0 {
        Seq::empty()
    } else if c[n - 1].0 != other {
        side_pieces(c, other, n - 1).push(c[n - 1].1)
    } else {
        side_pieces(c, other, n - 1)
    }
}

/// A line that goes before `next` has ended.
pub open spec fn ended(line: Seq<char>, next: char) -> bool {
    line.last() == '\n' || (line.last() == '\r' && next != '\n')
}

/// The pieces are lines: none is empty, none goes on behind a line feed, and
/// each but the last ends in one, or in a carriage return that none follows.
pub open spec fn cut_at_line_ends(pieces: Seq<Seq<char>>) -> bool {
    &&& forall|k: int|
        0 <= k < pieces.len() ==> (#[trigger] pieces[k]).len() > 0 && one_line(pieces[k])
    &&& forall|k: int| 0 <= k < pieces.len() - 1 ==> #[trigger] ended(pieces[k], pieces[k + 1][0])
}

/// The changes with these texts are those of two texts, line by line.
pub open spec fn line_by_line(
    c: Seq<WordView>,
    old_text: Seq<char>,
    new_text: Seq<char>,
) -> bool {
    &&& rebuilds(c, old_text, new_text)
    &&& cut_at_line_ends(side_pieces(c, ChangeTag::Insert, c.len() as int))
    &&& cut_at_line_ends(side_pieces(c, ChangeTag::Delete, c.len() as int))
}

/// The changes are those of two texts: each stands for a line, an equal one for
/// the same line on both sides, and the lines make up both texts.
pub open spec fn rebuilds_lines(
    c: Seq<LineChange>,
    old_text: Seq<char>,
    new_text: Seq<char>,
) -> bool {
    exists|texts: Seq<Seq<char>>|
        texts.len() == c.len() && line_by_line(#[trigger] with_texts(c, texts), old_text, new_text)
}

pub open spec fn all_equal(c: Seq<LineChange>) -> bool {
    forall|i: int| 0 <= i < c.len() ==> (#[trigger] c[i]).tag == ChangeTag::Equal
}

/// What `similar` finds line by line.
pub uninterp spec fn line_diff(old_text: Seq<char>, new_text: Seq<char>) -> Seq<LineChange>;

/// What `similar` finds word by word.
pub uninterp spec fn word_diff(old_text: Seq<char>, new_text: Seq<char>) -> Seq<WordView>;

/// `TextDiff::from_lines` and `iter_all_changes`: the lines of both texts in
/// order, each with its indices. The lines that were not inserted make up the
/// old text and those that were not deleted the new one. A line ends behind its
/// line feed, or behind a carriage return that no line feed follows, and only
/// the last may end otherwise. Between equal texts nothing was changed.
#[verifier::external_body]
pub(crate) fn line_changes(old_text: &str, new_text: &str) -> (r: Vec<LineChange>)
    ensures
        r@ == line_diff(old_text@, new_text@),
        in_step(r@),
        rebuilds_lines(r@, old_text@, new_text@),
        old_text@ == new_text@ ==> all_equal(r@),
{
    let tag = |t: similar::ChangeTag| match t {
        similar::ChangeTag::Equal => ChangeTag::Equal,
        similar::ChangeTag::Delete => ChangeTag::Delete,
        similar::ChangeTag::Insert => ChangeTag::Insert,
    };
    TextDiff::from_lines(old_text, new_text).iter_all_changes().map(|c| LineChange {
        tag: tag(c.tag()),
        old_index: c.old_index(),
        new_index: c.new_index(),
    }).collect()
}

/// `TextDiff::from_words` and `iter_all_changes`: the words and gaps of both
/// texts in order.
#[verifier::external_body]
pub(crate) fn word_changes(old_text: &str, new_text: &str) -> (r: Vec<WordChange>)
    ensures
        words_view(r@) == word_diff(old_text@, new_text@),
        rebuilds(words_view(r@), old_text@, new_text@),
{
    let tag = |t: similar::ChangeTag| match t {
        similar::ChangeTag::Equal => ChangeTag::Equal,
        similar::ChangeTag::Delete => ChangeTag::Delete,
        similar::ChangeTag::Insert => ChangeTag::Insert,
    };
    TextDiff::from_words(old_text, new_text).iter_all_changes().map(|c| WordChange {
        tag: tag(c.tag()),
        text: c.value().to_string(),
    }).collect()
}

proof fn lemma_equal_sides(c: Seq<WordView>, n: int)
    requires
        0 <= n <= c.len(),
        forall|i: int| 0 <= i < c.len() ==> (#[trigger] c[i]).0 == ChangeTag::Equal,
    ensures
        side_text(c, ChangeTag::Insert, n) == side_text(c, ChangeTag::Delete, n),
    decreases n,
{
    if n > 0 {
        lemma_equal_sides(c, n - 1);
    }
}

/// Where nothing was changed, the texts are equal.
pub proof fn lemma_all_equal(c: Seq<LineChange>, old_text: Seq<char>, new_text: Seq<char>)
    requires
        rebuilds_lines(c, old_text, new_text),
        all_equal(c),
    ensures
        old_text == new_text,
{
    let texts = choose|texts: Seq<Seq<char>>|
        texts.len() == c.len() && line_by_line(#[trigger] with_texts(c, texts), old_text, new_text);
    lemma_equal_sides(with_texts(c, texts), c.len() as int);
}

// ---- similarity ------------------------------------------------------------

/// How many of two texts' words match: `2 * matches` out of `total`.
#[derive(Debug, Clone, Copy, PartialEq, Eq, Structural)]
pub struct Ratio {
    pub matches: usize,
    /// Words of both texts.
    pub total: u128,
}

/// Changes among the first `n` with `tag`.
pub open spec fn tagged(c: Seq<WordView>, tag: ChangeTag, n: int) -> nat
    decreases n,
{
    if n <= 0 {
        0
    } else {
        tagged(c, tag, n - 1) + if c[n - 1].0 == tag {
            1nat
        } else {
            0
        }
    }
}

/// Two lines below this similarity, seven words in ten, are different lines,
/// not one line edited.
pub open spec fn similar_enough(matches: nat, total: nat) -> bool {
    total == 0 || 20 * matches >= 7 * total
}

/// The words match well enough for one line to be the other, edited.
pub open spec fn words_similar(c: Seq<WordView>) -> bool {
    let n = c.len() as int;
    let same = tagged(c, ChangeTag::Equal, n);
    similar_enough(
        same,
        2 * same + tagged(c, ChangeTag::Delete, n) + tagged(c, ChangeTag::Insert, n),
    )
}

impl Ratio {
    pub fn is_similar(&self) -> (r: bool)
        requires
            self.total <= 4 * usize::MAX,
        ensures
            r == similar_enough(self.matches as nat, self.total as nat),
    {
        self.total == 0 || 20 * (self.matches as u128) >= 7 * self.total
    }
}

// ---- changed ranges --------------------------------------------------------

/// A range from `pos` behind the ranges `s`; one that starts where the last
/// ends extends it.
pub open spec fn add_range(s: Seq<(int, int)>, pos: int, len: int) -> Seq<(int, int)> {
    if len == 0 {
        s
    } else if s.len() > 0 && s.last().1 == pos {
        s.drop_last().push((s.last().0, pos + len))
    } else {
        s.push((pos, pos + len))
    }
}

/// The character ranges of the first `n` changes that are `own`, on the side
/// that `other` changes are not on.
pub open spec fn changed(
    c: Seq<WordView>,
    own: ChangeTag,
    other: ChangeTag,
    n: int,
) -> Seq<(int, int)>
    decreases n,
{
    if n <= 0 {
        Seq::empty()
    } else if c[n - 1].0 == own {
        add_range(
            changed(c, own, other, n - 1),
            side_text(c, other, n - 1).len() as int,
            c[n - 1].1.len() as int,
        )
    } else {
        changed(c, own, other, n - 1)
    }
}

pub open spec fn all_space(text: Seq<char>, from: int, to: int) -> bool {
    forall|i: int| from <= i < to ==> is_space(#[trigger] text[i])
}

/// Ranges with nothing but white space between them become one, so a changed
/// phrase is one block.
pub open spec fn coalesced(r: Seq<(int, int)>, text: Seq<char>, n: int) -> Seq<(int, int)>
    decreases n,
{
    if n <= 0 {
        Seq::empty()
    } else {
        let out = coalesced(r, text, n - 1);
        if out.len() > 0 && all_space(text, out.last().1, r[n - 1].0) {
            out.drop_last().push((out.last().0, r[n - 1].1))
        } else {
            out.push(r[n - 1])
        }
    }
}

/// The first position in `a..b` that is not white space; `b` where all are.
pub open spec fn space_end(text: Seq<char>, a: int, b: int) -> int
    decreases b - a,
{
    if a < b && is_space(text[a]) {
        space_end(text, a + 1, b)
    } else {
        a
    }
}

/// Where the white space at the end of `a..b` starts.
pub open spec fn space_start(text: Seq<char>, a: int, b: int) -> int
    decreases b - a,
{
    if a < b && is_space(text[b - 1]) {
        space_start(text, a, b - 1)
    } else {
        b
    }
}

/// Ranges without the white space at their edges; those of white space alone go.
pub open spec fn edges_trimmed(r: Seq<(int, int)>, text: Seq<char>, n: int) -> Seq<(int, int)>
    decreases n,
{
    if n <= 0 {
        Seq::empty()
    } else {
        let before = edges_trimmed(r, text, n - 1);
        let a = space_end(text, r[n - 1].0, r[n - 1].1);
        let b = space_start(text, a, r[n - 1].1);
        if a < b {
            before.push((a, b))
        } else {
            before
        }
    }
}

/// The emphasized ranges of one side's text.
pub open spec fn emphasis(
    c: Seq<WordView>,
    own: ChangeTag,
    other: ChangeTag,
    text: Seq<char>,
) -> Seq<(int, int)> {
    let r = changed(c, own, other, c.len() as int);
    let m = coalesced(r, text, r.len() as int);
    edges_trimmed(m, text, m.len() as int)
}

/// The emphasized ranges of the old line.
pub open spec fn old_emphasis(c: Seq<WordView>, text: Seq<char>) -> Seq<(int, int)> {
    emphasis(c, ChangeTag::Delete, ChangeTag::Insert, text)
}

/// The emphasized ranges of the new line.
pub open spec fn new_emphasis(c: Seq<WordView>, text: Seq<char>) -> Seq<(int, int)> {
    emphasis(c, ChangeTag::Insert, ChangeTag::Delete, text)
}

/// The ranges are inside a text of `len` characters, in order and apart.
pub open spec fn ordered(r: Seq<(int, int)>, len: int) -> bool {
    &&& forall|i: int| 0 <= i < r.len() ==> 0 <= (#[trigger] r[i]).0 < r[i].1 <= len
    &&& forall|i: int, j: int|
        0 <= i < j < r.len() ==> (#[trigger] r[i]).1 <= (#[trigger] r[j]).0
}

proof fn lemma_side_len(c: Seq<WordView>, other: ChangeTag, n: int, m: int)
    requires
        0 <= n <= m <= c.len(),
    ensures
        side_text(c, other, n).len() <= side_text(c, other, m).len(),
    decreases m - n,
{
    if n < m {
        lemma_side_len(c, other, n, m - 1);
    }
}

proof fn lemma_changed_ordered(c: Seq<WordView>, own: ChangeTag, other: ChangeTag, n: int)
    requires
        0 <= n <= c.len(),
        own != other,
    ensures
        ordered(changed(c, own, other, n), side_text(c, other, n).len() as int),
    decreases n,
{
    if n > 0 {
        lemma_changed_ordered(c, own, other, n - 1);
        lemma_side_len(c, other, n - 1, n);
    }
}

proof fn lemma_coalesced_ordered(r: Seq<(int, int)>, text: Seq<char>, n: int)
    requires
        0 <= n <= r.len(),
        ordered(r, text.len() as int),
    ensures
        ordered(coalesced(r, text, n), text.len() as int),
        coalesced(r, text, n).len() > 0 ==> n > 0 && coalesced(r, text, n).last().1 == r[n - 1].1,
        n > 0 ==> coalesced(r, text, n).len() > 0,
    decreases n,
{
    if n > 0 {
        lemma_coalesced_ordered(r, text, n - 1);
        let out = coalesced(r, text, n - 1);
        if n > 1 {
            assert(r[n - 2].1 <= r[n - 1].0);
        }
        assert forall|i: int| 0 <= i < out.len() implies (#[trigger] out[i]).1 <= r[n - 1].0 by {
            if i < out.len() - 1 {
                assert(out[i].1 <= out[out.len() - 1].0);
            }
        }
    }
}

proof fn lemma_space(text: Seq<char>, a: int, b: int)
    requires
        0 <= a <= b <= text.len(),
    ensures
        a <= space_end(text, a, b) <= b,
        a <= space_start(text, a, b) <= b,
    decreases b - a,
{
    if a < b {
        if is_space(text[a]) {
            lemma_space(text, a + 1, b);
        }
        if is_space(text[b - 1]) {
            lemma_space(text, a, b - 1);
        }
    }
}

proof fn lemma_trimmed_ordered(r: Seq<(int, int)>, text: Seq<char>, n: int)
    requires
        0 <= n <= r.len(),
        ordered(r, text.len() as int),
    ensures
        ordered(edges_trimmed(r, text, n), text.len() as int),
        forall|i: int|
            0 <= i < edges_trimmed(r, text, n).len() ==> n > 0 && (#[trigger] edges_trimmed(
                r,
                text,
                n,
            )[i]).1 <= r[n - 1].1,
    decreases n,
{
    if n > 0 {
        lemma_trimmed_ordered(r, text, n - 1);
        let before = edges_trimmed(r, text, n - 1);
        let (x, y) = r[n - 1];
        lemma_space(text, x, y);
        let a = space_end(text, x, y);
        lemma_space(text, a, y);
        if n > 1 {
            assert(r[n - 2].1 <= r[n - 1].0);
        }
        let now = edges_trimmed(r, text, n);
        assert forall|i: int, j: int| 0 <= i < j < now.len() implies (#[trigger] now[i]).1 <= (
        #[trigger] now[j]).0 by {
            assert(now[i] == before[i]);
        }
        assert forall|i: int| 0 <= i < now.len() implies (#[trigger] now[i]).1 <= r[n - 1].1 by {
            if i < before.len() {
                assert(now[i] == before[i]);
            }
        }
    }
}

/// Emphasized ranges are inside their line, in order, apart, and none starts
/// or ends with white space.
pub proof fn law_emphasis_is_ordered(
    c: Seq<WordView>,
    own: ChangeTag,
    other: ChangeTag,
    text: Seq<char>,
)
    requires
        own != other,
        side_text(c, other, c.len() as int) == text,
    ensures
        ordered(emphasis(c, own, other, text), text.len() as int),
        forall|i: int|
            0 <= i < emphasis(c, own, other, text).len() ==> !is_space(
                text[(#[trigger] emphasis(c, own, other, text)[i]).0],
            ) && !is_space(text[emphasis(c, own, other, text)[i].1 - 1]),
{
    let r = changed(c, own, other, c.len() as int);
    lemma_changed_ordered(c, own, other, c.len() as int);
    let m = coalesced(r, text, r.len() as int);
    lemma_coalesced_ordered(r, text, r.len() as int);
    lemma_trimmed_ordered(m, text, m.len() as int);
    lemma_trimmed_edges(m, text, m.len() as int);
}

proof fn lemma_space_edges(text: Seq<char>, a: int, b: int)
    requires
        0 <= a <= b <= text.len(),
    ensures
        space_end(text, a, b) < b ==> !is_space(text[space_end(text, a, b)]),
        a < space_start(text, a, b) ==> !is_space(text[space_start(text, a, b) - 1]),
    decreases b - a,
{
    if a < b {
        if is_space(text[a]) {
            lemma_space_edges(text, a + 1, b);
        }
        if is_space(text[b - 1]) {
            lemma_space_edges(text, a, b - 1);
        }
    }
}

proof fn lemma_trimmed_edges(r: Seq<(int, int)>, text: Seq<char>, n: int)
    requires
        0 <= n <= r.len(),
        ordered(r, text.len() as int),
    ensures
        forall|i: int|
            0 <= i < edges_trimmed(r, text, n).len() ==> !is_space(
                text[(#[trigger] edges_trimmed(r, text, n)[i]).0],
            ) && !is_space(text[edges_trimmed(r, text, n)[i].1 - 1]),
    decreases n,
{
    if n > 0 {
        lemma_trimmed_edges(r, text, n - 1);
        let before = edges_trimmed(r, text, n - 1);
        let now = edges_trimmed(r, text, n);
        let (x, y) = r[n - 1];
        lemma_space(text, x, y);
        lemma_space_edges(text, x, y);
        let a = space_end(text, x, y);
        lemma_space(text, a, y);
        lemma_space_edges(text, a, y);
        assert forall|i: int| 0 <= i < now.len() implies !is_space(text[(#[trigger] now[i]).0])
            && !is_space(text[now[i].1 - 1]) by {
            if i < before.len() {
                assert(now[i] == before[i]);
            }
        }
    }
}

fn push_range(ranges: &mut Vec<(usize, usize)>, pos: usize, len: usize)
    requires
        pos + len <= usize::MAX,
    ensures
        pairs(final(ranges)@) == add_range(pairs(old(ranges)@), pos as int, len as int),
{
    if len == 0 {
        return ;
    }
    let n = ranges.len();
    let ghost before = pairs(ranges@);
    if n > 0 && ranges[n - 1].1 == pos {
        let start = ranges[n - 1].0;
        assert(before.last() == (start as int, pos as int));
        ranges.set(n - 1, (start, pos + len));
        assert(pairs(ranges@) =~= before.drop_last().push((start as int, pos + len)));
    } else {
        proof {
            if n > 0 {
                assert(before.last().1 == ranges@[n - 1].1);
            }
            lemma_pairs_push(ranges@, (pos, (pos + len) as usize));
        }
        ranges.push((pos, pos + len));
    }
}

/// Merge ranges whose gap is all white space.
fn coalesce(ranges: &Vec<(usize, usize)>, chars: &Vec<char>) -> (r: Vec<(usize, usize)>)
    requires
        ordered(pairs(ranges@), chars@.len() as int),
    ensures
        pairs(r@) == coalesced(pairs(ranges@), chars@, ranges@.len() as int),
{
    let ghost all = pairs(ranges@);
    let mut out: Vec<(usize, usize)> = Vec::new();
    let mut i: usize = 0;
    assert(pairs(out@) =~= coalesced(all, chars@, 0));
    while i < ranges.len()
        invariant
            i <= ranges@.len(),
            all == pairs(ranges@),
            ordered(all, chars@.len() as int),
            pairs(out@) == coalesced(all, chars@, i as int),
        decreases ranges@.len() - i,
    {
        let ghost so_far = pairs(out@);
        let start = ranges[i].0;
        let end = ranges[i].1;
        proof {
            assert(all[i as int] == (start as int, end as int));
            lemma_coalesced_ordered(all, chars@, i as int);
            if i > 0 {
                assert(all[i - 1].1 <= all[i as int].0);
            }
        }
        let n = out.len();
        let mut joined = false;
        if n > 0 {
            assert(so_far.last() == (out@[n - 1].0 as int, out@[n - 1].1 as int));
            let mut k: usize = out[n - 1].1;
            joined = true;
            while k < start
                invariant
                    out@[n - 1].1 <= k <= start <= chars@.len(),
                    0 < n == out@.len(),
                    joined == all_space(chars@, out@[n - 1].1 as int, k as int),
                decreases start - k,
            {
                if !is_whitespace(chars[k]) {
                    assert(!is_space(chars@[k as int]));
                    joined = false;
                }
                k += 1;
            }
        }
        if joined {
            let first = out[n - 1].0;
            out.set(n - 1, (first, end));
            assert(pairs(out@) =~= so_far.drop_last().push((first as int, end as int)));
        } else {
            proof {
                lemma_pairs_push(out@, (start, end));
            }
            out.push((start, end));
        }
        i += 1;
    }
    out
}

/// Shrink each range off leading and trailing white space; drop all-white ones.
fn trim_edges(ranges: &Vec<(usize, usize)>, chars: &Vec<char>) -> (r: Vec<(usize, usize)>)
    requires
        ordered(pairs(ranges@), chars@.len() as int),
    ensures
        pairs(r@) == edges_trimmed(pairs(ranges@), chars@, ranges@.len() as int),
{
    let ghost all = pairs(ranges@);
    let mut out: Vec<(usize, usize)> = Vec::new();
    let mut i: usize = 0;
    assert(pairs(out@) =~= edges_trimmed(all, chars@, 0));
    while i < ranges.len()
        invariant
            i <= ranges@.len(),
            all == pairs(ranges@),
            ordered(all, chars@.len() as int),
            pairs(out@) == edges_trimmed(all, chars@, i as int),
        decreases ranges@.len() - i,
    {
        let mut a: usize = ranges[i].0;
        let mut b: usize = ranges[i].1;
        let ghost x = a as int;
        let ghost y = b as int;
        assert(all[i as int] == (x, y));
        while a < b && is_whitespace(chars[a])
            invariant
                a <= b <= chars@.len(),
                space_end(chars@, a as int, b as int) == space_end(chars@, x, b as int),
            decreases b - a,
        {
            a += 1;
        }
        while b > a && is_whitespace(chars[b - 1])
            invariant
                a <= b <= chars@.len(),
                space_start(chars@, a as int, b as int) == space_start(chars@, a as int, y),
            decreases b - a,
        {
            b -= 1;
        }
        if a < b {
            proof {
                lemma_pairs_push(out@, (a, b));
            }
            out.push((a, b));
        }
        i += 1;
    }
    out
}

/// Word-level similarity of `(old, new)`, and the changed character ranges on
/// each side, off white space and joined across gaps of white space alone.
pub fn word_emphasis(old_text: &str, new_text: &str) -> (r: (
    Ratio,
    Vec<(usize, usize)>,
    Vec<(usize, usize)>,
))
    ensures
        similar_enough(r.0.matches as nat, r.0.total as nat) == words_similar(
            word_diff(old_text@, new_text@),
        ),
        r.0.total <= 4 * usize::MAX,
        pairs(r.1@) == old_emphasis(word_diff(old_text@, new_text@), old_text@),
        pairs(r.2@) == new_emphasis(word_diff(old_text@, new_text@), new_text@),
{
    let changes = word_changes(old_text, new_text);
    emphasis_of(&changes, old_text, new_text)
}

/// The similarity and the changed ranges that a word diff gives.
pub fn emphasis_of(changes: &Vec<WordChange>, old_text: &str, new_text: &str) -> (r: (
    Ratio,
    Vec<(usize, usize)>,
    Vec<(usize, usize)>,
))
    requires
        rebuilds(words_view(changes@), old_text@, new_text@),
    ensures
        r.0.matches == tagged(words_view(changes@), ChangeTag::Equal, changes@.len() as int),
        r.0.total == 2 * r.0.matches + tagged(
            words_view(changes@),
            ChangeTag::Delete,
            changes@.len() as int,
        ) + tagged(words_view(changes@), ChangeTag::Insert, changes@.len() as int),
        r.0.total <= 4 * usize::MAX,
        pairs(r.1@) == old_emphasis(words_view(changes@), old_text@),
        pairs(r.2@) == new_emphasis(words_view(changes@), new_text@),
{
    let ghost c = words_view(changes@);
    let ghost len = c.len() as int;
    let old_chars = chars_of(old_text);
    let new_chars = chars_of(new_text);
    let old_len = old_chars.len();
    let new_len = new_chars.len();
    let mut old_ranges: Vec<(usize, usize)> = Vec::new();
    let mut new_ranges: Vec<(usize, usize)> = Vec::new();
    let mut old_pos: usize = 0;
    let mut new_pos: usize = 0;
    let mut same: usize = 0;
    let mut gone: usize = 0;
    let mut added: usize = 0;
    let mut i: usize = 0;
    assert(pairs(old_ranges@) =~= Seq::<(int, int)>::empty());
    assert(pairs(new_ranges@) =~= Seq::<(int, int)>::empty());
    while i < changes.len()
        invariant
            i <= changes@.len(),
            c == words_view(changes@),
            len == c.len(),
            old_len == side_text(c, ChangeTag::Insert, len).len(),
            new_len == side_text(c, ChangeTag::Delete, len).len(),
            old_pos == side_text(c, ChangeTag::Insert, i as int).len(),
            new_pos == side_text(c, ChangeTag::Delete, i as int).len(),
            pairs(old_ranges@) == changed(c, ChangeTag::Delete, ChangeTag::Insert, i as int),
            pairs(new_ranges@) == changed(c, ChangeTag::Insert, ChangeTag::Delete, i as int),
            same == tagged(c, ChangeTag::Equal, i as int),
            gone == tagged(c, ChangeTag::Delete, i as int),
            added == tagged(c, ChangeTag::Insert, i as int),
            same + gone + added == i,
        decreases changes@.len() - i,
    {
        let n = changes[i].text.as_str().unicode_len();
        proof {
            assert(c[i as int] == (changes@[i as int].tag, changes@[i as int].text@));
            let now = i + 1;
            assert(c[now - 1] == c[i as int]);
            assert(side_text(c, ChangeTag::Insert, now - 1).len() == old_pos);
            assert(side_text(c, ChangeTag::Delete, now - 1).len() == new_pos);
            lemma_side_len(c, ChangeTag::Insert, now, len);
            lemma_side_len(c, ChangeTag::Delete, now, len);
        }
        match changes[i].tag {
            ChangeTag::Equal => {
                old_pos += n;
                new_pos += n;
                same += 1;
            },
            ChangeTag::Delete => {
                push_range(&mut old_ranges, old_pos, n);
                old_pos += n;
                gone += 1;
            },
            ChangeTag::Insert => {
                push_range(&mut new_ranges, new_pos, n);
                new_pos += n;
                added += 1;
            },
        }
        i += 1;
    }
    proof {
        lemma_changed_ordered(c, ChangeTag::Delete, ChangeTag::Insert, len);
        lemma_changed_ordered(c, ChangeTag::Insert, ChangeTag::Delete, len);
        lemma_coalesced_ordered(pairs(old_ranges@), old_chars@, old_ranges@.len() as int);
        lemma_coalesced_ordered(pairs(new_ranges@), new_chars@, new_ranges@.len() as int);
    }
    let old_joined = coalesce(&old_ranges, &old_chars);
    let new_joined = coalesce(&new_ranges, &new_chars);
    let old_e = trim_edges(&old_joined, &old_chars);
    let new_e = trim_edges(&new_joined, &new_chars);
    let total: u128 = 2 * (same as u128) + gone as u128 + added as u128;
    (Ratio { matches: same, total }, old_e, new_e)
}

// ---- which characters are emphasized -------------------------------------------

/// Position `p` is in one of the ranges.
pub open spec fn covered(r: Seq<(int, int)>, p: int) -> bool {
    exists|i: int| 0 <= i < r.len() && (#[trigger] r[i]).0 <= p < r[i].1
}

/// Word `j` is `own`, and character `p` of its side's text is in it.
pub open spec fn in_word(c: Seq<WordView>, own: ChangeTag, other: ChangeTag, j: int, p: int) -> bool {
    c[j].0 == own && side_text(c, other, j).len() <= p < side_text(c, other, j).len()
        + c[j].1.len()
}

/// Character `p` is in one of the first `n` words that are `own`.
pub open spec fn in_words(c: Seq<WordView>, own: ChangeTag, other: ChangeTag, n: int, p: int) -> bool {
    exists|j: int| 0 <= j < n && #[trigger] in_word(c, own, other, j, p)
}

proof fn lemma_add_range_covers(s: Seq<(int, int)>, pos: int, len: int, p: int)
    requires
        len >= 0,
        s.len() > 0 ==> s.last().0 <= s.last().1,
    ensures
        covered(add_range(s, pos, len), p) <==> covered(s, p) || pos <= p < pos + len,
{
    let t = add_range(s, pos, len);
    if covered(s, p) {
        let i = choose|i: int| 0 <= i < s.len() && (#[trigger] s[i]).0 <= p < s[i].1;
        assert(t[i].0 <= p < t[i].1);
    }
    if len > 0 && pos <= p < pos + len {
        assert(t[t.len() - 1].0 <= p < t[t.len() - 1].1);
    }
    if covered(t, p) {
        let i = choose|i: int| 0 <= i < t.len() && (#[trigger] t[i]).0 <= p < t[i].1;
        if i < s.len() && s[i].0 <= p < s[i].1 {
            assert(covered(s, p));
        } else {
            assert(i == t.len() - 1);
        }
    }
}

proof fn lemma_changed_covers(c: Seq<WordView>, own: ChangeTag, other: ChangeTag, n: int, p: int)
    requires
        0 <= n <= c.len(),
        own != other,
    ensures
        covered(changed(c, own, other, n), p) <==> in_words(c, own, other, n, p),
    decreases n,
{
    if n > 0 {
        lemma_changed_covers(c, own, other, n - 1, p);
        lemma_changed_ordered(c, own, other, n - 1);
        let before = changed(c, own, other, n - 1);
        if c[n - 1].0 == own {
            lemma_add_range_covers(
                before,
                side_text(c, other, n - 1).len() as int,
                c[n - 1].1.len() as int,
                p,
            );
        }
        if in_words(c, own, other, n - 1, p) {
            let j = choose|j: int| 0 <= j < n - 1 && #[trigger] in_word(c, own, other, j, p);
            assert(in_word(c, own, other, j, p));
        }
        if in_words(c, own, other, n, p) {
            let j = choose|j: int| 0 <= j < n && #[trigger] in_word(c, own, other, j, p);
            if j < n - 1 {
                assert(in_words(c, own, other, n - 1, p));
            }
        }
        if in_word(c, own, other, n - 1, p) {
            assert(in_words(c, own, other, n, p));
        }
    }
}

proof fn lemma_coalesced_covers(r: Seq<(int, int)>, text: Seq<char>, n: int, p: int)
    requires
        0 <= n <= r.len(),
        ordered(r, text.len() as int),
        !is_space(text[p]),
    ensures
        covered(coalesced(r, text, n), p) <==> covered(r.take(n), p),
    decreases n,
{
    if n > 0 {
        lemma_coalesced_covers(r, text, n - 1, p);
        lemma_coalesced_ordered(r, text, n - 1);
        let out = coalesced(r, text, n - 1);
        let now = coalesced(r, text, n);
        let head = r.take(n - 1);
        let all = r.take(n);
        if covered(all, p) {
            let i = choose|i: int| 0 <= i < all.len() && (#[trigger] all[i]).0 <= p < all[i].1;
            if i < n - 1 {
                assert(head[i].0 <= p < head[i].1);
                assert(covered(out, p));
                let k = choose|k: int| 0 <= k < out.len() && (#[trigger] out[k]).0 <= p < out[k].1;
                if n > 1 {
                    assert(r[n - 2].1 <= r[n - 1].0);
                }
                assert(now[k].0 <= p < now[k].1);
            } else {
                if n > 1 {
                    assert(r[n - 2].1 <= r[n - 1].0);
                }
                assert(now[now.len() - 1].0 <= p < now[now.len() - 1].1);
            }
        }
        if covered(now, p) {
            let k = choose|k: int| 0 <= k < now.len() && (#[trigger] now[k]).0 <= p < now[k].1;
            if k < out.len() && out[k].0 <= p < out[k].1 {
                assert(covered(head, p));
                let i = choose|i: int| 0 <= i < head.len() && (#[trigger] head[i]).0 <= p
                    < head[i].1;
                assert(all[i].0 <= p < all[i].1);
            } else {
                assert(k == now.len() - 1);
                if p < r[n - 1].0 {
                    assert(out.last().1 <= p);
                    assert(is_space(text[p]));
                }
                assert(all[n - 1].0 <= p < all[n - 1].1);
            }
        }
    }
}

proof fn lemma_space_cut(text: Seq<char>, a: int, b: int, p: int)
    requires
        0 <= a <= p < b <= text.len(),
        !is_space(text[p]),
    ensures
        space_end(text, a, b) <= p,
        p < space_start(text, a, b),
    decreases b - a,
{
    if a < p {
        lemma_space_cut(text, a + 1, b, p);
    }
    if p < b - 1 {
        lemma_space_cut(text, a, b - 1, p);
    }
}

proof fn lemma_trimmed_covers(r: Seq<(int, int)>, text: Seq<char>, n: int, p: int)
    requires
        0 <= n <= r.len(),
        ordered(r, text.len() as int),
        !is_space(text[p]),
    ensures
        covered(edges_trimmed(r, text, n), p) <==> covered(r.take(n), p),
    decreases n,
{
    if n > 0 {
        lemma_trimmed_covers(r, text, n - 1, p);
        let before = edges_trimmed(r, text, n - 1);
        let now = edges_trimmed(r, text, n);
        let head = r.take(n - 1);
        let all = r.take(n);
        let (x, y) = r[n - 1];
        lemma_space(text, x, y);
        let a = space_end(text, x, y);
        lemma_space(text, a, y);
        if x <= p < y {
            lemma_space_cut(text, x, y, p);
            lemma_space_cut(text, a, y, p);
            assert(now[now.len() - 1].0 <= p < now[now.len() - 1].1);
            assert(all[n - 1].0 <= p < all[n - 1].1);
        }
        if covered(all, p) {
            let i = choose|i: int| 0 <= i < all.len() && (#[trigger] all[i]).0 <= p < all[i].1;
            if i < n - 1 {
                assert(head[i].0 <= p < head[i].1);
                let k = choose|k: int|
                    0 <= k < before.len() && (#[trigger] before[k]).0 <= p < before[k].1;
                assert(now[k].0 <= p < now[k].1);
            }
        }
        if covered(now, p) {
            let k = choose|k: int| 0 <= k < now.len() && (#[trigger] now[k]).0 <= p < now[k].1;
            if k < before.len() {
                assert(before[k].0 <= p < before[k].1);
                let i = choose|i: int| 0 <= i < head.len() && (#[trigger] head[i]).0 <= p
                    < head[i].1;
                assert(all[i].0 <= p < all[i].1);
            }
        }
    } else {
        assert(r.take(0).len() == 0);
    }
}

/// The visible characters that are emphasized are those of the changed words: of
/// the deleted ones in the old line, of the inserted ones in the new line.
pub proof fn law_changed_words_are_emphasized(
    c: Seq<WordView>,
    old_text: Seq<char>,
    new_text: Seq<char>,
    p: int,
)
    requires
        rebuilds(c, old_text, new_text),
    ensures
        0 <= p < old_text.len() && !is_space(old_text[p]) ==> (covered(old_emphasis(c, old_text), p)
            <==> in_words(c, ChangeTag::Delete, ChangeTag::Insert, c.len() as int, p)),
        0 <= p < new_text.len() && !is_space(new_text[p]) ==> (covered(new_emphasis(c, new_text), p)
            <==> in_words(c, ChangeTag::Insert, ChangeTag::Delete, c.len() as int, p)),
{
    if 0 <= p < old_text.len() && !is_space(old_text[p]) {
        lemma_emphasis_covers(c, ChangeTag::Delete, ChangeTag::Insert, old_text, p);
    }
    if 0 <= p < new_text.len() && !is_space(new_text[p]) {
        lemma_emphasis_covers(c, ChangeTag::Insert, ChangeTag::Delete, new_text, p);
    }
}

proof fn lemma_emphasis_covers(
    c: Seq<WordView>,
    own: ChangeTag,
    other: ChangeTag,
    text: Seq<char>,
    p: int,
)
    requires
        own != other,
        side_text(c, other, c.len() as int) == text,
        0 <= p < text.len(),
        !is_space(text[p]),
    ensures
        covered(emphasis(c, own, other, text), p) <==> in_words(c, own, other, c.len() as int, p),
{
    let r = changed(c, own, other, c.len() as int);
    let m = coalesced(r, text, r.len() as int);
    lemma_changed_ordered(c, own, other, c.len() as int);
    lemma_changed_covers(c, own, other, c.len() as int, p);
    lemma_coalesced_ordered(r, text, r.len() as int);
    lemma_coalesced_covers(r, text, r.len() as int, p);
    lemma_trimmed_covers(m, text, m.len() as int, p);
    assert(r.take(r.len() as int) =~= r);
    assert(m.take(m.len() as int) =~= m);
}

/// Two lines are one line edited where at least seven tenths of the words of both
/// match, each match counted on both sides.
pub proof fn law_similar_lines_share_their_words(c: Seq<WordView>)
    ensures
        ({
            let n = c.len() as int;
            let same = tagged(c, ChangeTag::Equal, n);
            let all = 2 * same + tagged(c, ChangeTag::Delete, n) + tagged(c, ChangeTag::Insert, n);
            words_similar(c) <==> all == 0 || 2 * same * 10 >= 7 * all
        }),
        words_similar(c) || tagged(c, ChangeTag::Delete, c.len() as int) > 0 || tagged(
            c,
            ChangeTag::Insert,
            c.len() as int,
        ) > 0,
{
}

} // verus!
