//! Splicing note cards into the drawn diff, and telling the two apart again.
//!
//! The cards sit under the lines they comment on, so a line of the document
//! is either a card's or the diff's; the latter maps back to the diff by
//! leaving out the card lines above it.
use crate::preview::card::{Card, CardView};
use crate::style::{
    dim_style, lemma_lines_push, line_of, lines_view, span, styled, Color, Line, LineView, Span,
    Style,
};
use crate::text::{append, append_dec, copy, dec};
use vstd::prelude::*;

verus! {

broadcast use {vstd::string::group_string_axioms, lemma_lines_push};

// ---- order ------------------------------------------------------------------

pub open spec fn cards_view(v: Seq<Card>) -> Seq<CardView> {
    v.map_values(|c: Card| c@)
}

pub proof fn lemma_cards_push(v: Seq<Card>, c: Card)
    ensures
        cards_view(v.push(c)) == cards_view(v).push(c@),
{
    assert(cards_view(v.push(c)) =~= cards_view(v).push(c@));
}

/// `c` among cards in order, behind those with the same anchor.
pub open spec fn put_card(s: Seq<CardView>, c: CardView) -> Seq<CardView>
    decreases s.len(),
{
    if s.len() == 0 || s.last().anchor <= c.anchor {
        s.push(c)
    } else {
        put_card(s.drop_last(), c).push(s.last())
    }
}

/// The cards by anchor; those with the same anchor keep their order.
pub open spec fn by_anchor(s: Seq<CardView>) -> Seq<CardView>
    decreases s.len(),
{
    if s.len() == 0 {
        s
    } else {
        put_card(by_anchor(s.drop_last()), s.last())
    }
}

/// Anchors ascend and lie within a document of `len` lines.
pub open spec fn placeable(s: Seq<CardView>, len: int) -> bool {
    &&& forall|i: int| 0 <= i < s.len() ==> 0 <= (#[trigger] s[i]).anchor <= len
    &&& forall|i: int, j: int|
        0 <= i < j < s.len() ==> (#[trigger] s[i]).anchor <= (#[trigger] s[j]).anchor
}

/// Every anchor lies within a document of `len` lines.
pub open spec fn anchored(s: Seq<CardView>, len: int) -> bool {
    forall|i: int| 0 <= i < s.len() ==> 0 <= (#[trigger] s[i]).anchor <= len
}

proof fn lemma_put_card(s: Seq<CardView>, c: CardView, len: int)
    requires
        placeable(s, len),
        0 <= c.anchor <= len,
    ensures
        placeable(put_card(s, c), len),
        put_card(s, c).len() == s.len() + 1,
        forall|i: int|
            0 <= i <= s.len() ==> (#[trigger] put_card(s, c)[i]).anchor <= c.anchor || exists|j: int|
                0 <= j < s.len() && put_card(s, c)[i] == s[j],
    decreases s.len(),
{
    if s.len() > 0 && s.last().anchor > c.anchor {
        let rest = s.drop_last();
        lemma_put_card(rest, c, len);
        let put = put_card(rest, c);
        assert forall|i: int| 0 <= i < put.len() implies (#[trigger] put[i]).anchor
            <= s.last().anchor by {
            if put[i].anchor > c.anchor {
                let j = choose|j: int| 0 <= j < rest.len() && put[i] == rest[j];
                assert(rest[j] == s[j]);
            }
        }
        assert forall|i: int| 0 <= i <= s.len() implies (#[trigger] put_card(s, c)[i]).anchor
            <= c.anchor || exists|j: int| 0 <= j < s.len() && put_card(s, c)[i] == s[j] by {
            if i == s.len() {
                assert(put_card(s, c)[i] == s[s.len() - 1]);
            } else if put[i].anchor > c.anchor {
                let j = choose|j: int| 0 <= j < rest.len() && put[i] == rest[j];
                assert(put_card(s, c)[i] == s[j]);
            }
        }
    }
}

/// Cards in order by anchor stay within the document.
pub proof fn lemma_by_anchor(s: Seq<CardView>, len: int)
    requires
        anchored(s, len),
    ensures
        placeable(by_anchor(s), len),
        by_anchor(s).len() == s.len(),
    decreases s.len(),
{
    if s.len() > 0 {
        assert(anchored(s.drop_last(), len)) by {
            assert forall|i: int| 0 <= i < s.drop_last().len() implies 0 <= (
            #[trigger] s.drop_last()[i]).anchor <= len by {
                assert(s.drop_last()[i] == s[i]);
            }
        }
        lemma_by_anchor(s.drop_last(), len);
        lemma_put_card(by_anchor(s.drop_last()), s.last(), len);
    }
}

fn insert_card(v: &mut Vec<Card>, c: Card)
    ensures
        cards_view(final(v)@) == put_card(cards_view(old(v)@), c@),
{
    let ghost all = cards_view(v@);
    let mut k: usize = v.len();
    assert(all.take(k as int) =~= all);
    assert(put_card(all, c@) =~= put_card(all.take(k as int), c@) + all.skip(k as int));
    while k > 0 && v[k - 1].anchor > c.anchor
        invariant
            k <= v@.len(),
            all == cards_view(v@),
            put_card(all, c@) == put_card(all.take(k as int), c@) + all.skip(k as int),
        decreases k,
    {
        proof {
            let head = all.take(k as int);
            assert(head.last() == v@[k - 1]@);
            assert(head.drop_last() =~= all.take(k - 1));
            assert(put_card(all.take(k - 1), c@).push(head.last()) + all.skip(k as int) =~= put_card(
                all.take(k - 1),
                c@,
            ) + all.skip(k - 1));
        }
        k -= 1;
    }
    proof {
        if k > 0 {
            assert(all.take(k as int).last() == v@[k - 1]@);
        }
        assert(cards_view(v@.insert(k as int, c)) =~= all.take(k as int).push(c@) + all.skip(
            k as int,
        ));
    }
    v.insert(k, c);
}

/// Sort by anchor; cards with the same anchor keep their order.
pub fn sort_cards(cards: Vec<Card>) -> (r: Vec<Card>)
    ensures
        cards_view(r@) == by_anchor(cards_view(cards@)),
{
    let ghost all = cards_view(cards@);
    let mut rest = cards;
    let mut back: Vec<Card> = Vec::new();
    let mut out: Vec<Card> = Vec::new();
    // Taken from the back, so that each card moves rather than being copied.
    let ghost n = all.len();
    while rest.len() > 0
        invariant
            n == all.len(),
            rest@.len() + back@.len() == n,
            cards_view(rest@) == all.take(rest@.len() as int),
            forall|i: int|
                0 <= i < back@.len() ==> (#[trigger] back@[i])@ == all[n - 1 - i],
        decreases rest@.len(),
    {
        let ghost len = rest@.len() as int;
        let ghost last = rest@[len - 1];
        assert(cards_view(rest@)[len - 1] == last@);
        if let Some(c) = rest.pop() {
            assert(c@ == all[len - 1]);
            back.push(c);
        }
        assert(cards_view(rest@) =~= all.take(len - 1));
    }
    let ghost mut done: int = 0;
    assert(all.take(0) =~= Seq::<CardView>::empty());
    assert(cards_view(out@) =~= Seq::<CardView>::empty());
    while back.len() > 0
        invariant
            n == all.len(),
            0 <= done,
            done + back@.len() == n,
            cards_view(out@) == by_anchor(all.take(done)),
            forall|i: int|
                0 <= i < back@.len() ==> (#[trigger] back@[i])@ == all[n - 1 - i],
        decreases back@.len(),
    {
        let ghost last = back@[back@.len() - 1];
        if let Some(c) = back.pop() {
            proof {
                assert(last@ == all[done]);
                assert(all.take(done + 1).drop_last() =~= all.take(done));
                done = done + 1;
            }
            insert_card(&mut out, c);
        }
    }
    assert(all.take(done) =~= all);
    out
}

// ---- where the cards are ----------------------------------------------------

/// Which lines of a document are card lines.
pub struct CardMap {
    lines: Vec<usize>,
    starts: Vec<usize>,
    composer: Option<(usize, usize)>,
}

#[verifier::ext_equal]
pub struct CardMapView {
    /// The card lines, ascending.
    pub lines: Seq<int>,
    /// The first line of each note's card, in the order of the cards.
    pub starts: Seq<int>,
    /// First line and height of the open composer.
    pub composer: Option<(int, int)>,
}

pub open spec fn ints(v: Seq<usize>) -> Seq<int> {
    v.map_values(|x: usize| x as int)
}

proof fn lemma_ints_push(v: Seq<usize>, x: usize)
    ensures
        ints(v.push(x)) == ints(v).push(x as int),
{
    assert(ints(v.push(x)) =~= ints(v).push(x as int));
}

pub open spec fn span_of(c: Option<(usize, usize)>) -> Option<(int, int)> {
    match c {
        Some(p) => Some((p.0 as int, p.1 as int)),
        None => None,
    }
}

impl View for CardMap {
    type V = CardMapView;

    closed spec fn view(&self) -> CardMapView {
        CardMapView {
            lines: ints(self.lines@),
            starts: ints(self.starts@),
            composer: span_of(self.composer),
        }
    }
}

pub open spec fn no_cards() -> CardMapView {
    CardMapView { lines: Seq::empty(), starts: Seq::empty(), composer: None }
}

pub open spec fn increasing(s: Seq<int>) -> bool {
    forall|i: int, j: int| 0 <= i < j < s.len() ==> (#[trigger] s[i]) < (#[trigger] s[j])
}

/// How many elements are less than `x`.
pub open spec fn below(s: Seq<int>, x: int) -> int
    decreases s.len(),
{
    if s.len() == 0 {
        0
    } else {
        below(s.drop_last(), x) + if s.last() < x {
            1int
        } else {
            0
        }
    }
}

/// `n` consecutive numbers from `start` on.
pub open spec fn run_of(start: int, n: nat) -> Seq<int> {
    Seq::new(n, |i: int| start + i)
}

impl CardMapView {
    pub open spec fn wf(self) -> bool {
        &&& increasing(self.lines)
        &&& forall|i: int| 0 <= i < self.lines.len() ==> 0 <= #[trigger] self.lines[i]
    }

    /// Whether line `l` of the document belongs to a card.
    pub open spec fn on_card(self, l: int) -> bool {
        self.lines.contains(l)
    }

    /// The diff's line that document line `l` shows; `None` on a card.
    pub open spec fn to_diff(self, l: int) -> Option<int> {
        if self.on_card(l) {
            None
        } else {
            Some(l - below(self.lines, l))
        }
    }

    /// The first line from `l` on to `last` that is not a card's.
    pub open spec fn free_after(self, l: int, last: int) -> Option<int>
        decreases last - l + 1,
    {
        if l > last {
            None
        } else if !self.on_card(l) {
            Some(l)
        } else {
            self.free_after(l + 1, last)
        }
    }

    /// The last line up to `l` that is not a card's.
    pub open spec fn free_before(self, l: int) -> Option<int>
        decreases l + 1,
    {
        if l < 0 {
            None
        } else if !self.on_card(l) {
            Some(l)
        } else {
            self.free_before(l - 1)
        }
    }

    /// `l` itself where it is not a card's; else the nearest line of the diff
    /// in the direction asked for, then the other way.
    pub open spec fn snapped(self, l: int, back: bool, last: int) -> int {
        if !self.on_card(l) {
            l
        } else {
            let ahead = self.free_after(l, last);
            let behind = self.free_before(l);
            let (first, second) = if back {
                (behind, ahead)
            } else {
                (ahead, behind)
            };
            match (first, second) {
                (Some(i), _) => i,
                (None, Some(i)) => i,
                (None, None) => l,
            }
        }
    }

    /// The map with a card of `n` lines at `start`.
    pub open spec fn with(self, start: int, n: nat, note: bool) -> CardMapView {
        CardMapView {
            lines: self.lines + run_of(start, n),
            starts: if note {
                self.starts.push(start)
            } else {
                self.starts
            },
            composer: if note {
                self.composer
            } else {
                Some((start, n as int))
            },
        }
    }
}

pub proof fn lemma_below(s: Seq<int>, x: int)
    requires
        increasing(s),
        forall|i: int| 0 <= i < s.len() ==> 0 <= #[trigger] s[i],
        x >= 0,
    ensures
        0 <= below(s, x) <= x,
        below(s, x) <= s.len(),
        s.len() > 0 ==> s.last() >= s.len() - 1,
    decreases s.len(),
{
    if s.len() > 0 {
        let rest = s.drop_last();
        assert(increasing(rest)) by {
            assert forall|i: int, j: int| 0 <= i < j < rest.len() implies (#[trigger] rest[i]) < (
            #[trigger] rest[j]) by {
                assert(rest[i] == s[i] && rest[j] == s[j]);
            }
        }
        assert forall|i: int| 0 <= i < rest.len() implies 0 <= #[trigger] rest[i] by {
            assert(rest[i] == s[i]);
        }
        lemma_below(rest, x);
        if rest.len() > 0 {
            assert(rest.last() == s[s.len() - 2]);
            assert(s[s.len() - 2] < s[s.len() - 1]);
        }
        if s.last() < x {
            lemma_below(rest, s.last());
            assert forall|i: int| 0 <= i < rest.len() implies (#[trigger] rest[i]) < s.last() by {
                assert(rest[i] == s[i]);
                assert(s[i] < s[s.len() - 1]);
            }
            lemma_all_below(rest, s.last());
            lemma_all_below_up(rest, s.last(), x);
        }
    }
}

proof fn lemma_all_below(s: Seq<int>, x: int)
    requires
        forall|i: int| 0 <= i < s.len() ==> (#[trigger] s[i]) < x,
    ensures
        below(s, x) == s.len(),
    decreases s.len(),
{
    if s.len() > 0 {
        assert forall|i: int| 0 <= i < s.drop_last().len() implies (#[trigger] s.drop_last()[i])
            < x by {
            assert(s.drop_last()[i] == s[i]);
        }
        lemma_all_below(s.drop_last(), x);
        assert(s.last() == s[s.len() - 1]);
    }
}

proof fn lemma_all_below_up(s: Seq<int>, x: int, y: int)
    requires
        forall|i: int| 0 <= i < s.len() ==> (#[trigger] s[i]) < x,
        x <= y,
    ensures
        below(s, y) == s.len(),
{
    lemma_all_below(s, y);
}

proof fn lemma_none_below(s: Seq<int>, x: int)
    requires
        forall|i: int| 0 <= i < s.len() ==> (#[trigger] s[i]) >= x,
    ensures
        below(s, x) == 0,
    decreases s.len(),
{
    if s.len() > 0 {
        assert forall|i: int| 0 <= i < s.drop_last().len() implies (#[trigger] s.drop_last()[i])
            >= x by {
            assert(s.drop_last()[i] == s[i]);
        }
        lemma_none_below(s.drop_last(), x);
        assert(s.last() == s[s.len() - 1]);
    }
}

proof fn lemma_below_concat(a: Seq<int>, b: Seq<int>, x: int)
    ensures
        below(a + b, x) == below(a, x) + below(b, x),
    decreases b.len(),
{
    if b.len() == 0 {
        assert(a + b =~= a);
    } else {
        assert((a + b).drop_last() =~= a + b.drop_last());
        lemma_below_concat(a, b.drop_last(), x);
    }
}

impl CardMap {
    #[verifier::type_invariant]
    closed spec fn inv(self) -> bool {
        &&& increasing(ints(self.lines@))
        &&& self.composer matches Some(p) ==> p.0 + p.1 <= usize::MAX
    }

    /// No card at all.
    pub fn new() -> (r: CardMap)
        ensures
            r@ == no_cards(),
            r@.wf(),
    {
        let lines: Vec<usize> = Vec::new();
        let starts: Vec<usize> = Vec::new();
        assert(ints(lines@) =~= Seq::<int>::empty());
        assert(ints(starts@) =~= Seq::<int>::empty());
        CardMap { lines, starts, composer: None }
    }

    /// Whether line `l` of the document belongs to a card.
    pub fn contains(&self, l: usize) -> (r: bool)
        ensures
            r == self@.on_card(l as int),
    {
        let mut i: usize = 0;
        while i < self.lines.len()
            invariant
                i <= self.lines@.len(),
                forall|k: int| 0 <= k < i ==> #[trigger] self@.lines[k] != l,
            decreases self.lines@.len() - i,
        {
            assert(self@.lines[i as int] == self.lines@[i as int]);
            if self.lines[i] == l {
                return true;
            }
            i += 1;
        }
        false
    }

    /// The diff's line that document line `l` shows; `None` on a card.
    pub fn to_built(&self, l: usize) -> (r: Option<usize>)
        ensures
            (match r {
                Some(b) => self@.to_diff(l as int) == Some(b as int),
                None => self@.to_diff(l as int) is None,
            }),
            self@.wf(),
    {
        proof {
            use_type_invariant(self);
            lemma_below(self@.lines, l as int);
        }
        if self.contains(l) {
            return None;
        }
        let ghost all = self@.lines;
        let mut n: usize = 0;
        let mut i: usize = 0;
        assert(all.take(0) =~= Seq::<int>::empty());
        while i < self.lines.len()
            invariant
                i <= self.lines@.len(),
                all == ints(self.lines@),
                n == below(all.take(i as int), l as int),
                n <= i,
            decreases self.lines@.len() - i,
        {
            proof {
                assert(all[i as int] == self.lines@[i as int]);
                assert(all.take(i + 1).drop_last() =~= all.take(i as int));
            }
            if self.lines[i] < l {
                n += 1;
            }
            i += 1;
        }
        assert(all.take(i as int) =~= all);
        Some(l - n)
    }

    /// The nearest line of the diff at `l`: see `CardMapView::snapped`.
    pub fn snap(&self, l: usize, back: bool, last: usize) -> (r: usize)
        requires
            l <= last,
        ensures
            r == self@.snapped(l as int, back, last as int),
    {
        if !self.contains(l) {
            return l;
        }
        let ahead = self.first_free(l, last);
        let behind = self.last_free(l);
        let (first, second) = if back {
            (behind, ahead)
        } else {
            (ahead, behind)
        };
        match first {
            Some(i) => i,
            None => match second {
                Some(i) => i,
                None => l,
            },
        }
    }

    fn first_free(&self, l: usize, last: usize) -> (r: Option<usize>)
        requires
            l <= last,
        ensures
            (match r {
                Some(i) => self@.free_after(l as int, last as int) == Some(i as int),
                None => self@.free_after(l as int, last as int) is None,
            }),
    {
        let mut i: usize = l;
        loop
            invariant
                l <= i <= last,
                self@.free_after(l as int, last as int) == self@.free_after(i as int, last as int),
            decreases last - i,
        {
            if !self.contains(i) {
                return Some(i);
            }
            if i == last {
                assert(self@.free_after(i + 1, last as int) is None);
                return None;
            }
            i += 1;
        }
    }

    fn last_free(&self, l: usize) -> (r: Option<usize>)
        ensures
            (match r {
                Some(i) => self@.free_before(l as int) == Some(i as int),
                None => self@.free_before(l as int) is None,
            }),
    {
        let mut i: usize = l;
        loop
            invariant
                i <= l,
                self@.free_before(l as int) == self@.free_before(i as int),
            decreases i,
        {
            if !self.contains(i) {
                return Some(i);
            }
            if i == 0 {
                assert(self@.free_before(-1) is None);
                return None;
            }
            i -= 1;
        }
    }

    /// The first line of note card number `k`.
    pub fn start(&self, k: usize) -> (r: Option<usize>)
        ensures
            r is Some <==> k < self@.starts.len(),
            r is Some ==> r->0 == self@.starts[k as int],
    {
        if k < self.starts.len() {
            assert(self@.starts[k as int] == self.starts@[k as int]);
            Some(self.starts[k])
        } else {
            None
        }
    }

    /// First line and height of the open composer.
    pub fn composer(&self) -> (r: Option<(usize, usize)>)
        ensures
            span_of(r) == self@.composer,
            r matches Some(p) ==> p.0 + p.1 <= usize::MAX,
    {
        proof {
            use_type_invariant(self);
        }
        self.composer
    }
}

/// The nearest line of the diff is not a card's, wherever there is one, and
/// lies within the document.
pub proof fn law_snapping_leaves_the_cards(m: CardMapView, l: int, back: bool, last: int)
    requires
        0 <= l <= last,
    ensures
        0 <= m.snapped(l, back, last) <= last,
        (exists|i: int| 0 <= i <= last && !#[trigger] m.on_card(i)) ==> !m.on_card(
            m.snapped(l, back, last),
        ),
{
    lemma_free_after(m, l, last);
    lemma_free_before(m, l);
    if m.on_card(l) && m.free_after(l, last) is None && m.free_before(l) is None {
        assert forall|i: int| 0 <= i <= last implies #[trigger] m.on_card(i) by {}
    }
}

proof fn lemma_free_after(m: CardMapView, l: int, last: int)
    ensures
        (match m.free_after(l, last) {
            Some(i) => l <= i <= last && !m.on_card(i),
            None => forall|i: int| l <= i <= last ==> #[trigger] m.on_card(i),
        }),
    decreases last - l + 1,
{
    if l <= last && m.on_card(l) {
        lemma_free_after(m, l + 1, last);
        if m.free_after(l + 1, last) is None {
            assert forall|i: int| l <= i <= last implies #[trigger] m.on_card(i) by {
                if i > l {
                    assert(l + 1 <= i);
                }
            }
        }
    }
}

proof fn lemma_free_before(m: CardMapView, l: int)
    ensures
        (match m.free_before(l) {
            Some(i) => 0 <= i <= l && !m.on_card(i),
            None => forall|i: int| 0 <= i <= l ==> #[trigger] m.on_card(i),
        }),
    decreases l + 1,
{
    if l >= 0 && m.on_card(l) {
        lemma_free_before(m, l - 1);
        if m.free_before(l - 1) is None {
            assert forall|i: int| 0 <= i <= l implies #[trigger] m.on_card(i) by {
                if i < l {
                    assert(i <= l - 1);
                }
            }
        }
    }
}

// ---- splicing ---------------------------------------------------------------

/// A document under construction: its lines so far, how many lines of the
/// diff they took, and where the cards are.
#[verifier::ext_equal]
pub struct Splice {
    pub lines: Seq<LineView>,
    pub from: int,
    pub map: CardMapView,
}

/// The document up to and with the first `n` cards.
pub open spec fn spliced_upto(lines: Seq<LineView>, cards: Seq<CardView>, n: int) -> Splice
    decreases n,
{
    if n <= 0 {
        Splice { lines: Seq::empty(), from: 0, map: no_cards() }
    } else {
        let p = spliced_upto(lines, cards, n - 1);
        let c = cards[n - 1];
        let head = p.lines + lines.subrange(p.from, c.anchor);
        Splice {
            lines: head + c.lines,
            from: c.anchor,
            map: p.map.with(head.len() as int, c.lines.len(), c.note is Some),
        }
    }
}

/// The diff's lines with the cards between them, each in front of the line
/// that its anchor names.
pub open spec fn spliced(lines: Seq<LineView>, cards: Seq<CardView>) -> Seq<LineView> {
    let p = spliced_upto(lines, cards, cards.len() as int);
    p.lines + lines.skip(p.from)
}

/// Where the cards are in `spliced`.
pub open spec fn card_map(lines: Seq<LineView>, cards: Seq<CardView>) -> CardMapView {
    spliced_upto(lines, cards, cards.len() as int).map
}

/// What holds of a document under construction.
spec fn sound(lines: Seq<LineView>, p: Splice) -> bool {
    &&& 0 <= p.from <= lines.len()
    &&& p.lines.len() == p.from + p.map.lines.len()
    &&& p.map.wf()
    &&& forall|i: int| 0 <= i < p.map.lines.len() ==> (#[trigger] p.map.lines[i]) < p.lines.len()
    &&& forall|l: int|
        0 <= l < p.lines.len() && !p.map.on_card(l) ==> (#[trigger] p.lines[l]) == lines[l - below(
            p.map.lines,
            l,
        )] && 0 <= l - below(p.map.lines, l) < p.from
}

proof fn lemma_spliced_upto(lines: Seq<LineView>, cards: Seq<CardView>, n: int)
    requires
        placeable(cards, lines.len() as int),
        0 <= n <= cards.len(),
    ensures
        sound(lines, spliced_upto(lines, cards, n)),
        n > 0 ==> spliced_upto(lines, cards, n).from == cards[n - 1].anchor,
        n == 0 ==> spliced_upto(lines, cards, n).from == 0,
    decreases n,
{
    if n > 0 {
        lemma_spliced_upto(lines, cards, n - 1);
        let p = spliced_upto(lines, cards, n - 1);
        let c = cards[n - 1];
        if n > 1 {
            assert(cards[n - 2].anchor <= cards[n - 1].anchor);
        }
        let body = lines.subrange(p.from, c.anchor);
        let head = p.lines + body;
        let q = spliced_upto(lines, cards, n);
        let run = run_of(head.len() as int, c.lines.len());
        assert(q.map.lines == p.map.lines + run);
        assert(increasing(q.map.lines)) by {
            assert forall|i: int, j: int| 0 <= i < j < q.map.lines.len() implies (
            #[trigger] q.map.lines[i]) < (#[trigger] q.map.lines[j]) by {
                if i < p.map.lines.len() {
                    assert(q.map.lines[i] == p.map.lines[i]);
                    if j < p.map.lines.len() {
                        assert(q.map.lines[j] == p.map.lines[j]);
                    }
                }
            }
        }
        assert forall|i: int| 0 <= i < q.map.lines.len() implies 0 <= (#[trigger] q.map.lines[i])
            < q.lines.len() by {
            if i < p.map.lines.len() {
                assert(q.map.lines[i] == p.map.lines[i]);
            }
        }
        assert forall|l: int| 0 <= l < q.lines.len() && !q.map.on_card(l) implies #[trigger] q.lines[l]
            == lines[l - below(q.map.lines, l)] && 0 <= l - below(q.map.lines, l) < q.from by {
            if l >= head.len() {
                assert(q.map.lines[p.map.lines.len() + (l - head.len())] == l);
                assert(q.map.on_card(l));
            }
            lemma_below_concat(p.map.lines, run, l);
            lemma_none_below(run, l);
            assert(!p.map.on_card(l)) by {
                if p.map.on_card(l) {
                    let i = choose|i: int| 0 <= i < p.map.lines.len() && p.map.lines[i] == l;
                    assert(q.map.lines[i] == l);
                }
            }
            if l < p.lines.len() {
                assert(q.lines[l] == p.lines[l]);
                assert(0 <= l - below(p.map.lines, l) < p.from);
            } else {
                lemma_all_below_up(p.map.lines, p.lines.len() as int, l);
                assert(q.lines[l] == body[l - p.lines.len()]);
            }
        }
    }
}

/// The cards only add lines: every line of the document that is not a card's
/// is the diff's line that it maps back to, and no line of the diff is lost.
pub proof fn law_cards_only_add_lines(lines: Seq<LineView>, cards: Seq<CardView>, l: int)
    requires
        placeable(cards, lines.len() as int),
        0 <= l < spliced(lines, cards).len(),
    ensures
        spliced(lines, cards).len() == lines.len() + card_map(lines, cards).lines.len(),
        card_map(lines, cards).wf(),
        (match card_map(lines, cards).to_diff(l) {
            Some(d) => 0 <= d < lines.len() && spliced(lines, cards)[l] == lines[d],
            None => true,
        }),
{
    let n = cards.len() as int;
    lemma_spliced_upto(lines, cards, n);
    let p = spliced_upto(lines, cards, n);
    if !p.map.on_card(l) {
        if l < p.lines.len() {
            assert(spliced(lines, cards)[l] == p.lines[l]);
            assert(0 <= l - below(p.map.lines, l) < p.from);
        } else {
            lemma_all_below_up(p.map.lines, p.lines.len() as int, l);
            assert(spliced(lines, cards)[l] == lines.skip(p.from)[l - p.lines.len()]);
        }
    }
}

/// The lines of the first `n` cards together.
pub open spec fn heights(cards: Seq<CardView>, n: int) -> nat
    decreases n,
{
    if n <= 0 {
        0
    } else {
        heights(cards, n - 1) + cards[n - 1].lines.len()
    }
}

/// Every card is in the document whole, behind the cards above it.
pub proof fn law_every_card_is_in_the_document(lines: Seq<LineView>, cards: Seq<CardView>, k: int)
    requires
        placeable(cards, lines.len() as int),
        0 <= k < cards.len(),
    ensures
        ({
            let start = cards[k].anchor + heights(cards, k);
            &&& 0 <= start
            &&& start + cards[k].lines.len() <= spliced(lines, cards).len()
            &&& spliced(lines, cards).subrange(start, start + cards[k].lines.len())
                == cards[k].lines
        }),
{
    lemma_card_placed(lines, cards, k, cards.len() as int);
    lemma_spliced_upto(lines, cards, cards.len() as int);
    let start = cards[k].anchor + heights(cards, k);
    assert(spliced(lines, cards).subrange(start, start + cards[k].lines.len()) =~= spliced_upto(
        lines,
        cards,
        cards.len() as int,
    ).lines.subrange(start, start + cards[k].lines.len()));
}

proof fn lemma_card_placed(lines: Seq<LineView>, cards: Seq<CardView>, k: int, n: int)
    requires
        placeable(cards, lines.len() as int),
        0 <= n <= cards.len(),
    ensures
        ({
            let p = spliced_upto(lines, cards, n);
            let start = cards[k].anchor + heights(cards, k);
            &&& p.lines.len() == p.from + heights(cards, n)
            &&& 0 <= k < n ==> 0 <= start && start + cards[k].lines.len() <= p.lines.len()
                && p.lines.subrange(start, start + cards[k].lines.len()) == cards[k].lines
        }),
    decreases n,
{
    lemma_spliced_upto(lines, cards, n);
    if n > 0 {
        lemma_card_placed(lines, cards, k, n - 1);
        lemma_spliced_upto(lines, cards, n - 1);
        if n > 1 {
            assert(cards[n - 2].anchor <= cards[n - 1].anchor);
        }
        let p = spliced_upto(lines, cards, n - 1);
        let q = spliced_upto(lines, cards, n);
        if 0 <= k < n {
            let start = cards[k].anchor + heights(cards, k);
            let len = cards[k].lines.len() as int;
            if k < n - 1 {
                assert(q.lines.subrange(start, start + len) =~= p.lines.subrange(
                    start,
                    start + len,
                ));
            } else {
                assert(q.lines.subrange(start, start + len) =~= cards[k].lines);
            }
        }
    }
}

/// Copy `lines[from..to]` behind `out`.
fn copy_range(lines: &Vec<Line>, from: usize, to: usize, out: &mut Vec<Line>)
    requires
        from <= to <= lines@.len(),
    ensures
        lines_view(final(out)@) == lines_view(old(out)@) + lines_view(lines@).subrange(
            from as int,
            to as int,
        ),
        final(out)@.len() == old(out)@.len() + to - from,
{
    let ghost before = lines_view(out@);
    let ghost n = out@.len();
    let ghost all = lines_view(lines@);
    let mut i: usize = from;
    assert(before + all.subrange(from as int, from as int) =~= before);
    while i < to
        invariant
            from <= i <= to <= lines@.len(),
            all == lines_view(lines@),
            lines_view(out@) == before + all.subrange(from as int, i as int),
            out@.len() == n + i - from,
        decreases to - i,
    {
        proof {
            assert(all[i as int] == lines@[i as int]@);
            assert(before + all.subrange(from as int, i + 1) =~= (before + all.subrange(
                from as int,
                i as int,
            )).push(all[i as int]));
        }
        out.push(lines[i].clone());
        i += 1;
    }
}

/// Splice the cards into the diff's lines.
pub fn splice(lines: &Vec<Line>, cards: &Vec<Card>) -> (r: (Vec<Line>, CardMap))
    requires
        placeable(cards_view(cards@), lines@.len() as int),
    ensures
        lines_view(r.0@) == spliced(lines_view(lines@), cards_view(cards@)),
        r.1@ == card_map(lines_view(lines@), cards_view(cards@)),
{
    let ghost all = lines_view(lines@);
    let ghost cv = cards_view(cards@);
    let mut out: Vec<Line> = Vec::new();
    let mut marks: Vec<usize> = Vec::new();
    let mut starts: Vec<usize> = Vec::new();
    let mut composer: Option<(usize, usize)> = None;
    let mut from: usize = 0;
    let mut i: usize = 0;
    proof {
        assert(lines_view(out@) =~= Seq::<LineView>::empty());
        assert(ints(marks@) =~= Seq::<int>::empty());
        assert(ints(starts@) =~= Seq::<int>::empty());
    }
    while i < cards.len()
        invariant
            i <= cards@.len(),
            all == lines_view(lines@),
            cv == cards_view(cards@),
            placeable(cv, all.len() as int),
            lines_view(out@) == spliced_upto(all, cv, i as int).lines,
            ints(marks@) == spliced_upto(all, cv, i as int).map.lines,
            ints(starts@) == spliced_upto(all, cv, i as int).map.starts,
            span_of(composer) == spliced_upto(all, cv, i as int).map.composer,
            from == spliced_upto(all, cv, i as int).from,
            from <= lines@.len(),
            composer matches Some(p) ==> p.0 + p.1 <= usize::MAX,
            i > 0 ==> from == cv[i - 1].anchor,
            i == 0 ==> from == 0,
        decreases cards@.len() - i,
    {
        let c = &cards[i];
        proof {
            assert(cv[i as int] == c@);
            if i > 0 {
                assert(cv[i - 1].anchor <= cv[i as int].anchor);
            }
        }
        let ghost p = spliced_upto(all, cv, i as int);
        copy_range(lines, from, c.anchor, &mut out);
        let start = out.len();
        copy_range(&c.lines, 0, c.lines.len(), &mut out);
        assert(c@.lines.subrange(0, c.lines@.len() as int) =~= c@.lines);
        let end = out.len();
        assert(end == start + c.lines@.len());
        mark_run(start, end, &mut marks);
        if c.note.is_some() {
            proof {
                lemma_ints_push(starts@, start);
            }
            starts.push(start);
        } else {
            composer = Some((start, end - start));
        }
        from = c.anchor;
        i += 1;
    }
    copy_range(lines, from, lines.len(), &mut out);
    proof {
        assert(all.subrange(from as int, all.len() as int) =~= all.skip(from as int));
        lemma_spliced_upto(all, cv, cv.len() as int);
    }
    let map = CardMap { lines: marks, starts, composer };
    assert(map@ =~= card_map(all, cv));
    (out, map)
}

fn mark_run(from: usize, to: usize, marks: &mut Vec<usize>)
    requires
        from <= to,
    ensures
        ints(final(marks)@) == ints(old(marks)@) + run_of(from as int, (to - from) as nat),
{
    let ghost before = ints(marks@);
    let mut i: usize = from;
    assert(before + run_of(from as int, 0) =~= before);
    while i < to
        invariant
            from <= i <= to,
            ints(marks@) == before + run_of(from as int, (i - from) as nat),
        decreases to - i,
    {
        proof {
            lemma_ints_push(marks@, i);
            assert(before + run_of(from as int, (i + 1 - from) as nat) =~= (before + run_of(
                from as int,
                (i - from) as nat,
            )).push(i as int));
        }
        marks.push(i);
        i += 1;
    }
}

// ---- the cap ------------------------------------------------------------------

/// Hard cap on drawn lines; beyond it stands a notice, so that a huge diff
/// cannot stall drawing.
pub const MAX_LINES: usize = 20_000;

pub open spec fn notice(hidden: nat) -> LineView {
    line_of(
        seq![
            span(
                "… diff truncated ("@ + dec(hidden) + " more lines)"@,
                Style { fg: Some(Color::DarkGray), ..dim_style() },
            ),
        ],
    )
}

/// The lines hidden by the cap.
pub open spec fn hidden_lines(lines: Seq<LineView>) -> nat {
    if lines.len() > MAX_LINES {
        (lines.len() - MAX_LINES) as nat
    } else {
        0
    }
}

/// At most `MAX_LINES` lines, and a notice where some are hidden.
pub open spec fn capped(lines: Seq<LineView>) -> Seq<LineView> {
    if lines.len() > MAX_LINES {
        lines.take(MAX_LINES as int).push(notice(hidden_lines(lines)))
    } else {
        lines
    }
}

/// Cap the lines; says how many are hidden.
pub fn cap(lines: &mut Vec<Line>) -> (hidden: usize)
    ensures
        hidden == hidden_lines(lines_view(old(lines)@)),
        lines_view(final(lines)@) == capped(lines_view(old(lines)@)),
{
    let ghost all = lines_view(lines@);
    let total = lines.len();
    if total <= MAX_LINES {
        return 0;
    }
    let hidden = total - MAX_LINES;
    lines.truncate(MAX_LINES);
    assert(lines_view(lines@) =~= all.take(MAX_LINES as int));
    let mut text = copy("… diff truncated (");
    append_dec(&mut text, hidden as u64);
    append(&mut text, " more lines)");
    let mut spans: Vec<Span> = Vec::new();
    spans.push(styled(text, Style::new().fg(Color::DarkGray).dim()));
    let line = Line { spans, style: Style::new() };
    assert(line@ =~= notice(hidden as nat));
    lines.push(line);
    hidden
}

// ---- order and size ------------------------------------------------------------------

proof fn lemma_put_keeps(s: Seq<CardView>, c: CardView)
    ensures
        put_card(s, c).to_multiset() == s.to_multiset().insert(c),
    decreases s.len(),
{
    broadcast use vstd::seq_lib::group_to_multiset_ensures;

    if s.len() > 0 && s.last().anchor > c.anchor {
        lemma_put_keeps(s.drop_last(), c);
        assert(s.drop_last().push(s.last()) =~= s);
        assert(put_card(s, c).to_multiset() =~= s.to_multiset().insert(c));
    }
}

/// Bringing cards in order loses none and adds none.
pub proof fn law_ordering_keeps_every_card(s: Seq<CardView>)
    ensures
        by_anchor(s).to_multiset() == s.to_multiset(),
    decreases s.len(),
{
    broadcast use vstd::seq_lib::group_to_multiset_ensures;

    if s.len() > 0 {
        law_ordering_keeps_every_card(s.drop_last());
        lemma_put_keeps(by_anchor(s.drop_last()), s.last());
        assert(s.drop_last().push(s.last()) =~= s);
    }
}

/// A long diff is drawn up to its twenty thousandth line, with one line more
/// that stands for the others; a shorter one is drawn whole.
pub proof fn law_a_long_diff_is_cut(lines: Seq<LineView>)
    ensures
        lines.len() <= 20000 ==> capped(lines) == lines && hidden_lines(lines) == 0,
        lines.len() > 20000 ==> capped(lines).len() == 20001 && capped(lines).drop_last()
            == lines.take(20000) && hidden_lines(lines) + 20000 == lines.len(),
{
    if lines.len() > 20000 {
        assert(capped(lines).drop_last() =~= lines.take(20000));
    }
}

} // verus!
