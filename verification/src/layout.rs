//! Guillotine layout planner: given the pane rectangles of a tab, an anchor
//! pane and the ordered split steps that rebuild the same layout from it.
use crate::json::{array_field, as_u64, get_at, items_of, json_of, text_field, Json};
use crate::text::{append, append_dec, copy, dec};
use serde_json::Value;
use vstd::prelude::*;

verus! {

broadcast use vstd::string::group_string_axioms;

#[derive(Debug, PartialEq, Eq)]
pub struct PaneRect {
    pub pane_id: String,
    pub x: u32,
    pub y: u32,
    pub w: u32,
    pub h: u32,
}

#[verifier::ext_equal]
pub struct RectView {
    pub pane_id: Seq<char>,
    pub x: int,
    pub y: int,
    pub w: int,
    pub h: int,
}

impl View for PaneRect {
    type V = RectView;

    open spec fn view(&self) -> RectView {
        RectView {
            pane_id: self.pane_id@,
            x: self.x as int,
            y: self.y as int,
            w: self.w as int,
            h: self.h as int,
        }
    }
}

impl Clone for PaneRect {
    fn clone(&self) -> (r: PaneRect)
        ensures
            r@ == self@,
    {
        PaneRect {
            pane_id: copy(self.pane_id.as_str()),
            x: self.x,
            y: self.y,
            w: self.w,
            h: self.h,
        }
    }
}

pub open spec fn rects_view(s: Seq<PaneRect>) -> Seq<RectView> {
    s.map_values(|r: PaneRect| r@)
}

proof fn lemma_rects_push(s: Seq<PaneRect>, r: PaneRect)
    ensures
        rects_view(s.push(r)) == rects_view(s).push(r@),
{
    assert(rects_view(s.push(r)) =~= rects_view(s).push(r@));
}

/// Which way a pane is split.
#[derive(Debug, Clone, Copy, PartialEq, Eq, Structural)]
pub enum Dir {
    Right,
    Down,
}

impl Dir {
    pub open spec fn arg(self) -> Seq<char> {
        match self {
            Dir::Right => "right"@,
            Dir::Down => "down"@,
        }
    }

    pub fn as_cli_arg(self) -> (r: &'static str)
        ensures
            r@ == self.arg(),
    {
        match self {
            Dir::Right => "right",
            Dir::Down => "down",
        }
    }
}

/// One move needed to rebuild the layout: split `target` in `dir`, `target`
/// keeping `part` of `whole` of the region, placing `pane` in the rest.
#[derive(Debug)]
pub struct MoveStep {
    pub pane: String,
    pub dir: Dir,
    pub target: String,
    pub part: u64,
    pub whole: u64,
}

#[verifier::ext_equal]
pub struct StepView {
    pub pane: Seq<char>,
    pub dir: Dir,
    pub target: Seq<char>,
    pub part: int,
    pub whole: int,
}

impl View for MoveStep {
    type V = StepView;

    open spec fn view(&self) -> StepView {
        StepView {
            pane: self.pane@,
            dir: self.dir,
            target: self.target@,
            part: self.part as int,
            whole: self.whole as int,
        }
    }
}

pub open spec fn steps_view(s: Seq<MoveStep>) -> Seq<StepView> {
    s.map_values(|m: MoveStep| m@)
}

#[derive(Debug)]
pub struct RebuildPlan {
    pub anchor: String,
    pub steps: Vec<MoveStep>,
}

/// Why a layout cannot be rebuilt.
#[derive(Debug, Clone, Copy, PartialEq, Eq, Structural)]
pub enum LayoutError {
    NoPanes,
    /// No straight cut separates this many panes.
    NotPartitionable(usize),
}

impl LayoutError {
    pub open spec fn text(self) -> Seq<char> {
        match self {
            LayoutError::NoPanes => "no panes"@,
            LayoutError::NotPartitionable(n) => "layout is not guillotine-partitionable ("@ + dec(
                n as nat,
            ) + " rects)"@,
        }
    }

    pub fn message(self) -> (r: String)
        ensures
            r@ == self.text(),
    {
        match self {
            LayoutError::NoPanes => copy("no panes"),
            LayoutError::NotPartitionable(n) => {
                let mut s = copy("layout is not guillotine-partitionable (");
                append_dec(&mut s, n as u64);
                append(&mut s, " rects)");
                s
            },
        }
    }
}

/// A cut this close to the border is no cut.
pub const GAP: u32 = 2;

// ---- cuts ------------------------------------------------------------------------

impl RectView {
    /// Where the rectangle starts along an axis.
    pub open spec fn start(self, dir: Dir) -> int {
        match dir {
            Dir::Right => self.x,
            Dir::Down => self.y,
        }
    }

    /// Where it ends.
    pub open spec fn end(self, dir: Dir) -> int {
        match dir {
            Dir::Right => self.x + self.w,
            Dir::Down => self.y + self.h,
        }
    }
}

/// The least start of the first `n` rectangles.
pub open spec fn low(rects: Seq<RectView>, dir: Dir, n: int) -> int
    decreases n,
{
    if n <= 1 {
        rects[0].start(dir)
    } else if rects[n - 1].start(dir) < low(rects, dir, n - 1) {
        rects[n - 1].start(dir)
    } else {
        low(rects, dir, n - 1)
    }
}

/// The greatest end of the first `n` rectangles.
pub open spec fn high(rects: Seq<RectView>, dir: Dir, n: int) -> int
    decreases n,
{
    if n <= 1 {
        rects[0].end(dir)
    } else if rects[n - 1].end(dir) > high(rects, dir, n - 1) {
        rects[n - 1].end(dir)
    } else {
        high(rects, dir, n - 1)
    }
}

/// Whether rectangle `i` lies behind a cut at `c`.
pub open spec fn behind(rects: Seq<RectView>, dir: Dir, c: int, i: int) -> bool {
    rects[i].end(dir) > c
}

/// Whether the end of rectangle `k` is a cut: not at the border, with something
/// behind it, and with nothing reaching across it. No overlap is tolerated,
/// since rebuilding would silently drop it.
pub open spec fn cuts_at(rects: Seq<RectView>, dir: Dir, k: int) -> bool {
    let c = rects[k].end(dir);
    let n = rects.len() as int;
    &&& c > low(rects, dir, n) + GAP
    &&& c + GAP < high(rects, dir, n)
    &&& exists|i: int| 0 <= i < n && #[trigger] behind(rects, dir, c, i)
    &&& forall|i: int|
        0 <= i < n && #[trigger] behind(rects, dir, c, i) ==> rects[i].start(dir) >= c
}

/// The first cut among the ends of the first `n` rectangles.
pub open spec fn first_cut(rects: Seq<RectView>, dir: Dir, n: int) -> Option<int>
    decreases n,
{
    if n <= 0 {
        None
    } else {
        let rest = first_cut(rects, dir, n - 1);
        if cuts_at(rects, dir, n - 1) && (rest matches Some(c) ==> rects[n - 1].end(dir) < c) {
            Some(rects[n - 1].end(dir))
        } else {
            rest
        }
    }
}

/// Those of the first `n` rectangles that end at or before the cut, or behind
/// it.
pub open spec fn side(rects: Seq<RectView>, dir: Dir, c: int, after: bool, n: int) -> Seq<RectView>
    decreases n,
{
    if n <= 0 {
        Seq::empty()
    } else if behind(rects, dir, c, n - 1) == after {
        side(rects, dir, c, after, n - 1).push(rects[n - 1])
    } else {
        side(rects, dir, c, after, n - 1)
    }
}

pub proof fn lemma_first_cut(rects: Seq<RectView>, dir: Dir, n: int)
    requires
        0 <= n <= rects.len(),
    ensures
        first_cut(rects, dir, n) matches Some(c) ==> exists|k: int|
            0 <= k < n && cuts_at(rects, dir, k) && rects[k].end(dir) == c,
    decreases n,
{
    if n > 0 {
        lemma_first_cut(rects, dir, n - 1);
        if first_cut(rects, dir, n) != first_cut(rects, dir, n - 1) {
            assert(cuts_at(rects, dir, n - 1) && rects[n - 1].end(dir) == first_cut(
                rects,
                dir,
                n,
            )->0);
        } else if first_cut(rects, dir, n) is Some {
            let c = first_cut(rects, dir, n)->0;
            let k = choose|k: int| 0 <= k < n - 1 && cuts_at(rects, dir, k) && rects[k].end(dir) == c;
            assert(cuts_at(rects, dir, k) && rects[k].end(dir) == c);
        }
    }
}

pub proof fn lemma_sides(rects: Seq<RectView>, dir: Dir, c: int, n: int)
    requires
        0 <= n <= rects.len(),
    ensures
        side(rects, dir, c, false, n).len() + side(rects, dir, c, true, n).len() == n,
        (exists|i: int| 0 <= i < n && #[trigger] behind(rects, dir, c, i)) ==> side(
            rects,
            dir,
            c,
            true,
            n,
        ).len() > 0,
        (exists|i: int| 0 <= i < n && !#[trigger] behind(rects, dir, c, i)) ==> side(
            rects,
            dir,
            c,
            false,
            n,
        ).len() > 0,
    decreases n,
{
    if n > 0 {
        lemma_sides(rects, dir, c, n - 1);
        if exists|i: int| 0 <= i < n && #[trigger] behind(rects, dir, c, i) {
            let i = choose|i: int| 0 <= i < n && #[trigger] behind(rects, dir, c, i);
            if i < n - 1 {
                assert(behind(rects, dir, c, i));
            }
        }
        if exists|i: int| 0 <= i < n && !#[trigger] behind(rects, dir, c, i) {
            let i = choose|i: int| 0 <= i < n && !#[trigger] behind(rects, dir, c, i);
            if i < n - 1 {
                assert(!behind(rects, dir, c, i));
            }
        }
    }
}

/// Both sides of a cut are smaller and not empty.
pub proof fn lemma_cut_splits(rects: Seq<RectView>, dir: Dir)
    ensures
        first_cut(rects, dir, rects.len() as int) matches Some(c) ==> ({
            let n = rects.len() as int;
            &&& 0 < side(rects, dir, c, false, n).len() < n
            &&& 0 < side(rects, dir, c, true, n).len() < n
        }),
{
    let n = rects.len() as int;
    lemma_first_cut(rects, dir, n);
    if let Some(c) = first_cut(rects, dir, n) {
        lemma_sides(rects, dir, c, n);
        let k = choose|k: int| 0 <= k < n && cuts_at(rects, dir, k) && rects[k].end(dir) == c;
        assert(!behind(rects, dir, c, k));
        assert(cuts_at(rects, dir, k));
    }
}

// ---- plans -----------------------------------------------------------------------

#[verifier::ext_equal]
pub struct PlanView {
    pub anchor: Seq<char>,
    pub steps: Seq<StepView>,
}

/// Two plans joined: the second region's head is split off the first's.
pub open spec fn joined_plan(a: PlanView, b: PlanView, dir: Dir, part: int, whole: int) -> PlanView {
    PlanView {
        anchor: a.anchor,
        steps: seq![StepView { pane: b.anchor, dir, target: a.anchor, part, whole }] + a.steps
            + b.steps,
    }
}

/// The axis that the rectangles are cut along, and the cut.
pub open spec fn chosen_cut(rects: Seq<RectView>) -> Option<(Dir, int)> {
    match first_cut(rects, Dir::Right, rects.len() as int) {
        Some(c) => Some((Dir::Right, c)),
        None => match first_cut(rects, Dir::Down, rects.len() as int) {
            Some(c) => Some((Dir::Down, c)),
            None => None,
        },
    }
}

/// The plan of at least one rectangle: cut left to right where that is
/// possible, else top to bottom, and both sides planned in turn.
pub open spec fn plan(rects: Seq<RectView>) -> Result<PlanView, LayoutError>
    decreases rects.len(),
{
    if rects.len() <= 1 {
        Ok(PlanView { anchor: rects[0].pane_id, steps: Seq::empty() })
    } else {
        let n = rects.len() as int;
        match chosen_cut(rects) {
            None => Err(LayoutError::NotPartitionable(n as usize)),
            Some((dir, c)) => {
                proof {
                    lemma_cut_splits(rects, dir);
                }
                match plan(side(rects, dir, c, false, n)) {
                    Err(e) => Err(e),
                    Ok(a) => match plan(side(rects, dir, c, true, n)) {
                        Err(e) => Err(e),
                        Ok(b) => Ok(
                            joined_plan(
                                a,
                                b,
                                dir,
                                c - low(rects, dir, n),
                                high(rects, dir, n) - low(rects, dir, n),
                            ),
                        ),
                    },
                }
            },
        }
    }
}

// ---- laws ------------------------------------------------------------------------

/// The panes of a plan: the anchor, then those of the steps.
pub open spec fn plan_panes(p: PlanView) -> Seq<Seq<char>> {
    seq![p.anchor] + p.steps.map_values(|s: StepView| s.pane)
}

pub open spec fn ids(rects: Seq<RectView>) -> Seq<Seq<char>> {
    rects.map_values(|r: RectView| r.pane_id)
}

proof fn lemma_side_ids(rects: Seq<RectView>, dir: Dir, c: int, n: int)
    requires
        0 <= n <= rects.len(),
    ensures
        ids(side(rects, dir, c, false, n)).to_multiset().add(
            ids(side(rects, dir, c, true, n)).to_multiset(),
        ) == ids(rects.take(n)).to_multiset(),
    decreases n,
{
    broadcast use vstd::seq_lib::group_to_multiset_ensures;

    let a = side(rects, dir, c, false, n);
    let b = side(rects, dir, c, true, n);
    if n <= 0 {
        assert(ids(a) =~= Seq::<Seq<char>>::empty());
        assert(ids(b) =~= Seq::<Seq<char>>::empty());
        assert(ids(rects.take(0)) =~= Seq::<Seq<char>>::empty());
        assert(ids(a).to_multiset().add(ids(b).to_multiset()) =~= ids(
            rects.take(0),
        ).to_multiset());
    } else {
        lemma_side_ids(rects, dir, c, n - 1);
        let id = rects[n - 1].pane_id;
        let a0 = side(rects, dir, c, false, n - 1);
        let b0 = side(rects, dir, c, true, n - 1);
        assert(ids(rects.take(n)) =~= ids(rects.take(n - 1)).push(id));
        if behind(rects, dir, c, n - 1) {
            assert(ids(b) =~= ids(b0).push(id));
        } else {
            assert(ids(a) =~= ids(a0).push(id));
        }
        assert(ids(a).to_multiset().add(ids(b).to_multiset()) =~= ids(
            rects.take(n),
        ).to_multiset());
    }
}

/// A plan places every pane exactly once.
pub proof fn law_a_plan_places_every_pane(rects: Seq<RectView>)
    requires
        rects.len() > 0,
    ensures
        plan(rects) matches Ok(p) ==> plan_panes(p).to_multiset() == ids(rects).to_multiset(),
    decreases rects.len(),
{
    broadcast use vstd::seq_lib::group_to_multiset_ensures;

    if rects.len() == 1 {
        assert(plan_panes(plan(rects)->Ok_0) =~= ids(rects));
    } else if plan(rects) is Ok {
        let n = rects.len() as int;
        let (dir, c) = chosen_cut(rects)->0;
        lemma_cut_splits(rects, dir);
        let sa = side(rects, dir, c, false, n);
        let sb = side(rects, dir, c, true, n);
        law_a_plan_places_every_pane(sa);
        law_a_plan_places_every_pane(sb);
        let a = plan(sa)->Ok_0;
        let b = plan(sb)->Ok_0;
        let p = plan(rects)->Ok_0;
        let pa = a.steps.map_values(|s: StepView| s.pane);
        let pb = b.steps.map_values(|s: StepView| s.pane);
        assert(plan_panes(p) =~= seq![a.anchor, b.anchor] + pa + pb);
        lemma_shuffle(a.anchor, b.anchor, pa, pb);
        lemma_side_ids(rects, dir, c, n);
        assert(rects.take(n) =~= rects);
    }
}

proof fn lemma_shuffle(x: Seq<char>, y: Seq<char>, a: Seq<Seq<char>>, b: Seq<Seq<char>>)
    ensures
        (seq![x, y] + a + b).to_multiset() == (seq![x] + a).to_multiset().add(
            (seq![y] + b).to_multiset(),
        ),
{
    broadcast use vstd::seq_lib::group_to_multiset_ensures;

    vstd::seq_lib::lemma_multiset_commutative(seq![x, y] + a, b);
    vstd::seq_lib::lemma_multiset_commutative(seq![x, y], a);
    vstd::seq_lib::lemma_multiset_commutative(seq![x], a);
    vstd::seq_lib::lemma_multiset_commutative(seq![y], b);
    vstd::seq_lib::lemma_multiset_commutative(seq![x], seq![y]);
    assert(seq![x] + seq![y] =~= seq![x, y]);
    assert((seq![x, y] + a + b).to_multiset() =~= (seq![x] + a).to_multiset().add(
        (seq![y] + b).to_multiset(),
    ));
}

/// Whether every step splits a pane that is in place by then, and leaves a
/// part of the region to either side.
pub open spec fn runs(p: PlanView) -> bool {
    forall|i: int|
        0 <= i < p.steps.len() ==> {
            let s = #[trigger] p.steps[i];
            &&& 0 < s.part < s.whole
            &&& in_place(p, i, s.target)
        }
}

/// Whether `pane` is in place before step `i`.
pub open spec fn in_place(p: PlanView, i: int, pane: Seq<char>) -> bool {
    pane == p.anchor || exists|j: int| 0 <= j < i && (#[trigger] p.steps[j]).pane == pane
}

proof fn lemma_low_high(rects: Seq<RectView>, dir: Dir, n: int, k: int)
    requires
        0 <= k < n <= rects.len(),
    ensures
        low(rects, dir, n) <= rects[k].start(dir),
        rects[k].end(dir) <= high(rects, dir, n),
    decreases n,
{
    if k < n - 1 {
        lemma_low_high(rects, dir, n - 1, k);
    }
}

/// A plan's steps can be run in their order: every step splits a pane that is
/// already in place.
pub proof fn law_a_plan_runs_in_order(rects: Seq<RectView>)
    requires
        rects.len() > 0,
    ensures
        plan(rects) matches Ok(p) ==> runs(p),
    decreases rects.len(),
{
    if rects.len() > 1 && plan(rects) is Ok {
        let n = rects.len() as int;
        let (dir, c) = chosen_cut(rects)->0;
        lemma_cut_splits(rects, dir);
        lemma_first_cut(rects, dir, n);
        let sa = side(rects, dir, c, false, n);
        let sb = side(rects, dir, c, true, n);
        law_a_plan_runs_in_order(sa);
        law_a_plan_runs_in_order(sb);
        let a = plan(sa)->Ok_0;
        let b = plan(sb)->Ok_0;
        let p = plan(rects)->Ok_0;
        let m = a.steps.len() as int;
        assert forall|i: int| 0 <= i < p.steps.len() implies {
            let s = #[trigger] p.steps[i];
            &&& 0 < s.part < s.whole
            &&& in_place(p, i, s.target)
        } by {
            if i == 0 {
                let k = choose|k: int|
                    0 <= k < n && cuts_at(rects, dir, k) && rects[k].end(dir) == c;
                lemma_low_high(rects, dir, n, k);
            } else if i < 1 + m {
                let s = a.steps[i - 1];
                assert(p.steps[i] == s);
                if s.target != a.anchor {
                    let j = choose|j: int|
                        0 <= j < i - 1 && (#[trigger] a.steps[j]).pane == s.target;
                    assert(p.steps[j + 1] == a.steps[j]);
                }
            } else {
                let s = b.steps[i - 1 - m];
                assert(p.steps[i] == s);
                if s.target == b.anchor {
                    assert(p.steps[0].pane == b.anchor);
                } else {
                    let j = choose|j: int|
                        0 <= j < i - 1 - m && (#[trigger] b.steps[j]).pane == s.target;
                    assert(p.steps[j + 1 + m] == b.steps[j]);
                }
            }
        }
    }
}

/// Whether one of the two rectangles ends, along some axis, before the other
/// starts.
pub open spec fn apart(a: RectView, b: RectView) -> bool {
    exists|dir: Dir|
        (#[trigger] a.end(dir)) <= b.start(dir) || b.end(dir) <= a.start(dir)
}

proof fn lemma_side_index(rects: Seq<RectView>, dir: Dir, c: int, after: bool, n: int, k: int)
    requires
        0 <= k < n <= rects.len(),
        behind(rects, dir, c, k) == after,
    ensures
        side(rects, dir, c, after, k).len() < side(rects, dir, c, after, n).len(),
        side(rects, dir, c, after, n)[side(rects, dir, c, after, k).len() as int] == rects[k],
    decreases n,
{
    if k < n - 1 {
        lemma_side_index(rects, dir, c, after, n - 1, k);
    }
}

/// Only rectangles that do not overlap are planned: a layout with an overlap
/// is refused rather than rebuilt without it.
pub proof fn law_planned_panes_are_apart(rects: Seq<RectView>, i: int, j: int)
    requires
        plan(rects) is Ok,
        0 <= i < j < rects.len(),
    ensures
        apart(rects[i], rects[j]),
    decreases rects.len(),
{
    let n = rects.len() as int;
    let (dir, c) = chosen_cut(rects)->0;
    lemma_cut_splits(rects, dir);
    lemma_first_cut(rects, dir, n);
    let k = choose|k: int| 0 <= k < n && cuts_at(rects, dir, k) && rects[k].end(dir) == c;
    assert(cuts_at(rects, dir, k));
    let bi = behind(rects, dir, c, i);
    let bj = behind(rects, dir, c, j);
    if bi == bj {
        let part = side(rects, dir, c, bi, n);
        lemma_side_index(rects, dir, c, bi, n, i);
        lemma_side_index(rects, dir, c, bi, n, j);
        lemma_side_index(rects, dir, c, bi, j, i);
        assert(plan(part) is Ok);
        law_planned_panes_are_apart(
            part,
            side(rects, dir, c, bi, i).len() as int,
            side(rects, dir, c, bi, j).len() as int,
        );
    } else if bi {
        assert(rects[j].end(dir) <= rects[i].start(dir));
        assert(rects[i].end(dir) <= rects[j].start(dir) || rects[j].end(dir) <= rects[i].start(dir));
    } else {
        assert(rects[i].end(dir) <= rects[j].start(dir));
    }
}

// ---- planning --------------------------------------------------------------------

fn start_of(r: &PaneRect, dir: Dir) -> (v: u64)
    ensures
        v == r@.start(dir),
{
    match dir {
        Dir::Right => r.x as u64,
        Dir::Down => r.y as u64,
    }
}

fn end_of(r: &PaneRect, dir: Dir) -> (v: u64)
    ensures
        v == r@.end(dir),
        v <= 0x1_ffff_fffe,
{
    match dir {
        Dir::Right => r.x as u64 + r.w as u64,
        Dir::Down => r.y as u64 + r.h as u64,
    }
}

/// Where the rectangles start and end along an axis.
fn bounds(rects: &Vec<PaneRect>, dir: Dir) -> (r: (u64, u64))
    requires
        rects@.len() > 0,
    ensures
        r.0 == low(rects_view(rects@), dir, rects@.len() as int),
        r.1 == high(rects_view(rects@), dir, rects@.len() as int),
        r.0 <= u32::MAX,
        r.1 <= 0x1_ffff_fffe,
{
    let ghost all = rects_view(rects@);
    assert(all[0] == rects@[0]@);
    let mut lo = start_of(&rects[0], dir);
    let mut hi = end_of(&rects[0], dir);
    let mut i: usize = 1;
    while i < rects.len()
        invariant
            1 <= i <= rects@.len(),
            all == rects_view(rects@),
            lo == low(all, dir, i as int),
            hi == high(all, dir, i as int),
            lo <= u32::MAX,
            hi <= 0x1_ffff_fffe,
        decreases rects@.len() - i,
    {
        assert(all[i as int] == rects@[i as int]@);
        let s = start_of(&rects[i], dir);
        let e = end_of(&rects[i], dir);
        if s < lo {
            lo = s;
        }
        if e > hi {
            hi = e;
        }
        i += 1;
    }
    (lo, hi)
}

fn is_clean_cut(rects: &Vec<PaneRect>, dir: Dir, k: usize, lo: u64, hi: u64) -> (r: bool)
    requires
        k < rects@.len(),
        lo == low(rects_view(rects@), dir, rects@.len() as int),
        hi == high(rects_view(rects@), dir, rects@.len() as int),
        lo <= u32::MAX,
        hi <= 0x1_ffff_fffe,
    ensures
        r == cuts_at(rects_view(rects@), dir, k as int),
{
    let ghost all = rects_view(rects@);
    assert(all[k as int] == rects@[k as int]@);
    let c = end_of(&rects[k], dir);
    if !(c > lo + GAP as u64 && c + (GAP as u64) < hi) {
        return false;
    }
    let mut any = false;
    let mut i: usize = 0;
    while i < rects.len()
        invariant
            i <= rects@.len(),
            all == rects_view(rects@),
            k < rects@.len(),
            c == all[k as int].end(dir),
            any == (exists|j: int| 0 <= j < i && #[trigger] behind(all, dir, c as int, j)),
            forall|j: int|
                0 <= j < i && #[trigger] behind(all, dir, c as int, j) ==> all[j].start(dir) >= c,
        decreases rects@.len() - i,
    {
        assert(all[i as int] == rects@[i as int]@);
        if end_of(&rects[i], dir) > c {
            assert(behind(all, dir, c as int, i as int));
            any = true;
            if start_of(&rects[i], dir) < c {
                return false;
            }
        }
        i += 1;
    }
    any
}

/// The first position along an axis that separates the rectangles into
/// non-empty groups that do not overlap.
fn cut(rects: &Vec<PaneRect>, dir: Dir, lo: u64, hi: u64) -> (r: Option<u64>)
    requires
        lo == low(rects_view(rects@), dir, rects@.len() as int),
        hi == high(rects_view(rects@), dir, rects@.len() as int),
        lo <= u32::MAX,
        hi <= 0x1_ffff_fffe,
    ensures
        (match r {
            Some(c) => first_cut(rects_view(rects@), dir, rects@.len() as int) == Some(c as int),
            None => first_cut(rects_view(rects@), dir, rects@.len() as int) is None,
        }),
{
    let ghost all = rects_view(rects@);
    let mut best: Option<u64> = None;
    let mut k: usize = 0;
    while k < rects.len()
        invariant
            k <= rects@.len(),
            all == rects_view(rects@),
            lo == low(all, dir, rects@.len() as int),
            hi == high(all, dir, rects@.len() as int),
            lo <= u32::MAX,
            hi <= 0x1_ffff_fffe,
            (match best {
                Some(c) => first_cut(all, dir, k as int) == Some(c as int),
                None => first_cut(all, dir, k as int) is None,
            }),
        decreases rects@.len() - k,
    {
        assert(all[k as int] == rects@[k as int]@);
        if is_clean_cut(rects, dir, k, lo, hi) {
            let c = end_of(&rects[k], dir);
            let better = match best {
                Some(b) => c < b,
                None => true,
            };
            if better {
                best = Some(c);
            }
        }
        k += 1;
    }
    best
}

fn split(rects: &Vec<PaneRect>, dir: Dir, c: u64, after: bool) -> (r: Vec<PaneRect>)
    ensures
        rects_view(r@) == side(
            rects_view(rects@),
            dir,
            c as int,
            after,
            rects@.len() as int,
        ),
        r@.len() == rects_view(r@).len(),
{
    let ghost all = rects_view(rects@);
    let mut out: Vec<PaneRect> = Vec::new();
    let mut i: usize = 0;
    assert(rects_view(out@) =~= Seq::<RectView>::empty());
    while i < rects.len()
        invariant
            i <= rects@.len(),
            all == rects_view(rects@),
            rects_view(out@) == side(all, dir, c as int, after, i as int),
        decreases rects@.len() - i,
    {
        assert(all[i as int] == rects@[i as int]@);
        let beyond = end_of(&rects[i], dir) > c;
        if beyond == after {
            let rect = rects[i].clone();
            proof {
                lemma_rects_push(out@, rect);
            }
            out.push(rect);
        }
        i += 1;
    }
    out
}

pub open spec fn plan_view(r: Result<RebuildPlan, LayoutError>) -> Result<PlanView, LayoutError> {
    match r {
        Ok(p) => Ok(PlanView { anchor: p.anchor@, steps: steps_view(p.steps@) }),
        Err(e) => Err(e),
    }
}

fn partition(rects: &Vec<PaneRect>) -> (r: Result<RebuildPlan, LayoutError>)
    requires
        rects@.len() > 0,
    ensures
        plan_view(r) == plan(rects_view(rects@)),
    decreases rects@.len(),
{
    let ghost all = rects_view(rects@);
    assert(all.len() == rects@.len());
    if rects.len() == 1 {
        assert(all[0] == rects@[0]@);
        let steps: Vec<MoveStep> = Vec::new();
        assert(steps_view(steps@) =~= Seq::<StepView>::empty());
        return Ok(RebuildPlan { anchor: copy(rects[0].pane_id.as_str()), steps });
    }
    let (x0, x1) = bounds(rects, Dir::Right);
    let (y0, y1) = bounds(rects, Dir::Down);
    let (dir, c, lo, hi) = match cut(rects, Dir::Right, x0, x1) {
        Some(c) => (Dir::Right, c, x0, x1),
        None => match cut(rects, Dir::Down, y0, y1) {
            Some(c) => (Dir::Down, c, y0, y1),
            None => {
                return Err(LayoutError::NotPartitionable(rects.len()));
            },
        },
    };
    assert(chosen_cut(all) == Some((dir, c as int)));
    proof {
        lemma_cut_splits(all, dir);
        lemma_first_cut(all, dir, all.len() as int);
        let k = choose|k: int|
            0 <= k < all.len() && cuts_at(all, dir, k) && all[k].end(dir) == c as int;
        assert(cuts_at(all, dir, k));
    }
    let first = split(rects, dir, c, false);
    let second = split(rects, dir, c, true);
    let a = match partition(&first) {
        Ok(p) => p,
        Err(e) => {
            return Err(e);
        },
    };
    let b = match partition(&second) {
        Ok(p) => p,
        Err(e) => {
            return Err(e);
        },
    };
    Ok(combine(a, b, dir, c - lo, hi - lo))
}

fn combine(first: RebuildPlan, second: RebuildPlan, dir: Dir, part: u64, whole: u64) -> (r:
    RebuildPlan)
    ensures
        (PlanView { anchor: r.anchor@, steps: steps_view(r.steps@) }) == joined_plan(
            (PlanView { anchor: first.anchor@, steps: steps_view(first.steps@) }),
            (PlanView { anchor: second.anchor@, steps: steps_view(second.steps@) }),
            dir,
            part as int,
            whole as int,
        ),
{
    let ghost a = steps_view(first.steps@);
    let ghost b = steps_view(second.steps@);
    let mut steps: Vec<MoveStep> = Vec::new();
    let head = MoveStep {
        pane: second.anchor,
        dir,
        target: copy(first.anchor.as_str()),
        part,
        whole,
    };
    let ghost hv = head@;
    steps.push(head);
    let mut rest = first.steps;
    let mut more = second.steps;
    steps.append(&mut rest);
    steps.append(&mut more);
    assert(steps_view(steps@) =~= seq![hv] + a + b);
    RebuildPlan { anchor: first.anchor, steps }
}

/// Plan how to rebuild the layout of the rectangles from one of its panes.
pub fn plan_rebuild(rects: &Vec<PaneRect>) -> (r: Result<RebuildPlan, LayoutError>)
    ensures
        plan_view(r) == (if rects@.len() == 0 {
            Err(LayoutError::NoPanes)
        } else {
            plan(rects_view(rects@))
        }),
{
    if rects.len() == 0 {
        return Err(LayoutError::NoPanes);
    }
    partition(rects)
}

// ---- the layout reply ------------------------------------------------------------

/// A number of the reply.
#[derive(Debug, Clone, Copy, PartialEq, Eq, Structural)]
pub enum Place {
    AreaX,
    AreaY,
    RectX,
    RectY,
    RectWidth,
    RectHeight,
}

impl Place {
    pub open spec fn outer(self) -> Seq<char> {
        match self {
            Place::AreaX | Place::AreaY => "area"@,
            _ => "rect"@,
        }
    }

    pub open spec fn inner(self) -> Seq<char> {
        match self {
            Place::AreaX | Place::RectX => "x"@,
            Place::AreaY | Place::RectY => "y"@,
            Place::RectWidth => "width"@,
            Place::RectHeight => "height"@,
        }
    }

    pub open spec fn path(self) -> Seq<char> {
        "/"@ + self.outer() + "/"@ + self.inner()
    }

    fn keys(self) -> (r: (&'static str, &'static str))
        ensures
            r.0@ == self.outer(),
            r.1@ == self.inner(),
    {
        match self {
            Place::AreaX => ("area", "x"),
            Place::AreaY => ("area", "y"),
            Place::RectX => ("rect", "x"),
            Place::RectY => ("rect", "y"),
            Place::RectWidth => ("rect", "width"),
            Place::RectHeight => ("rect", "height"),
        }
    }

    /// Where the number stands, as a JSON pointer.
    pub fn pointer(self) -> (r: String)
        ensures
            r@ == self.path(),
    {
        let (outer, inner) = self.keys();
        let mut s = copy("/");
        append(&mut s, outer);
        append(&mut s, "/");
        append(&mut s, inner);
        s
    }
}

/// Why a layout reply could not be read.
#[derive(Debug, Clone, Copy, PartialEq, Eq, Structural)]
pub enum ReplyError {
    NoLayout,
    NoPanes,
    NoPaneId,
    NoInteger(Place),
    TooLarge(Place),
    XOutside,
    YOutside,
}

impl ReplyError {
    pub open spec fn text(self) -> Seq<char> {
        match self {
            ReplyError::NoLayout => "pane layout response missing result.layout"@,
            ReplyError::NoPanes => "pane layout response missing result.layout.panes array"@,
            ReplyError::NoPaneId => "pane layout entry missing pane_id"@,
            ReplyError::NoInteger(at) => "JSON response missing unsigned integer at "@ + at.path(),
            ReplyError::TooLarge(at) => "integer at "@ + at.path() + " does not fit in u32"@,
            ReplyError::XOutside => "pane rect x is outside the layout area"@,
            ReplyError::YOutside => "pane rect y is outside the layout area"@,
        }
    }

    pub fn message(self) -> (r: String)
        ensures
            r@ == self.text(),
    {
        match self {
            ReplyError::NoLayout => copy("pane layout response missing result.layout"),
            ReplyError::NoPanes => copy("pane layout response missing result.layout.panes array"),
            ReplyError::NoPaneId => copy("pane layout entry missing pane_id"),
            ReplyError::NoInteger(at) => {
                let mut s = copy("JSON response missing unsigned integer at ");
                append(&mut s, at.pointer().as_str());
                s
            },
            ReplyError::TooLarge(at) => {
                let mut s = copy("integer at ");
                append(&mut s, at.pointer().as_str());
                append(&mut s, " does not fit in u32");
                s
            },
            ReplyError::XOutside => copy("pane rect x is outside the layout area"),
            ReplyError::YOutside => copy("pane rect y is outside the layout area"),
        }
    }
}

/// The number at a place of the document.
pub open spec fn number_at(j: Json, at: Place) -> Result<u32, ReplyError> {
    match j.at(at.outer(), at.inner()) {
        Some(v) => match v.number() {
            Some(n) => if n <= u32::MAX {
                Ok(n as u32)
            } else {
                Err(ReplyError::TooLarge(at))
            },
            None => Err(ReplyError::NoInteger(at)),
        },
        None => Err(ReplyError::NoInteger(at)),
    }
}

fn u32_at(value: &Value, at: Place) -> (r: Result<u32, ReplyError>)
    ensures
        r == number_at(json_of(*value), at),
{
    let (outer, inner) = at.keys();
    match get_at(value, outer, inner) {
        Some(v) => match as_u64(v) {
            Some(n) => if n <= u32::MAX as u64 {
                Ok(n as u32)
            } else {
                Err(ReplyError::TooLarge(at))
            },
            None => Err(ReplyError::NoInteger(at)),
        },
        None => Err(ReplyError::NoInteger(at)),
    }
}

/// One entry of the reply, moved so that the area starts at the origin. What
/// is missing first is what is reported.
pub open spec fn entry_rect(pane: Json, x0: u32, y0: u32) -> Result<RectView, ReplyError> {
    match number_at(pane, Place::RectX) {
        Err(e) => Err(e),
        Ok(x) => match number_at(pane, Place::RectY) {
            Err(e) => Err(e),
            Ok(y) => match pane.text_field("pane_id"@) {
                None => Err(ReplyError::NoPaneId),
                Some(pane_id) => if x < x0 {
                    Err(ReplyError::XOutside)
                } else if y < y0 {
                    Err(ReplyError::YOutside)
                } else {
                    match number_at(pane, Place::RectWidth) {
                        Err(e) => Err(e),
                        Ok(w) => match number_at(pane, Place::RectHeight) {
                            Err(e) => Err(e),
                            Ok(h) => Ok(
                                RectView { pane_id, x: x - x0, y: y - y0, w: w as int, h: h as int },
                            ),
                        },
                    }
                },
            },
        },
    }
}

pub open spec fn entry_rects(panes: Seq<Json>, x0: u32, y0: u32, n: int) -> Result<
    Seq<RectView>,
    ReplyError,
>
    decreases n,
{
    if n <= 0 {
        Ok(Seq::empty())
    } else {
        match entry_rects(panes, x0, y0, n - 1) {
            Err(e) => Err(e),
            Ok(before) => match entry_rect(panes[n - 1], x0, y0) {
                Err(e) => Err(e),
                Ok(rect) => Ok(before.push(rect)),
            },
        }
    }
}

proof fn lemma_first_error(panes: Seq<Json>, x0: u32, y0: u32, n: int, m: int)
    requires
        0 <= n <= m,
        entry_rects(panes, x0, y0, n) is Err,
    ensures
        entry_rects(panes, x0, y0, m) == entry_rects(panes, x0, y0, n),
    decreases m,
{
    if n < m {
        lemma_first_error(panes, x0, y0, n, m - 1);
    }
}

/// The pane rectangles of a layout reply.
pub open spec fn reply_rects(j: Json) -> Result<Seq<RectView>, ReplyError> {
    match j.at("result"@, "layout"@) {
        None => Err(ReplyError::NoLayout),
        Some(layout) => match number_at(layout, Place::AreaX) {
            Err(e) => Err(e),
            Ok(x0) => match number_at(layout, Place::AreaY) {
                Err(e) => Err(e),
                Ok(y0) => match layout.array_field("panes"@) {
                    None => Err(ReplyError::NoPanes),
                    Some(panes) => entry_rects(panes, x0, y0, panes.len() as int),
                },
            },
        },
    }
}

pub open spec fn rects_result(r: Result<Vec<PaneRect>, ReplyError>) -> Result<
    Seq<RectView>,
    ReplyError,
> {
    match r {
        Ok(v) => Ok(rects_view(v@)),
        Err(e) => Err(e),
    }
}

fn read_rect(pane: &Value, x0: u32, y0: u32) -> (r: Result<PaneRect, ReplyError>)
    ensures
        (match r {
            Ok(rect) => entry_rect(json_of(*pane), x0, y0) == Ok::<RectView, ReplyError>(rect@),
            Err(e) => entry_rect(json_of(*pane), x0, y0) == Err::<RectView, ReplyError>(e),
        }),
{
    let x = match u32_at(pane, Place::RectX) {
        Ok(v) => v,
        Err(e) => {
            return Err(e);
        },
    };
    let y = match u32_at(pane, Place::RectY) {
        Ok(v) => v,
        Err(e) => {
            return Err(e);
        },
    };
    let pane_id = match text_field(pane, "pane_id") {
        Some(s) => copy(s.as_str()),
        None => {
            return Err(ReplyError::NoPaneId);
        },
    };
    if x < x0 {
        return Err(ReplyError::XOutside);
    }
    if y < y0 {
        return Err(ReplyError::YOutside);
    }
    let w = match u32_at(pane, Place::RectWidth) {
        Ok(v) => v,
        Err(e) => {
            return Err(e);
        },
    };
    let h = match u32_at(pane, Place::RectHeight) {
        Ok(v) => v,
        Err(e) => {
            return Err(e);
        },
    };
    Ok(PaneRect { pane_id, x: x - x0, y: y - y0, w, h })
}

/// Extract normalized pane rects from a `pane layout` reply.
pub fn parse_pane_rects(value: &Value) -> (r: Result<Vec<PaneRect>, ReplyError>)
    ensures
        rects_result(r) == reply_rects(json_of(*value)),
{
    let layout = match get_at(value, "result", "layout") {
        Some(v) => v,
        None => {
            return Err(ReplyError::NoLayout);
        },
    };
    let x0 = match u32_at(layout, Place::AreaX) {
        Ok(v) => v,
        Err(e) => {
            return Err(e);
        },
    };
    let y0 = match u32_at(layout, Place::AreaY) {
        Ok(v) => v,
        Err(e) => {
            return Err(e);
        },
    };
    let panes = match array_field(layout, "panes") {
        Some(v) => v,
        None => {
            return Err(ReplyError::NoPanes);
        },
    };
    let ghost all = items_of(panes@);
    let mut out: Vec<PaneRect> = Vec::new();
    assert(rects_view(out@) =~= Seq::<RectView>::empty());
    let mut i: usize = 0;
    while i < panes.len()
        invariant
            i <= panes@.len(),
            all == items_of(panes@),
            reply_rects(json_of(*value)) == entry_rects(all, x0, y0, all.len() as int),
            entry_rects(all, x0, y0, i as int) == Ok::<Seq<RectView>, ReplyError>(
                rects_view(out@),
            ),
        decreases panes@.len() - i,
    {
        assert(all[i as int] == json_of(panes@[i as int]));
        match read_rect(&panes[i], x0, y0) {
            Ok(rect) => {
                proof {
                    lemma_rects_push(out@, rect);
                }
                out.push(rect);
            },
            Err(e) => {
                proof {
                    lemma_first_error(all, x0, y0, i + 1, all.len() as int);
                }
                return Err(e);
            },
        }
        i += 1;
    }
    Ok(out)
}

// ---- where a plan splits -----------------------------------------------------------

proof fn lemma_extent(rects: Seq<RectView>, dir: Dir, n: int, i: int)
    requires
        0 <= i < n <= rects.len(),
    ensures
        low(rects, dir, n) <= rects[i].start(dir),
        rects[i].end(dir) <= high(rects, dir, n),
        exists|k: int| 0 <= k < n && (#[trigger] rects[k]).start(dir) == low(rects, dir, n),
        exists|k: int| 0 <= k < n && (#[trigger] rects[k]).end(dir) == high(rects, dir, n),
    decreases n,
{
    if n > 1 {
        if i < n - 1 {
            lemma_extent(rects, dir, n - 1, i);
        } else {
            lemma_extent(rects, dir, n - 1, 0);
        }
        let j = choose|k: int|
            0 <= k < n - 1 && (#[trigger] rects[k]).start(dir) == low(rects, dir, n - 1);
        let m = choose|k: int|
            0 <= k < n - 1 && (#[trigger] rects[k]).end(dir) == high(rects, dir, n - 1);
        assert(rects[j].start(dir) == low(rects, dir, n - 1));
        assert(rects[m].end(dir) == high(rects, dir, n - 1));
        assert(rects[n - 1] == rects[n - 1]);
    } else {
        assert(rects[0] == rects[0]);
    }
}

/// A pane starts or ends at this edge of the area, and none goes beyond it.
pub open spec fn is_extent(rects: Seq<RectView>, dir: Dir, from: int, to: int) -> bool {
    &&& forall|i: int|
        0 <= i < rects.len() ==> from <= (#[trigger] rects[i]).start(dir) && rects[i].end(dir) <= to
    &&& exists|i: int| 0 <= i < rects.len() && (#[trigger] rects[i]).start(dir) == from
    &&& exists|i: int| 0 <= i < rects.len() && (#[trigger] rects[i]).end(dir) == to
}

/// The first step of a plan splits the area of all panes at an edge that no pane
/// reaches across, in the proportion in which that edge lies. What is kept in
/// place lies before the edge, and what is moved behind it.
pub proof fn law_a_plan_splits_at_an_edge(rects: Seq<RectView>)
    requires
        rects.len() >= 2,
        plan(rects) is Ok,
    ensures
        ({
            let p = plan(rects)->Ok_0;
            let step = p.steps[0];
            &&& p.steps.len() > 0
            &&& step.target == p.anchor
            &&& exists|from: int|
                #[trigger] is_extent(rects, step.dir, from, from + step.whole) && 0 < step.part
                    < step.whole && (forall|i: int|
                    0 <= i < rects.len() ==> (#[trigger] rects[i]).end(step.dir) <= from + step.part
                        || rects[i].start(step.dir) >= from + step.part)
        }),
{
    let n = rects.len() as int;
    let (dir, c) = chosen_cut(rects)->0;
    lemma_first_cut(rects, dir, n);
    let k = choose|k: int| 0 <= k < n && cuts_at(rects, dir, k) && rects[k].end(dir) == c;
    assert(cuts_at(rects, dir, k));
    lemma_extent(rects, dir, n, 0);
    let from = low(rects, dir, n);
    assert forall|i: int| 0 <= i < rects.len() implies from <= (#[trigger] rects[i]).start(dir)
        && rects[i].end(dir) <= high(rects, dir, n) by {
        lemma_extent(rects, dir, n, i);
    }
    let p = plan(rects)->Ok_0;
    let step = p.steps[0];
    assert(step.dir == dir && step.part == c - from && step.whole == high(rects, dir, n) - from);
    assert(is_extent(rects, dir, from, from + step.whole));
    assert forall|i: int| 0 <= i < rects.len() implies (#[trigger] rects[i]).end(dir) <= c
        || rects[i].start(dir) >= c by {
        if rects[i].end(dir) > c {
            assert(behind(rects, dir, c, i));
        }
    }
}

/// A number at its place in a reply.
pub open spec fn tells(j: Json, outer: Seq<char>, inner: Seq<char>, n: int) -> bool {
    &&& 0 <= n <= u32::MAX
    &&& j.at(outer, inner) matches Some(v) && v.number() == Some(n as u64)
}

/// The entry of one pane. Its place is told from the corner of the screen, that
/// of the rectangle from the corner of the area.
pub open spec fn tells_rect(pane: Json, r: RectView, x0: int, y0: int) -> bool {
    &&& pane.text_field("pane_id"@) == Some(r.pane_id)
    &&& r.x >= 0 && r.y >= 0
    &&& tells(pane, "rect"@, "x"@, x0 + r.x)
    &&& tells(pane, "rect"@, "y"@, y0 + r.y)
    &&& tells(pane, "rect"@, "width"@, r.w)
    &&& tells(pane, "rect"@, "height"@, r.h)
}

/// A reply that tells the rectangles of the panes is read as these rectangles,
/// in their order.
pub proof fn law_a_layout_is_read(
    j: Json,
    layout: Json,
    panes: Seq<Json>,
    rects: Seq<RectView>,
    x0: int,
    y0: int,
)
    requires
        j.at("result"@, "layout"@) == Some(layout),
        tells(layout, "area"@, "x"@, x0),
        tells(layout, "area"@, "y"@, y0),
        layout.field("panes"@) == Some(Json::Array(panes)),
        panes.len() == rects.len(),
        forall|i: int|
            0 <= i < panes.len() ==> tells_rect(#[trigger] panes[i], rects[i], x0, y0),
    ensures
        reply_rects(j) == Ok::<Seq<RectView>, ReplyError>(rects),
{
    assert(number_at(layout, Place::AreaX) == Ok::<u32, ReplyError>(x0 as u32));
    assert(number_at(layout, Place::AreaY) == Ok::<u32, ReplyError>(y0 as u32));
    lemma_entries_are_read(panes, rects, x0, y0, panes.len() as int);
    assert(rects.take(panes.len() as int) =~= rects);
}

proof fn lemma_entries_are_read(
    panes: Seq<Json>,
    rects: Seq<RectView>,
    x0: int,
    y0: int,
    n: int,
)
    requires
        0 <= x0 <= u32::MAX,
        0 <= y0 <= u32::MAX,
        0 <= n <= panes.len(),
        panes.len() == rects.len(),
        forall|i: int|
            0 <= i < panes.len() ==> tells_rect(#[trigger] panes[i], rects[i], x0, y0),
    ensures
        entry_rects(panes, x0 as u32, y0 as u32, n) == Ok::<Seq<RectView>, ReplyError>(
            rects.take(n),
        ),
    decreases n,
{
    if n > 0 {
        lemma_entries_are_read(panes, rects, x0, y0, n - 1);
        let (p, r) = (panes[n - 1], rects[n - 1]);
        assert(tells_rect(p, r, x0, y0));
        assert(number_at(p, Place::RectX) == Ok::<u32, ReplyError>((x0 + r.x) as u32));
        assert(number_at(p, Place::RectY) == Ok::<u32, ReplyError>((y0 + r.y) as u32));
        assert(number_at(p, Place::RectWidth) == Ok::<u32, ReplyError>(r.w as u32));
        assert(number_at(p, Place::RectHeight) == Ok::<u32, ReplyError>(r.h as u32));
        assert(entry_rect(p, x0 as u32, y0 as u32) == Ok::<RectView, ReplyError>(r));
        assert(rects.take(n - 1).push(r) =~= rects.take(n));
    } else {
        assert(rects.take(0) =~= Seq::empty());
    }
}

} // verus!
