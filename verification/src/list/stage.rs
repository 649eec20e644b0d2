//! Staging actions: what `s`, `u` and `x` operate on, and the guards that
//! decide whether they may run at all.
use crate::git::{
    entries_view, lemma_entries_push, ChangeKind, EntryView, FileEntry, Scope, StageState,
};
use crate::list::app::{
    App, AppView, Effect, EffectView, Modal, ModalView, Mode, Mutation, MutationView,
    PendingAction,
};
use crate::list::rows::{list_view, ListRow, ListRowView, Section};
use crate::path::{path_eq, same_path};
use crate::text::{
    append, append_dec, copy, dec, has_prefix, lemma_strs_push, opt_str, starts_with, strs,
};
use vstd::prelude::*;

verus! {

broadcast use {vstd::string::group_string_axioms, lemma_strs_push};

/// What an action operates on: the entries under the cursor, and the section
/// that decides which way `s` goes. `folder` is the directory row's path when
/// the cursor is on one.
struct Target {
    section: Section,
    folder: Option<String>,
    idxs: Vec<usize>,
}

/// What the cursor means to an action.
#[verifier::ext_equal]
pub enum TargetView {
    /// The action cannot run, for this reason.
    Refused(Seq<char>),
    /// Nothing an action could be about.
    Nothing,
    Acts { section: Section, folder: Option<Seq<char>>, idxs: Seq<int> },
}

pub open spec fn ints(v: Seq<usize>) -> Seq<int> {
    v.map_values(|x: usize| x as int)
}

/// Whether the section shows the entry and it lies under the directory. A
/// directory's path ends in a slash, so `src/` does not cover `src-old/…`.
pub open spec fn in_dir(e: EntryView, dir: Seq<char>, section: Section) -> bool {
    starts_with(e.path, dir) && section.shows(e)
}

/// Those of the first `n` entries that lie under the directory, in its section.
pub open spec fn entries_under(
    entries: Seq<EntryView>,
    dir: Seq<char>,
    section: Section,
    n: int,
) -> Seq<int>
    decreases n,
{
    if n <= 0 {
        Seq::empty()
    } else if in_dir(entries[n - 1], dir, section) {
        entries_under(entries, dir, section, n - 1).push(n - 1)
    } else {
        entries_under(entries, dir, section, n - 1)
    }
}

/// The paths of the first `n` of the entries.
pub open spec fn paths_of(entries: Seq<EntryView>, idxs: Seq<int>, n: int) -> Seq<Seq<char>>
    decreases n,
{
    if n <= 0 {
        Seq::empty()
    } else if 0 <= idxs[n - 1] < entries.len() {
        paths_of(entries, idxs, n - 1).push(entries[idxs[n - 1]].path)
    } else {
        paths_of(entries, idxs, n - 1)
    }
}

/// Whether an entry has a staged side.
pub open spec fn has_staged_side(e: EntryView) -> bool {
    e.stage == StageState::Staged || e.stage == StageState::Partial
}

/// The paths of those of the first `n` of the entries that have a staged side.
pub open spec fn staged_paths(entries: Seq<EntryView>, idxs: Seq<int>, n: int) -> Seq<Seq<char>>
    decreases n,
{
    if n <= 0 {
        Seq::empty()
    } else if 0 <= idxs[n - 1] < entries.len() && has_staged_side(entries[idxs[n - 1]]) {
        staged_paths(entries, idxs, n - 1).push(entries[idxs[n - 1]].path)
    } else {
        staged_paths(entries, idxs, n - 1)
    }
}

/// Whether one of the first `n` of the entries is conflicted.
pub open spec fn any_conflict(entries: Seq<EntryView>, idxs: Seq<int>, n: int) -> bool
    decreases n,
{
    n > 0 && ((0 <= idxs[n - 1] < entries.len() && entries[idxs[n - 1]].kind
        == ChangeKind::Conflicted) || any_conflict(entries, idxs, n - 1))
}

/// Whether one of the first `n` of the entries has a staged side.
pub open spec fn any_staged(entries: Seq<EntryView>, idxs: Seq<int>, n: int) -> bool
    decreases n,
{
    n > 0 && ((0 <= idxs[n - 1] < entries.len() && has_staged_side(entries[idxs[n - 1]]))
        || any_staged(entries, idxs, n - 1))
}

/// The first entry of this path, as a sequence of at most one.
pub open spec fn entry_of(entries: Seq<EntryView>, path: Seq<char>, i: int) -> Seq<EntryView>
    decreases entries.len() - i,
{
    if i < 0 || i >= entries.len() {
        Seq::empty()
    } else if same_path(entries[i].path, path) {
        seq![entries[i]]
    } else {
        entry_of(entries, path, i + 1)
    }
}

/// The entries of the first `n` paths; a path whose entry is gone is skipped.
pub open spec fn entries_of(entries: Seq<EntryView>, paths: Seq<Seq<char>>, n: int) -> Seq<
    EntryView,
>
    decreases n,
{
    if n <= 0 {
        Seq::empty()
    } else {
        entries_of(entries, paths, n - 1) + entry_of(entries, paths[n - 1], 0)
    }
}

/// Which mutating actions the selection allows, for the footer.
#[derive(Debug, Clone, Copy, PartialEq, Eq, Structural)]
pub struct Ops {
    pub stage: bool,
    pub unstage: bool,
    pub discard: bool,
    /// True when `s` would unstage rather than stage.
    pub stage_unstages: bool,
}

pub open spec fn no_ops() -> Ops {
    Ops { stage: false, unstage: false, discard: false, stage_unstages: false }
}

/// The entries that a row stands for, with its section and the directory.
pub open spec fn row_entries(s: AppView) -> Option<(Section, Option<Seq<char>>, Seq<int>)> {
    match s.row() {
        Some(ListRowView::Entry { idx, section, .. }) => Some((section, None, seq![idx])),
        Some(ListRowView::Dir { path, section, .. }) => Some(
            (
                section,
                Some(path),
                entries_under(s.entries, path, section, s.entries.len() as int),
            ),
        ),
        _ => None,
    }
}

impl AppView {
    /// What the cursor means to an action: working-tree scope only, and no
    /// conflicts, whether selected directly or swept up by a folder.
    pub open spec fn target(self) -> TargetView {
        if self.mode != Mode::Files {
            TargetView::Refused("read-only in history view"@)
        } else if self.scope != Scope::Worktree {
            TargetView::Refused("works in working-tree scope (w)"@)
        } else {
            match row_entries(self) {
                None => TargetView::Nothing,
                Some((section, folder, idxs)) => if any_conflict(
                    self.entries,
                    idxs,
                    idxs.len() as int,
                ) {
                    TargetView::Refused("resolve the conflict in the editor first"@)
                } else if idxs.len() == 0 {
                    TargetView::Refused("nothing to do in this folder"@)
                } else {
                    TargetView::Acts { section, folder, idxs }
                },
            }
        }
    }

    /// The state where an action is refused: the reason is said.
    pub open spec fn refused(self) -> AppView {
        match self.target() {
            TargetView::Refused(msg) => self.status(msg),
            _ => self,
        }
    }

    /// `s`: in "staged changes" it unstages, elsewhere it stages.
    pub open spec fn stage_toggled(self) -> (AppView, EffectView) {
        match self.target() {
            TargetView::Acts { section, folder, idxs } => (
                self,
                EffectView::Mutate(
                    MutationView {
                        unstage: section == Section::Staged,
                        paths: paths_of(self.entries, idxs, idxs.len() as int),
                        folder,
                        report: true,
                    },
                ),
            ),
            _ => (self.refused(), EffectView::Nothing),
        }
    }

    /// `u`: unstage what has a staged side, whichever section it is in.
    pub open spec fn unstaged(self) -> (AppView, EffectView) {
        match self.target() {
            TargetView::Acts { folder, idxs, .. } => {
                let paths = staged_paths(self.entries, idxs, idxs.len() as int);
                if paths.len() == 0 {
                    (
                        self.status(
                            if folder is None {
                                "nothing staged for this file"@
                            } else {
                                "nothing staged in this folder"@
                            },
                        ),
                        EffectView::Nothing,
                    )
                } else {
                    (
                        self,
                        EffectView::Mutate(
                            MutationView { unstage: true, paths, folder: None, report: false },
                        ),
                    )
                }
            },
            _ => (self.refused(), EffectView::Nothing),
        }
    }

    /// `x`: ask before throwing changes away.
    pub open spec fn discard_asked(self) -> AppView {
        match self.target() {
            TargetView::Acts { folder, idxs, .. } => {
                let paths = paths_of(self.entries, idxs, idxs.len() as int);
                if paths.len() == 0 {
                    self
                } else {
                    let text = match folder {
                        None => "Discard changes to "@ + paths[0]
                            + "? This cannot be undone. (y/n)"@,
                        Some(f) => "Discard changes to "@ + dec(paths.len()) + " file(s) under "@
                            + f + "? This cannot be undone. (y/n)"@,
                    };
                    AppView {
                        modal: Some(ModalView::Confirm { text, discard: paths }),
                        ..self
                    }
                }
            },
            _ => self.refused(),
        }
    }

    /// What the footer offers.
    pub open spec fn ops(self) -> Ops {
        if self.mode != Mode::Files || self.scope != Scope::Worktree {
            no_ops()
        } else {
            match row_entries(self) {
                None => no_ops(),
                Some((section, _, idxs)) => {
                    let n = idxs.len() as int;
                    if paths_of(self.entries, idxs, n).len() == 0 || any_conflict(
                        self.entries,
                        idxs,
                        n,
                    ) {
                        no_ops()
                    } else {
                        Ops {
                            stage: true,
                            discard: true,
                            unstage: any_staged(self.entries, idxs, n),
                            stage_unstages: section == Section::Staged,
                        }
                    }
                },
            }
        }
    }
}

// ---- laws ----------------------------------------------------------------------

proof fn lemma_entries_under(entries: Seq<EntryView>, dir: Seq<char>, section: Section, n: int)
    requires
        0 <= n <= entries.len(),
    ensures
        forall|k: int|
            0 <= k < entries_under(entries, dir, section, n).len() ==> 0 <= (
            #[trigger] entries_under(entries, dir, section, n)[k]) < n && in_dir(
                entries[entries_under(entries, dir, section, n)[k]],
                dir,
                section,
            ),
        forall|i: int|
            0 <= i < n && in_dir(#[trigger] entries[i], dir, section) ==> entries_under(
                entries,
                dir,
                section,
                n,
            ).contains(i),
    decreases n,
{
    if n > 0 {
        lemma_entries_under(entries, dir, section, n - 1);
        let rest = entries_under(entries, dir, section, n - 1);
        let all = entries_under(entries, dir, section, n);
        assert forall|i: int| 0 <= i < n && in_dir(#[trigger] entries[i], dir, section) implies all.contains(
            i,
        ) by {
            if i < n - 1 {
                assert(rest.contains(i));
                let k = choose|k: int| 0 <= k < rest.len() && rest[k] == i;
                assert(all[k] == i);
            } else {
                assert(all[all.len() - 1] == i);
            }
        }
    }
}

proof fn lemma_no_conflict(entries: Seq<EntryView>, idxs: Seq<int>, n: int)
    requires
        0 <= n <= idxs.len(),
        !any_conflict(entries, idxs, n),
    ensures
        forall|k: int|
            0 <= k < n && 0 <= (#[trigger] idxs[k]) < entries.len() ==> entries[idxs[k]].kind
                != ChangeKind::Conflicted,
    decreases n,
{
    if n > 0 {
        lemma_no_conflict(entries, idxs, n - 1);
    }
}

/// A folder action covers exactly the files under the folder in the folder's
/// own section, and never a conflicted one.
pub proof fn law_a_folder_action_stays_in_its_section(s: AppView, i: int)
    requires
        s.target() matches TargetView::Acts { folder, .. } && folder is Some,
        0 <= i < s.entries.len(),
    ensures
        ({
            let t = s.target();
            &&& t->idxs.contains(i) <==> in_dir(s.entries[i], t->folder->0, t->section)
            &&& t->idxs.contains(i) ==> s.entries[i].kind != ChangeKind::Conflicted
        }),
{
    let t = s.target();
    lemma_entries_under(s.entries, t->folder->0, t->section, s.entries.len() as int);
    lemma_no_conflict(s.entries, t->idxs, t->idxs.len() as int);
}

proof fn lemma_paths_of(entries: Seq<EntryView>, idxs: Seq<int>, n: int)
    requires
        0 <= n <= idxs.len(),
        forall|k: int| 0 <= k < n ==> 0 <= (#[trigger] idxs[k]) < entries.len(),
    ensures
        paths_of(entries, idxs, n).len() == n,
    decreases n,
{
    if n > 0 {
        lemma_paths_of(entries, idxs, n - 1);
    }
}

proof fn lemma_staged_paths(entries: Seq<EntryView>, idxs: Seq<int>, n: int)
    requires
        0 <= n <= idxs.len(),
    ensures
        any_staged(entries, idxs, n) <==> staged_paths(entries, idxs, n).len() > 0,
    decreases n,
{
    if n > 0 {
        lemma_staged_paths(entries, idxs, n - 1);
    }
}

/// The footer and the actions agree: what the footer offers runs, and what it
/// does not offer is refused. The rows show entries that exist.
pub proof fn law_the_footer_agrees_with_the_actions(s: AppView)
    requires
        s.row() matches Some(ListRowView::Entry { idx, .. }) ==> 0 <= idx < s.entries.len(),
    ensures
        s.ops().stage <==> s.stage_toggled().1 is Mutate,
        s.ops().unstage <==> s.unstaged().1 is Mutate,
        s.ops().discard <==> s.discard_asked().modal is Some && s.target() is Acts,
        s.ops().stage_unstages ==> s.stage_toggled().1->Mutate_0.unstage,
{
    if let Some((section, folder, idxs)) = row_entries(s) {
        if let Some(dir) = folder {
            lemma_entries_under(s.entries, dir, section, s.entries.len() as int);
        }
        lemma_paths_of(s.entries, idxs, idxs.len() as int);
        lemma_staged_paths(s.entries, idxs, idxs.len() as int);
    }
}

/// `s` and `x` never change the list by themselves: nothing is staged or
/// discarded before git was asked.
pub proof fn law_asking_changes_no_entry(s: AppView)
    ensures
        s.stage_toggled().0.entries == s.entries,
        s.unstaged().0.entries == s.entries,
        s.discard_asked().entries == s.entries,
{
}

// ---- the actions -----------------------------------------------------------------

fn is_staged_side(e: &FileEntry) -> (r: bool)
    ensures
        r == has_staged_side(e@),
{
    e.stage == StageState::Staged || e.stage == StageState::Partial
}

impl App {
    /// `s`: section-aware: in "staged changes" it unstages, in "changes" it
    /// stages. The file then moves to the other section. On a directory row it
    /// applies to every file under it in that section.
    pub fn stage_toggle(&mut self) -> (r: Effect)
        ensures
            (final(self)@, r@) == old(self)@.stage_toggled(),
    {
        match self.mutation_target() {
            None => Effect::Nothing,
            Some(target) => {
                let paths = self.paths(&target.idxs);
                Effect::Mutate(
                    Mutation {
                        unstage: target.section.cached(),
                        paths,
                        folder: target.folder,
                        report: true,
                    },
                )
            },
        }
    }

    /// `u`: explicitly unstage the selected file (or folder), whichever
    /// section it is in.
    pub fn unstage_selected(&mut self) -> (r: Effect)
        ensures
            (final(self)@, r@) == old(self)@.unstaged(),
    {
        match self.mutation_target() {
            None => Effect::Nothing,
            Some(target) => {
                let paths = self.staged_side(&target.idxs);
                if paths.len() == 0 {
                    assert(strs(paths@).len() == 0);
                    if target.folder.is_none() {
                        self.set_status("nothing staged for this file");
                    } else {
                        self.set_status("nothing staged in this folder");
                    }
                    return Effect::Nothing;
                }
                assert(strs(paths@).len() == paths@.len());
                Effect::Mutate(Mutation { unstage: true, paths, folder: None, report: false })
            },
        }
    }

    /// `x`: ask before throwing changes away (refused for conflicts).
    pub fn open_discard_confirm(&mut self)
        ensures
            final(self)@ == old(self)@.discard_asked(),
    {
        match self.mutation_target() {
            None => {},
            Some(target) => {
                let paths = self.paths(&target.idxs);
                assert(strs(paths@).len() == paths@.len());
                if paths.len() == 0 {
                    return ;
                }
                let mut text = copy("Discard changes to ");
                match &target.folder {
                    None => {
                        assert(strs(paths@)[0] == paths@[0]@);
                        append(&mut text, paths[0].as_str());
                    },
                    Some(folder) => {
                        append_dec(&mut text, paths.len() as u64);
                        append(&mut text, " file(s) under ");
                        append(&mut text, folder.as_str());
                    },
                }
                append(&mut text, "? This cannot be undone. (y/n)");
                self.modal = Some(
                    Modal::Confirm { text, pending: PendingAction::Discard { paths } },
                );
            },
        }
    }

    /// What the cursor points at as the target of an action, with the shared
    /// guards applied. Where the action cannot run, the reason is said.
    fn mutation_target(&mut self) -> (r: Option<Target>)
        ensures
            (match (r, old(self)@.target()) {
                (Some(t), TargetView::Acts { section, folder, idxs }) => t.section == section
                    && opt_str(t.folder) == folder && ints(t.idxs@) == idxs,
                (None, TargetView::Acts { .. }) => false,
                (Some(_), _) => false,
                (None, _) => true,
            }),
            final(self)@ == old(self)@.refused(),
    {
        if self.mode != Mode::Files {
            self.set_status("read-only in history view");
            return None;
        }
        if self.scope != Scope::Worktree {
            self.set_status("works in working-tree scope (w)");
            return None;
        }
        match self.row_target() {
            None => None,
            Some(target) => {
                if self.has_conflict(&target.idxs) {
                    self.set_status("resolve the conflict in the editor first");
                    return None;
                }
                assert(ints(target.idxs@).len() == target.idxs@.len());
                if target.idxs.len() == 0 {
                    self.set_status("nothing to do in this folder");
                    return None;
                }
                Some(target)
            },
        }
    }

    fn row_target(&self) -> (r: Option<Target>)
        ensures
            (match (r, row_entries(self@)) {
                (Some(t), Some((section, folder, idxs))) => t.section == section && opt_str(
                    t.folder,
                ) == folder && ints(t.idxs@) == idxs,
                (None, None) => true,
                _ => false,
            }),
    {
        if self.cursor >= self.rows.len() {
            return None;
        }
        assert(list_view(self.rows@)[self.cursor as int] == self.rows@[self.cursor as int]@);
        match &self.rows[self.cursor] {
            ListRow::Entry { idx, section, .. } => {
                let mut idxs: Vec<usize> = Vec::new();
                idxs.push(*idx);
                assert(ints(idxs@) =~= seq![*idx as int]);
                Some(Target { section: *section, folder: None, idxs })
            },
            ListRow::Dir { path, section, .. } => {
                let idxs = self.entries_in_dir(path.as_str(), *section);
                Some(Target { section: *section, folder: Some(copy(path.as_str())), idxs })
            },
            _ => None,
        }
    }

    /// Which mutating actions the cursor's selection allows. The footer asks
    /// this rather than deciding by a rule of its own.
    pub fn selection_ops(&self) -> (r: Ops)
        ensures
            r == self@.ops(),
    {
        let none = Ops { stage: false, unstage: false, discard: false, stage_unstages: false };
        if self.mode != Mode::Files || self.scope != Scope::Worktree {
            return none;
        }
        match self.row_target() {
            None => none,
            Some(t) => {
                let paths = self.paths(&t.idxs);
                assert(strs(paths@).len() == paths@.len());
                if paths.len() == 0 || self.has_conflict(&t.idxs) {
                    none
                } else {
                    let side = self.staged_side(&t.idxs);
                    proof {
                        assert(strs(side@).len() == side@.len());
                        lemma_staged_paths(self@.entries, ints(t.idxs@), t.idxs@.len() as int);
                    }
                    Ops {
                        stage: true,
                        discard: true,
                        unstage: side.len() > 0,
                        stage_unstages: t.section.cached(),
                    }
                }
            },
        }
    }

    /// Entries under a directory row, restricted to that row's section, so
    /// that `s` on "staged changes / src/" only touches the staged side.
    fn entries_in_dir(&self, dir: &str, section: Section) -> (r: Vec<usize>)
        ensures
            ints(r@) == entries_under(self@.entries, dir@, section, self@.entries.len() as int),
    {
        let ghost all = entries_view(self.entries@);
        let mut out: Vec<usize> = Vec::new();
        let mut i: usize = 0;
        assert(ints(out@) =~= Seq::<int>::empty());
        while i < self.entries.len()
            invariant
                i <= self.entries@.len(),
                all == entries_view(self.entries@),
                ints(out@) == entries_under(all, dir@, section, i as int),
            decreases self.entries@.len() - i,
        {
            assert(all[i as int] == self.entries@[i as int]@);
            if has_prefix(self.entries[i].path.as_str(), dir) && section.holds(&self.entries[i]) {
                assert(ints(out@.push(i)) =~= ints(out@).push(i as int));
                out.push(i);
            }
            i += 1;
        }
        out
    }

    fn paths(&self, idxs: &Vec<usize>) -> (r: Vec<String>)
        ensures
            strs(r@) == paths_of(self@.entries, ints(idxs@), idxs@.len() as int),
    {
        let ghost all = entries_view(self.entries@);
        let mut out: Vec<String> = Vec::new();
        let mut k: usize = 0;
        assert(strs(out@) =~= Seq::<Seq<char>>::empty());
        while k < idxs.len()
            invariant
                k <= idxs@.len(),
                all == entries_view(self.entries@),
                strs(out@) == paths_of(all, ints(idxs@), k as int),
            decreases idxs@.len() - k,
        {
            let i = idxs[k];
            assert(ints(idxs@)[k as int] == i);
            if i < self.entries.len() {
                assert(all[i as int] == self.entries@[i as int]@);
                out.push(copy(self.entries[i].path.as_str()));
            }
            k += 1;
        }
        out
    }

    fn staged_side(&self, idxs: &Vec<usize>) -> (r: Vec<String>)
        ensures
            strs(r@) == staged_paths(self@.entries, ints(idxs@), idxs@.len() as int),
    {
        let ghost all = entries_view(self.entries@);
        let mut out: Vec<String> = Vec::new();
        let mut k: usize = 0;
        assert(strs(out@) =~= Seq::<Seq<char>>::empty());
        while k < idxs.len()
            invariant
                k <= idxs@.len(),
                all == entries_view(self.entries@),
                strs(out@) == staged_paths(all, ints(idxs@), k as int),
            decreases idxs@.len() - k,
        {
            let i = idxs[k];
            assert(ints(idxs@)[k as int] == i);
            if i < self.entries.len() {
                assert(all[i as int] == self.entries@[i as int]@);
                if is_staged_side(&self.entries[i]) {
                    out.push(copy(self.entries[i].path.as_str()));
                }
            }
            k += 1;
        }
        out
    }

    fn has_conflict(&self, idxs: &Vec<usize>) -> (r: bool)
        ensures
            r == any_conflict(self@.entries, ints(idxs@), idxs@.len() as int),
    {
        let ghost all = entries_view(self.entries@);
        let mut k: usize = idxs.len();
        while k > 0
            invariant
                k <= idxs@.len(),
                all == entries_view(self.entries@),
                any_conflict(all, ints(idxs@), idxs@.len() as int) == any_conflict(
                    all,
                    ints(idxs@),
                    k as int,
                ),
            decreases k,
        {
            let i = idxs[k - 1];
            assert(ints(idxs@)[k - 1] == i);
            if i < self.entries.len() {
                assert(all[i as int] == self.entries@[i as int]@);
                if self.entries[i].kind == ChangeKind::Conflicted {
                    return true;
                }
            }
            k -= 1;
        }
        false
    }

    /// The entries of these paths, to be discarded one by one up to the first
    /// failure. A path whose entry is gone in the meantime is skipped.
    pub fn discard_paths(&self, paths: &Vec<String>) -> (r: Vec<FileEntry>)
        ensures
            entries_view(r@) == entries_of(self@.entries, strs(paths@), paths@.len() as int),
    {
        let ghost all = entries_view(self.entries@);
        let mut out: Vec<FileEntry> = Vec::new();
        let mut k: usize = 0;
        assert(entries_view(out@) =~= Seq::<EntryView>::empty());
        while k < paths.len()
            invariant
                k <= paths@.len(),
                all == entries_view(self.entries@),
                entries_view(out@) == entries_of(all, strs(paths@), k as int),
            decreases paths@.len() - k,
        {
            let ghost before = entries_view(out@);
            assert(strs(paths@)[k as int] == paths@[k as int]@);
            match self.find_entry(paths[k].as_str()) {
                Some(e) => {
                    proof {
                        lemma_entries_push(out@, e);
                        assert(before + seq![e@] =~= before.push(e@));
                    }
                    out.push(e);
                },
                None => {
                    assert(before + Seq::<EntryView>::empty() =~= before);
                },
            }
            k += 1;
        }
        out
    }

    fn find_entry(&self, path: &str) -> (r: Option<FileEntry>)
        ensures
            (match r {
                Some(e) => entry_of(self@.entries, path@, 0) == seq![e@],
                None => entry_of(self@.entries, path@, 0) == Seq::<EntryView>::empty(),
            }),
    {
        let ghost all = entries_view(self.entries@);
        let mut i: usize = 0;
        while i < self.entries.len()
            invariant
                i <= self.entries@.len(),
                all == entries_view(self.entries@),
                entry_of(all, path@, 0) == entry_of(all, path@, i as int),
            decreases self.entries@.len() - i,
        {
            assert(all[i as int] == self.entries@[i as int]@);
            if path_eq(self.entries[i].path.as_str(), path) {
                return Some(self.entries[i].clone());
            }
            i += 1;
        }
        None
    }
}

// ---- what the keys are about -----------------------------------------------------

proof fn lemma_paths_are_of(entries: Seq<EntryView>, idxs: Seq<int>, n: int)
    requires
        0 <= n <= idxs.len(),
        forall|k: int| 0 <= k < n ==> 0 <= (#[trigger] idxs[k]) < entries.len(),
    ensures
        paths_of(entries, idxs, n) == Seq::new(n as nat, |k: int| entries[idxs[k]].path),
    decreases n,
{
    if n > 0 {
        lemma_paths_are_of(entries, idxs, n - 1);
    }
    assert(paths_of(entries, idxs, n) =~= Seq::new(n as nat, |k: int| entries[idxs[k]].path));
}

/// On a file, `s` stages that file, or unstages it where it is shown as staged;
/// `u` unstages it where it has a staged side; and `x` asks about that file.
/// The section decides, not the file: a partial one goes either way.
pub proof fn law_keys_are_about_the_file_under_the_cursor(s: AppView)
    requires
        s.mode == Mode::Files,
        s.scope == Scope::Worktree,
        s.row() matches Some(ListRowView::Entry { idx, .. }) && 0 <= idx < s.entries.len()
            && s.entries[idx].kind != ChangeKind::Conflicted,
    ensures
        ({
            let (e, section) = s.entry()->0;
            let staged = e.stage == StageState::Staged || e.stage == StageState::Partial;
            &&& s.stage_toggled() == (
                s,
                EffectView::Mutate(
                    MutationView {
                        unstage: section == Section::Staged,
                        paths: seq![e.path],
                        folder: None,
                        report: true,
                    },
                ),
            )
            &&& staged ==> s.unstaged() == (
                s,
                EffectView::Mutate(
                    MutationView { unstage: true, paths: seq![e.path], folder: None, report: false },
                ),
            )
            &&& !staged ==> s.unstaged().1 is Nothing
            &&& s.discard_asked().modal matches Some(ModalView::Confirm { discard, .. }) && discard
                == seq![e.path]
        }),
{
    let idx = s.row()->0->Entry_idx;
    let e = s.entries[idx];
    let idxs = seq![idx];
    reveal_with_fuel(paths_of, 2);
    reveal_with_fuel(staged_paths, 2);
    reveal_with_fuel(any_conflict, 2);
    assert((row_entries(s)->Some_0).2 == idxs);
    assert(paths_of(s.entries, idxs, 1) =~= seq![e.path]);
    assert(has_staged_side(e) ==> staged_paths(s.entries, idxs, 1) =~= seq![e.path]);
}

/// On a directory, `s` and `x` are about the files under it that its section
/// shows, all of them and no other.
pub proof fn law_keys_on_a_directory_are_about_its_files(s: AppView, path: Seq<char>)
    requires
        s.target() matches TargetView::Acts { folder, .. } && folder is Some,
    ensures
        ({
            let t = s.target();
            let listed = exists|i: int|
                0 <= i < s.entries.len() && (#[trigger] s.entries[i]).path == path && starts_with(
                    path,
                    t->folder->0,
                ) && t->section.shows(s.entries[i]);
            &&& s.stage_toggled().1 matches EffectView::Mutate(m) && (m.paths.contains(path)
                <==> listed) && (m.unstage <==> t->section == Section::Staged)
            &&& s.discard_asked().modal matches Some(ModalView::Confirm { discard, .. }) && (
            discard.contains(path) <==> listed)
        }),
{
    let t = s.target();
    let dir = t->folder->0;
    let idxs = t->idxs;
    let n = idxs.len() as int;
    lemma_entries_under(s.entries, dir, t->section, s.entries.len() as int);
    lemma_paths_are_of(s.entries, idxs, n);
    let paths = paths_of(s.entries, idxs, n);
    if paths.contains(path) {
        let k = choose|k: int| 0 <= k < paths.len() && paths[k] == path;
        assert(in_dir(s.entries[idxs[k]], dir, t->section));
        assert(s.entries[idxs[k]].path == path);
    }
    if exists|i: int|
        0 <= i < s.entries.len() && (#[trigger] s.entries[i]).path == path && starts_with(path, dir)
            && t->section.shows(s.entries[i]) {
        let i = choose|i: int|
            0 <= i < s.entries.len() && (#[trigger] s.entries[i]).path == path && starts_with(
                path,
                dir,
            ) && t->section.shows(s.entries[i]);
        assert(in_dir(s.entries[i], dir, t->section));
        assert(idxs.contains(i));
        let k = choose|k: int| 0 <= k < idxs.len() && idxs[k] == i;
        assert(paths[k] == path);
    }
}

} // verus!
