//! The list's visual rows: which section an entry belongs to, what a row is,
//! and how entries, commits and notes become rows.
use crate::git::{entries_view, xy_stage, ChangeKind, EntryView, FileEntry, StageState};
use crate::ipc::{infos_view, NoteInfo, NoteInfoView};
use crate::list::tree::{
    build_tree, is_file, law_a_tree_shows_every_file, pairs_view, rows_view, tree, unambiguous,
    TreeRow, TreeRowView,
};
use crate::path::{path_eq, same_path};
use crate::text::{copy, lemma_strs_push, strs};
use vstd::prelude::*;

verus! {

broadcast use {vstd::string::group_string_axioms, lemma_strs_push};

/// Which section of the grouped worktree view a row belongs to. This is the
/// row's identity, not a `staged` flag: "merge conflicts" and "changes" are
/// both unstaged, so a flag could not tell them apart.
#[derive(Debug, Clone, Copy, PartialEq, Eq, Structural)]
pub enum Section {
    Conflicts,
    Staged,
    Changes,
    /// Branch scope and commit files: one unsectioned tree.
    Flat,
}

impl Section {
    /// Whether the section shows `e`. A partially staged file is in both
    /// "staged changes" and "changes".
    pub open spec fn shows(self, e: EntryView) -> bool {
        let conflicted = e.kind == ChangeKind::Conflicted;
        match self {
            Section::Conflicts => conflicted,
            Section::Staged => !conflicted && (e.stage == StageState::Staged || e.stage
                == StageState::Partial),
            Section::Changes => !conflicted && (e.stage == StageState::Unstaged || e.stage
                == StageState::Partial || e.stage == StageState::Untracked),
            Section::Flat => true,
        }
    }

    pub open spec fn heading(self) -> Seq<char> {
        match self {
            Section::Conflicts => "merge conflicts"@,
            Section::Staged => "staged changes"@,
            Section::Changes => "changes"@,
            Section::Flat => ""@,
        }
    }

    /// Does this section show `entry`?
    pub fn holds(self, entry: &FileEntry) -> (r: bool)
        ensures
            r == self.shows(entry@),
    {
        let conflicted = entry.kind == ChangeKind::Conflicted;
        match self {
            Section::Conflicts => conflicted,
            Section::Staged => !conflicted && (entry.stage == StageState::Staged || entry.stage
                == StageState::Partial),
            Section::Changes => !conflicted && (entry.stage == StageState::Unstaged || entry.stage
                == StageState::Partial || entry.stage == StageState::Untracked),
            Section::Flat => true,
        }
    }

    /// Whether the preview should show the staged diff.
    pub fn cached(self) -> (r: bool)
        ensures
            r == (self == Section::Staged),
    {
        self == Section::Staged
    }

    fn title(self) -> (r: &'static str)
        ensures
            r@ == self.heading(),
    {
        match self {
            Section::Conflicts => "merge conflicts",
            Section::Staged => "staged changes",
            Section::Changes => "changes",
            Section::Flat => "",
        }
    }
}

/// The worktree sections are disjoint but for partially staged files, which
/// are in "staged changes" and in "changes".
pub proof fn law_only_partial_files_are_in_two_sections(e: EntryView)
    ensures
        Section::Conflicts.shows(e) ==> !Section::Staged.shows(e) && !Section::Changes.shows(e),
        Section::Staged.shows(e) && Section::Changes.shows(e) <==> e.stage == StageState::Partial
            && e.kind != ChangeKind::Conflicted,
        e.stage != StageState::NA ==> Section::Conflicts.shows(e) || Section::Staged.shows(e)
            || Section::Changes.shows(e),
{
}

/// One visual row of the list.
#[derive(Debug)]
pub enum ListRow {
    Header { title: &'static str, count: usize },
    /// A directory of the file tree; Enter or a click collapses or expands
    /// the subtree below it. `path` (from the tree's root, with a trailing
    /// slash) and `section` are its identity.
    Dir { depth: usize, name: String, path: String, section: Section, collapsed: bool },
    Entry { idx: usize, section: Section, depth: usize },
    Commit(usize),
    /// A file heading in the notes view (not selectable).
    NoteFile { name: String, count: usize },
    Note(usize),
}

#[verifier::ext_equal]
pub enum ListRowView {
    Header { title: Seq<char>, count: int },
    Dir { depth: int, name: Seq<char>, path: Seq<char>, section: Section, collapsed: bool },
    Entry { idx: int, section: Section, depth: int },
    Commit(int),
    NoteFile { name: Seq<char>, count: int },
    Note(int),
}

impl View for ListRow {
    type V = ListRowView;

    open spec fn view(&self) -> ListRowView {
        match self {
            ListRow::Header { title, count } => ListRowView::Header {
                title: title@,
                count: *count as int,
            },
            ListRow::Dir { depth, name, path, section, collapsed } => ListRowView::Dir {
                depth: *depth as int,
                name: name@,
                path: path@,
                section: *section,
                collapsed: *collapsed,
            },
            ListRow::Entry { idx, section, depth } => ListRowView::Entry {
                idx: *idx as int,
                section: *section,
                depth: *depth as int,
            },
            ListRow::Commit(i) => ListRowView::Commit(*i as int),
            ListRow::NoteFile { name, count } => ListRowView::NoteFile {
                name: name@,
                count: *count as int,
            },
            ListRow::Note(i) => ListRowView::Note(*i as int),
        }
    }
}

pub open spec fn list_view(s: Seq<ListRow>) -> Seq<ListRowView> {
    s.map_values(|r: ListRow| r@)
}

pub broadcast proof fn lemma_list_push(s: Seq<ListRow>, r: ListRow)
    ensures
        #[trigger] list_view(s.push(r)) == list_view(s).push(r@),
{
    assert(list_view(s.push(r)) =~= list_view(s).push(r@));
}

impl ListRowView {
    /// Whether the cursor may rest on the row.
    pub open spec fn can_select(self) -> bool {
        !(self is Header || self is NoteFile)
    }

    /// How many terminal rows it is drawn as.
    pub open spec fn rows_high(self) -> int {
        if self is Note {
            2
        } else {
            1
        }
    }
}

impl ListRow {
    pub fn selectable(&self) -> (r: bool)
        ensures
            r == self@.can_select(),
    {
        match self {
            ListRow::Header { .. } => false,
            ListRow::NoteFile { .. } => false,
            _ => true,
        }
    }

    /// How many terminal rows this row is drawn as. Notes are two lines (an
    /// anchor line and their text), everything else is one.
    pub fn height(&self) -> (r: usize)
        ensures
            r == self@.rows_high(),
    {
        match self {
            ListRow::Note(_) => 2,
            _ => 1,
        }
    }
}

// ---- trees -------------------------------------------------------------------

/// The collapsed directories, as they are kept: with their section.
pub open spec fn collapsed_view(s: Seq<(Section, String)>) -> Seq<(Section, Seq<char>)> {
    s.map_values(|p: (Section, String)| (p.0, p.1@))
}

/// The collapsed paths of one section among the first `n`.
pub open spec fn collapsed_in(c: Seq<(Section, Seq<char>)>, section: Section, n: int) -> Seq<
    Seq<char>,
>
    decreases n,
{
    if n <= 0 {
        Seq::empty()
    } else if c[n - 1].0 == section {
        collapsed_in(c, section, n - 1).push(c[n - 1].1)
    } else {
        collapsed_in(c, section, n - 1)
    }
}

/// Those of the first `n` entries that the section shows, in order.
pub open spec fn in_section(entries: Seq<EntryView>, section: Section, n: int) -> Seq<
    (usize, Seq<char>),
>
    decreases n,
{
    if n <= 0 {
        Seq::empty()
    } else if section.shows(entries[n - 1]) {
        in_section(entries, section, n - 1).push(((n - 1) as usize, entries[n - 1].path))
    } else {
        in_section(entries, section, n - 1)
    }
}

/// A row of a tree as a row of the list.
pub open spec fn list_row(r: TreeRowView, section: Section) -> ListRowView {
    match r {
        TreeRowView::Dir { depth, name, path, collapsed } => ListRowView::Dir {
            depth,
            name,
            path,
            section,
            collapsed,
        },
        TreeRowView::File { depth, idx } => ListRowView::Entry {
            idx: idx as int,
            section,
            depth,
        },
    }
}

/// The tree of the entries that a section shows.
pub open spec fn tree_rows(
    entries: Seq<EntryView>,
    section: Section,
    collapsed: Seq<(Section, Seq<char>)>,
) -> Seq<ListRowView> {
    tree(
        in_section(entries, section, entries.len() as int),
        collapsed_in(collapsed, section, collapsed.len() as int),
    ).map_values(|r: TreeRowView| list_row(r, section))
}

/// A section with its heading; nothing where it shows no entry.
pub open spec fn section_rows(
    entries: Seq<EntryView>,
    section: Section,
    collapsed: Seq<(Section, Seq<char>)>,
) -> Seq<ListRowView> {
    let shown = in_section(entries, section, entries.len() as int);
    if shown.len() == 0 {
        Seq::empty()
    } else {
        seq![ListRowView::Header { title: section.heading(), count: shown.len() as int }]
            + tree_rows(entries, section, collapsed)
    }
}

/// The worktree sections: conflicts, staged, changes.
pub open spec fn grouped_rows(
    entries: Seq<EntryView>,
    collapsed: Seq<(Section, Seq<char>)>,
) -> Seq<ListRowView> {
    section_rows(entries, Section::Conflicts, collapsed) + section_rows(
        entries,
        Section::Staged,
        collapsed,
    ) + section_rows(entries, Section::Changes, collapsed)
}

/// Entries that a section shows, with their paths.
fn entries_in_section(entries: &Vec<FileEntry>, section: Section) -> (r: Vec<(usize, String)>)
    ensures
        pairs_view(r@) == in_section(entries_view(entries@), section, entries@.len() as int),
{
    let ghost all = entries_view(entries@);
    let mut out: Vec<(usize, String)> = Vec::new();
    let mut i: usize = 0;
    assert(pairs_view(out@) =~= Seq::<(usize, Seq<char>)>::empty());
    while i < entries.len()
        invariant
            i <= entries@.len(),
            all == entries_view(entries@),
            pairs_view(out@) == in_section(all, section, i as int),
        decreases entries@.len() - i,
    {
        assert(all[i as int] == entries@[i as int]@);
        if section.holds(&entries[i]) {
            let pair = (i, copy(entries[i].path.as_str()));
            assert(pairs_view(out@.push(pair)) =~= pairs_view(out@).push((pair.0, pair.1@)));
            out.push(pair);
        }
        i += 1;
    }
    out
}

fn collapsed_for(collapsed: &Vec<(Section, String)>, section: Section) -> (r: Vec<String>)
    ensures
        strs(r@) == collapsed_in(collapsed_view(collapsed@), section, collapsed@.len() as int),
{
    let ghost all = collapsed_view(collapsed@);
    let mut out: Vec<String> = Vec::new();
    let mut i: usize = 0;
    assert(strs(out@) =~= Seq::<Seq<char>>::empty());
    while i < collapsed.len()
        invariant
            i <= collapsed@.len(),
            all == collapsed_view(collapsed@),
            strs(out@) == collapsed_in(all, section, i as int),
        decreases collapsed@.len() - i,
    {
        assert(all[i as int] == (collapsed@[i as int].0, collapsed@[i as int].1@));
        if collapsed[i].0 == section {
            out.push(copy(collapsed[i].1.as_str()));
        }
        i += 1;
    }
    out
}

/// Append the tree of `shown` to `out`.
fn push_tree(
    shown: &Vec<(usize, String)>,
    section: Section,
    collapsed: &Vec<(Section, String)>,
    out: &mut Vec<ListRow>,
)
    ensures
        list_view(final(out)@) == list_view(old(out)@) + tree(
            pairs_view(shown@),
            collapsed_in(collapsed_view(collapsed@), section, collapsed@.len() as int),
        ).map_values(|r: TreeRowView| list_row(r, section)),
{
    broadcast use lemma_list_push;

    let names = collapsed_for(collapsed, section);
    let rows = build_tree(shown, &names);
    let ghost before = list_view(out@);
    let ghost all = rows_view(rows@);
    let ghost want = all.map_values(|r: TreeRowView| list_row(r, section));
    let mut i: usize = 0;
    assert(before + want.take(0) =~= before);
    while i < rows.len()
        invariant
            i <= rows@.len(),
            all == rows_view(rows@),
            want == all.map_values(|r: TreeRowView| list_row(r, section)),
            list_view(out@) == before + want.take(i as int),
        decreases rows@.len() - i,
    {
        assert(all[i as int] == rows@[i as int]@);
        let row = match &rows[i] {
            TreeRow::Dir { depth, name, path, collapsed } => ListRow::Dir {
                depth: *depth,
                name: copy(name.as_str()),
                path: copy(path.as_str()),
                section,
                collapsed: *collapsed,
            },
            TreeRow::File { depth, idx } => ListRow::Entry { idx: *idx, section, depth: *depth },
        };
        proof {
            assert(row@ == want[i as int]);
            assert((before + want.take(i as int)).push(row@) =~= before + want.take(i + 1));
        }
        out.push(row);
        i += 1;
    }
    assert(want.take(i as int) =~= want);
}

/// One tree spanning every entry, unsectioned.
pub fn flat_tree_rows(
    entries: &Vec<FileEntry>,
    collapsed: &Vec<(Section, String)>,
) -> (r: Vec<ListRow>)
    ensures
        list_view(r@) == tree_rows(
            entries_view(entries@),
            Section::Flat,
            collapsed_view(collapsed@),
        ),
{
    let mut out: Vec<ListRow> = Vec::new();
    let shown = entries_in_section(entries, Section::Flat);
    assert(list_view(out@) =~= Seq::<ListRowView>::empty());
    push_tree(&shown, Section::Flat, collapsed, &mut out);
    assert(list_view(out@) =~= tree_rows(
        entries_view(entries@),
        Section::Flat,
        collapsed_view(collapsed@),
    ));
    out
}

fn push_section(
    entries: &Vec<FileEntry>,
    section: Section,
    collapsed: &Vec<(Section, String)>,
    out: &mut Vec<ListRow>,
)
    ensures
        list_view(final(out)@) == list_view(old(out)@) + section_rows(
            entries_view(entries@),
            section,
            collapsed_view(collapsed@),
        ),
{
    broadcast use lemma_list_push;

    let ghost before = list_view(out@);
    let shown = entries_in_section(entries, section);
    let ghost all = pairs_view(shown@);
    if shown.len() == 0 {
        assert(all.len() == 0);
        assert(before + Seq::<ListRowView>::empty() =~= before);
        return ;
    }
    assert(all.len() == shown@.len());
    out.push(ListRow::Header { title: section.title(), count: shown.len() });
    push_tree(&shown, section, collapsed, out);
    assert(list_view(out@) =~= before + section_rows(
        entries_view(entries@),
        section,
        collapsed_view(collapsed@),
    ));
}

/// The worktree sections: conflicts, staged, changes.
pub fn grouped(entries: &Vec<FileEntry>, collapsed: &Vec<(Section, String)>) -> (r: Vec<ListRow>)
    ensures
        list_view(r@) == grouped_rows(entries_view(entries@), collapsed_view(collapsed@)),
{
    let mut out: Vec<ListRow> = Vec::new();
    assert(list_view(out@) =~= Seq::<ListRowView>::empty());
    push_section(entries, Section::Conflicts, collapsed, &mut out);
    push_section(entries, Section::Staged, collapsed, &mut out);
    push_section(entries, Section::Changes, collapsed, &mut out);
    assert(list_view(out@) =~= grouped_rows(entries_view(entries@), collapsed_view(collapsed@)));
    out
}

// ---- notes ---------------------------------------------------------------------

/// Whether one of the first `n` files is the same as `f`.
pub open spec fn has_file(files: Seq<Seq<char>>, f: Seq<char>, n: int) -> bool
    decreases n,
{
    n > 0 && (same_path(files[n - 1], f) || has_file(files, f, n - 1))
}

/// The files of the first `n` notes, in first-seen order.
pub open spec fn noted_files(notes: Seq<NoteInfoView>, n: int) -> Seq<Seq<char>>
    decreases n,
{
    if n <= 0 {
        Seq::empty()
    } else {
        let seen = noted_files(notes, n - 1);
        if has_file(seen, notes[n - 1].file, seen.len() as int) {
            seen
        } else {
            seen.push(notes[n - 1].file)
        }
    }
}

/// The rows of those of the first `n` notes that are on `file`.
pub open spec fn notes_on(notes: Seq<NoteInfoView>, file: Seq<char>, n: int) -> Seq<ListRowView>
    decreases n,
{
    if n <= 0 {
        Seq::empty()
    } else if same_path(notes[n - 1].file, file) {
        notes_on(notes, file, n - 1).push(ListRowView::Note(n - 1))
    } else {
        notes_on(notes, file, n - 1)
    }
}

/// The rows of the first `n` files: a heading each, then its notes.
pub open spec fn note_groups(notes: Seq<NoteInfoView>, files: Seq<Seq<char>>, n: int) -> Seq<
    ListRowView,
>
    decreases n,
{
    if n <= 0 {
        Seq::empty()
    } else {
        let on = notes_on(notes, files[n - 1], notes.len() as int);
        note_groups(notes, files, n - 1) + seq![
            ListRowView::NoteFile { name: files[n - 1], count: on.len() as int },
        ] + on
    }
}

/// Notes grouped under a heading per file, in first-seen order, so that a
/// review of several files reads as a review rather than a flat list.
pub open spec fn note_rows(notes: Seq<NoteInfoView>) -> Seq<ListRowView> {
    let files = noted_files(notes, notes.len() as int);
    note_groups(notes, files, files.len() as int)
}

fn seen_file(files: &Vec<String>, f: &str) -> (r: bool)
    ensures
        r == has_file(strs(files@), f@, files@.len() as int),
{
    let ghost all = strs(files@);
    let mut n: usize = files.len();
    while n > 0
        invariant
            n <= files@.len(),
            all == strs(files@),
            has_file(all, f@, n as int) == has_file(all, f@, files@.len() as int),
        decreases n,
    {
        assert(all[n - 1] == files@[n - 1]@);
        if path_eq(files[n - 1].as_str(), f) {
            return true;
        }
        n -= 1;
    }
    false
}

fn files_of(notes: &Vec<NoteInfo>) -> (r: Vec<String>)
    ensures
        strs(r@) == noted_files(infos_view(notes@), notes@.len() as int),
{
    let ghost all = infos_view(notes@);
    let mut out: Vec<String> = Vec::new();
    let mut i: usize = 0;
    assert(strs(out@) =~= Seq::<Seq<char>>::empty());
    while i < notes.len()
        invariant
            i <= notes@.len(),
            all == infos_view(notes@),
            strs(out@) == noted_files(all, i as int),
        decreases notes@.len() - i,
    {
        assert(all[i as int] == notes@[i as int]@);
        if !seen_file(&out, notes[i].file.as_str()) {
            out.push(copy(notes[i].file.as_str()));
        }
        i += 1;
    }
    out
}

fn rows_on(notes: &Vec<NoteInfo>, file: &str) -> (r: Vec<ListRow>)
    ensures
        list_view(r@) == notes_on(infos_view(notes@), file@, notes@.len() as int),
{
    broadcast use lemma_list_push;

    let ghost all = infos_view(notes@);
    let mut out: Vec<ListRow> = Vec::new();
    let mut i: usize = 0;
    assert(list_view(out@) =~= Seq::<ListRowView>::empty());
    while i < notes.len()
        invariant
            i <= notes@.len(),
            all == infos_view(notes@),
            list_view(out@) == notes_on(all, file@, i as int),
        decreases notes@.len() - i,
    {
        assert(all[i as int] == notes@[i as int]@);
        if path_eq(notes[i].file.as_str(), file) {
            out.push(ListRow::Note(i));
        }
        i += 1;
    }
    out
}

/// The rows of the notes view.
pub fn rows_of_notes(notes: &Vec<NoteInfo>) -> (r: Vec<ListRow>)
    ensures
        list_view(r@) == note_rows(infos_view(notes@)),
{
    broadcast use lemma_list_push;

    let ghost all = infos_view(notes@);
    let files = files_of(notes);
    let ghost fs = strs(files@);
    let mut out: Vec<ListRow> = Vec::new();
    let mut i: usize = 0;
    assert(list_view(out@) =~= Seq::<ListRowView>::empty());
    while i < files.len()
        invariant
            i <= files@.len(),
            all == infos_view(notes@),
            fs == strs(files@),
            list_view(out@) == note_groups(all, fs, i as int),
        decreases files@.len() - i,
    {
        assert(fs[i as int] == files@[i as int]@);
        let ghost before = list_view(out@);
        let mut on = rows_on(notes, files[i].as_str());
        let ghost onv = list_view(on@);
        assert(onv.len() == on@.len());
        out.push(ListRow::NoteFile { name: copy(files[i].as_str()), count: on.len() });
        proof {
            assert(list_view(out@ + on@) =~= list_view(out@) + onv);
            assert(list_view(out@) + onv =~= note_groups(all, fs, i + 1));
        }
        out.append(&mut on);
        i += 1;
    }
    out
}

// ---- what is listed ------------------------------------------------------------

/// A file is under "staged changes" where git's status has a letter for the
/// index, and under "changes" where it has one for the working tree.
pub proof fn law_sections_follow_the_status_letters(e: EntryView, x: char, y: char)
    requires
        e.kind != ChangeKind::Conflicted,
        e.stage == xy_stage(seq![x, y]),
        x != '.' || y != '.',
    ensures
        Section::Staged.shows(e) <==> x != '.',
        Section::Changes.shows(e) <==> y != '.',
        !Section::Conflicts.shows(e),
{
}

/// An untracked file is under "changes" alone, and a conflicted one under
/// "merge conflicts" alone.
pub proof fn law_untracked_and_conflicted_files_have_one_place(e: EntryView)
    ensures
        e.stage == StageState::Untracked && e.kind != ChangeKind::Conflicted
            ==> Section::Changes.shows(e) && !Section::Staged.shows(e) && !Section::Conflicts.shows(
            e,
        ),
        e.kind == ChangeKind::Conflicted ==> Section::Conflicts.shows(e) && !Section::Staged.shows(e)
            && !Section::Changes.shows(e),
        Section::Flat.shows(e),
{
}

proof fn lemma_in_section(entries: Seq<EntryView>, section: Section, n: int)
    requires
        0 <= n <= entries.len() <= usize::MAX,
    ensures
        forall|i: int|
            0 <= i < n ==> (section.shows(#[trigger] entries[i]) <==> in_section(
                entries,
                section,
                n,
            ).contains((i as usize, entries[i].path))),
        forall|k: int|
            0 <= k < in_section(entries, section, n).len() ==> (#[trigger] in_section(
                entries,
                section,
                n,
            )[k]).0 < n,
    decreases n,
{
    if n > 0 {
        lemma_in_section(entries, section, n - 1);
        let before = in_section(entries, section, n - 1);
        let now = in_section(entries, section, n);
        assert forall|i: int| 0 <= i < n implies (section.shows(#[trigger] entries[i])
            <==> now.contains((i as usize, entries[i].path))) by {
            let pair = (i as usize, entries[i].path);
            if i < n - 1 {
                if before.contains(pair) {
                    let k = choose|k: int| 0 <= k < before.len() && before[k] == pair;
                    assert(now[k] == pair);
                }
                if now.contains(pair) {
                    let k = choose|k: int| 0 <= k < now.len() && now[k] == pair;
                    assert(before[k] == pair);
                    assert(before.contains(pair));
                }
            } else {
                if section.shows(entries[i]) {
                    assert(now[now.len() - 1] == pair);
                } else if now.contains(pair) {
                    let k = choose|k: int| 0 <= k < now.len() && now[k] == pair;
                    assert(before[k].0 < n - 1);
                }
            }
        }
    }
}

/// A section takes up exactly the entries that it shows, under their own paths.
pub proof fn law_a_section_takes_what_it_shows(entries: Seq<EntryView>, section: Section, i: int)
    requires
        0 <= i < entries.len() <= usize::MAX,
    ensures
        section.shows(entries[i]) <==> in_section(entries, section, entries.len() as int).contains(
            (i as usize, entries[i].path),
        ),
{
    lemma_in_section(entries, section, entries.len() as int);
}

/// With nothing collapsed, every entry that a section shows has a row under the
/// section's heading. Files have names, and no two entries of a section one path.
pub proof fn law_every_shown_entry_has_a_row(entries: Seq<EntryView>, section: Section, i: int)
    requires
        0 <= i < entries.len() <= usize::MAX,
        section.shows(entries[i]),
        unambiguous(in_section(entries, section, entries.len() as int)),
    ensures
        ({
            let rows = section_rows(entries, section, Seq::empty());
            &&& rows.len() > 0
            &&& rows[0] == (ListRowView::Header {
                title: section.heading(),
                count: in_section(entries, section, entries.len() as int).len() as int,
            })
            &&& exists|k: int|
                0 < k < rows.len() && (#[trigger] rows[k] matches ListRowView::Entry {
                    idx,
                    section: s,
                    ..
                } && idx == i && s == section)
        }),
{
    let shown = in_section(entries, section, entries.len() as int);
    let pair = (i as usize, entries[i].path);
    law_a_section_takes_what_it_shows(entries, section, i);
    let at = choose|at: int| 0 <= at < shown.len() && shown[at] == pair;
    law_a_tree_shows_every_file(shown, at);
    let none = Seq::<(Section, Seq<char>)>::empty();
    assert(collapsed_in(none, section, 0) =~= Seq::<Seq<char>>::empty());
    let t = tree(shown, Seq::empty());
    let k = choose|k: int| 0 <= k < t.len() && is_file(#[trigger] t[k], pair.0);
    let rows = section_rows(entries, section, none);
    assert(tree_rows(entries, section, none)[k] == list_row(t[k], section));
    assert(rows[k + 1] == list_row(t[k], section));
}

proof fn lemma_seen(files: Seq<Seq<char>>, f: Seq<char>, n: int)
    requires
        0 <= n <= files.len(),
    ensures
        has_file(files, f, n) <==> exists|j: int|
            0 <= j < n && same_path(#[trigger] files[j], f),
    decreases n,
{
    if n > 0 {
        lemma_seen(files, f, n - 1);
        if has_file(files, f, n) && !same_path(files[n - 1], f) {
            let j = choose|j: int| 0 <= j < n - 1 && same_path(#[trigger] files[j], f);
            assert(same_path(files[j], f));
        }
        if exists|j: int| 0 <= j < n && same_path(#[trigger] files[j], f) {
            let j = choose|j: int| 0 <= j < n && same_path(#[trigger] files[j], f);
            if j < n - 1 {
                assert(same_path(files[j], f));
            }
        }
    }
}

proof fn lemma_note_has_a_file(notes: Seq<NoteInfoView>, n: int, i: int)
    requires
        0 <= i < n <= notes.len(),
    ensures
        exists|j: int|
            0 <= j < noted_files(notes, n).len() && same_path(
                #[trigger] noted_files(notes, n)[j],
                notes[i].file,
            ),
    decreases n,
{
    let seen = noted_files(notes, n - 1);
    let now = noted_files(notes, n);
    if i < n - 1 {
        lemma_note_has_a_file(notes, n - 1, i);
        let j = choose|j: int| 0 <= j < seen.len() && same_path(#[trigger] seen[j], notes[i].file);
        assert(now[j] == seen[j]);
    } else {
        lemma_seen(seen, notes[i].file, seen.len() as int);
        if has_file(seen, notes[i].file, seen.len() as int) {
            let j = choose|j: int|
                0 <= j < seen.len() && same_path(#[trigger] seen[j], notes[i].file);
            assert(now[j] == seen[j]);
        } else {
            assert(now[now.len() - 1] == notes[i].file);
            lemma_same_path_reflexive(notes[i].file);
        }
    }
}

proof fn lemma_same_path_reflexive(f: Seq<char>)
    ensures
        same_path(f, f),
{
}

proof fn lemma_notes_on(notes: Seq<NoteInfoView>, file: Seq<char>, n: int)
    requires
        0 <= n <= notes.len(),
    ensures
        forall|i: int|
            0 <= i < n && same_path(#[trigger] notes[i].file, file) ==> notes_on(
                notes,
                file,
                n,
            ).contains(ListRowView::Note(i)),
        forall|k: int|
            0 <= k < notes_on(notes, file, n).len() ==> (#[trigger] notes_on(notes, file, n)[k]
                matches ListRowView::Note(i) && 0 <= i < n && same_path(notes[i].file, file)),
    decreases n,
{
    if n > 0 {
        lemma_notes_on(notes, file, n - 1);
        let before = notes_on(notes, file, n - 1);
        let now = notes_on(notes, file, n);
        assert forall|i: int| 0 <= i < n && same_path(#[trigger] notes[i].file, file) implies
            now.contains(ListRowView::Note(i)) by {
            if i < n - 1 {
                assert(before.contains(ListRowView::Note(i)));
                let k = choose|k: int| 0 <= k < before.len() && before[k] == ListRowView::Note(i);
                assert(now[k] == before[k]);
            } else {
                assert(now[now.len() - 1] == ListRowView::Note(i));
            }
        }
        assert forall|k: int| 0 <= k < now.len() implies (#[trigger] now[k] matches ListRowView::Note(
            i,
        ) && 0 <= i < n && same_path(notes[i].file, file)) by {
            if k < before.len() {
                assert(now[k] == before[k]);
            }
        }
    }
}

/// The row at `k` is a note under the heading at `h` of the note's file, with
/// notes alone between.
pub open spec fn under_heading(
    rows: Seq<ListRowView>,
    notes: Seq<NoteInfoView>,
    h: int,
    k: int,
) -> bool {
    &&& 0 <= h < k < rows.len()
    &&& rows[h] matches ListRowView::NoteFile { name, .. } && (rows[k] matches ListRowView::Note(i)
        && 0 <= i < notes.len() && same_path(notes[i].file, name))
    &&& forall|j: int| h < j <= k ==> #[trigger] rows[j] is Note
}

proof fn lemma_groups_hold(notes: Seq<NoteInfoView>, files: Seq<Seq<char>>, n: int, f: int, i: int)
    requires
        0 <= f < n <= files.len(),
        0 <= i < notes.len(),
        same_path(notes[i].file, files[f]),
    ensures
        exists|h: int, k: int|
            #[trigger] under_heading(note_groups(notes, files, n), notes, h, k) && note_groups(
                notes,
                files,
                n,
            )[k] == ListRowView::Note(i),
    decreases n,
{
    let before = note_groups(notes, files, n - 1);
    let now = note_groups(notes, files, n);
    let on = notes_on(notes, files[n - 1], notes.len() as int);
    if f < n - 1 {
        lemma_groups_hold(notes, files, n - 1, f, i);
        let (h, k) = choose|h: int, k: int|
            #[trigger] under_heading(before, notes, h, k) && before[k] == ListRowView::Note(i);
        assert forall|j: int| 0 <= j < before.len() implies now[j] == before[j] by {}
        assert forall|j: int| h < j <= k implies #[trigger] now[j] is Note by {
            assert(before[j] is Note);
        }
        assert(under_heading(now, notes, h, k));
    } else {
        lemma_notes_on(notes, files[f], notes.len() as int);
        assert(same_path(notes[i].file, files[f]));
        assert(on.contains(ListRowView::Note(i)));
        let at = choose|at: int| 0 <= at < on.len() && on[at] == ListRowView::Note(i);
        let h = before.len() as int;
        let k = h + 1 + at;
        assert forall|j: int| h < j <= k implies #[trigger] now[j] is Note by {
            assert(now[j] == on[j - h - 1]);
        }
        assert(now[h] is NoteFile);
        assert(now[k] == on[at]);
        assert(under_heading(now, notes, h, k));
    }
}

/// Every note has a row, under the heading of its file.
pub proof fn law_every_note_is_under_its_file(notes: Seq<NoteInfoView>, i: int)
    requires
        0 <= i < notes.len(),
    ensures
        exists|h: int, k: int|
            #[trigger] under_heading(note_rows(notes), notes, h, k) && note_rows(notes)[k]
                == ListRowView::Note(i),
{
    let files = noted_files(notes, notes.len() as int);
    lemma_note_has_a_file(notes, notes.len() as int, i);
    let f = choose|f: int| 0 <= f < files.len() && same_path(#[trigger] files[f], notes[i].file);
    assert(same_path(notes[i].file, files[f]));
    lemma_groups_hold(notes, files, files.len() as int, f, i);
    let rows = note_groups(notes, files, files.len() as int);
    let (h, k) = choose|h: int, k: int|
        #[trigger] under_heading(rows, notes, h, k) && rows[k] == ListRowView::Note(i);
    assert(under_heading(note_rows(notes), notes, h, k));
}

} // verus!
